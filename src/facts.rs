//! Externally supplied facts with signed multiplicities, and the net change
//! between two snapshots of a set of facts.

use vstd::prelude::*;
use crate::value::{tuple_view, tuple_eq, copy_values, Value, ValueModel};
use crate::node::ResourceId;
use crate::eval::{relation_tuples, fact_of, contains_fact, insert_fact, RelationModel, RelationTuples};

verus! {

/// One external edit: a fact of a relation, added (`true`) or removed (`false`).
pub type FactEdit = (ResourceId, Vec<Value>, bool);

/// The fact that an edit speaks of.
pub open spec fn edit_fact(e: FactEdit) -> (RelationModel, Seq<ValueModel>) {
    (e.0@, tuple_view(e.1@))
}

/// The net multiplicity of fact `q` after the edits `s`: each addition
/// counts one up, each removal one down.
pub open spec fn multiplicity(s: Seq<FactEdit>, q: (RelationModel, Seq<ValueModel>)) -> int
    decreases s.len(),
{
    if s.len() == 0 {
        0
    } else {
        let e = s.last();
        multiplicity(s.drop_last(), q) + if edit_fact(e) == q {
            if e.2 {
                1int
            } else {
                -1int
            }
        } else {
            0int
        }
    }
}

/// The facts that the edits `s` leave visible: those of positive net multiplicity.
pub open spec fn visible(s: Seq<FactEdit>) -> RelationTuples {
    Set::new(|q: (RelationModel, Seq<ValueModel>)| multiplicity(s, q) > 0)
}

/// A fact that no edit names has multiplicity zero.
proof fn unnamed_fact_is_absent(s: Seq<FactEdit>, q: (RelationModel, Seq<ValueModel>))
    requires
        forall|j: int| 0 <= j < s.len() ==> edit_fact(#[trigger] s[j]) != q,
    ensures
        multiplicity(s, q) == 0,
    decreases s.len(),
{
    if s.len() > 0 {
        assert forall|j: int| 0 <= j < s.drop_last().len() implies edit_fact(
            #[trigger] s.drop_last()[j],
        ) != q by {
            assert(s.drop_last()[j] == s[j]);
        }
        unnamed_fact_is_absent(s.drop_last(), q);
    }
}

/// An addition followed by the removal of the same fact leaves every
/// multiplicity as it was.
pub proof fn addition_then_removal_cancels(
    s: Seq<FactEdit>,
    add: FactEdit,
    remove: FactEdit,
    q: (RelationModel, Seq<ValueModel>),
)
    requires
        add.2,
        !remove.2,
        edit_fact(add) == edit_fact(remove),
    ensures
        multiplicity(s.push(add).push(remove), q) == multiplicity(s, q),
        multiplicity(s.push(add).push(remove), edit_fact(add)) <= 0 ==> !visible(
            s.push(add).push(remove),
        ).contains(edit_fact(add)),
{
    assert(s.push(add).push(remove).drop_last() =~= s.push(add));
    assert(s.push(add).push(remove).last() == remove);
    assert(s.push(add).drop_last() =~= s);
    assert(s.push(add).last() == add);
    assert(multiplicity(s.push(add), q) == multiplicity(s, q) + if edit_fact(add) == q {
        1int
    } else {
        0int
    });
}

/// The facts supplied from outside, as the sequence of edits that made them.
pub struct FactBase {
    pub edits: Vec<FactEdit>,
}

impl FactBase {
    /// A fact base with no facts.
    pub fn new() -> (r: FactBase)
        ensures
            r.edits@.len() == 0,
            visible(r.edits@) == Set::<(RelationModel, Seq<ValueModel>)>::empty(),
    {
        let r = FactBase { edits: Vec::new() };
        proof {
            assert(visible(r.edits@) =~= Set::<(RelationModel, Seq<ValueModel>)>::empty());
        }
        r
    }

    /// Applies one edit: an addition counts the fact one up, a removal one down.
    pub fn apply(&mut self, edit: FactEdit)
        ensures
            forall|q: (RelationModel, Seq<ValueModel>)|
                #![trigger multiplicity(final(self).edits@, q)]
                multiplicity(final(self).edits@, q) == multiplicity(old(self).edits@, q) + if q
                    == edit_fact(edit) {
                    if edit.2 {
                        1int
                    } else {
                        -1int
                    }
                } else {
                    0int
                },
    {
        let ghost before = self.edits@;
        self.edits.push(edit);
        proof {
            assert(self.edits@.drop_last() =~= before);
        }
    }

    /// Applies a batch of edits in order.
    pub fn apply_all(&mut self, batch: &Vec<FactEdit>)
        ensures
            forall|q: (RelationModel, Seq<ValueModel>)|
                #![trigger multiplicity(final(self).edits@, q)]
                multiplicity(final(self).edits@, q) == multiplicity(old(self).edits@, q)
                    + multiplicity(batch@, q),
    {
        let mut i: usize = 0;
        while i < batch.len()
            invariant
                i <= batch.len(),
                forall|q: (RelationModel, Seq<ValueModel>)|
                    #![trigger multiplicity(self.edits@, q)]
                    multiplicity(self.edits@, q) == multiplicity(old(self).edits@, q)
                        + multiplicity(batch@.take(i as int), q),
            decreases batch.len() - i,
        {
            let e = (batch[i].0.duplicate(), copy_values(batch[i].1.as_slice()), batch[i].2);
            proof {
                assert(batch@.take(i + 1).drop_last() =~= batch@.take(i as int));
                assert(edit_fact(e) == edit_fact(batch@[i as int]));
                assert forall|q: (RelationModel, Seq<ValueModel>)|
                    #![trigger multiplicity(batch@.take(i + 1), q)]
                    multiplicity(batch@.take(i + 1), q) == multiplicity(batch@.take(i as int), q)
                        + if q == edit_fact(e) {
                        if e.2 {
                            1int
                        } else {
                            -1int
                        }
                    } else {
                        0int
                    } by {
                    assert(batch@.take(i + 1).last() == batch@[i as int]);
                }
            }
            self.apply(e);
            i = i + 1;
        }
        proof {
            assert(batch@.take(batch@.len() as int) =~= batch@);
        }
    }

    /// The net multiplicity of a fact.
    pub fn count(&self, rel: &ResourceId, t: &Vec<Value>) -> (r: i128)
        ensures
            r == multiplicity(self.edits@, (rel@, tuple_view(t@))),
    {
        let ghost q = (rel@, tuple_view(t@));
        let mut sum: i128 = 0;
        let mut i: usize = 0;
        while i < self.edits.len()
            invariant
                i <= self.edits.len(),
                -(i as int) <= sum <= i as int,
                q == (rel@, tuple_view(t@)),
                sum == multiplicity(self.edits@.take(i as int), q),
            decreases self.edits.len() - i,
        {
            proof {
                assert(self.edits@.take(i + 1).drop_last() =~= self.edits@.take(i as int));
                assert(self.edits@.take(i + 1).last() == self.edits@[i as int]);
            }
            let e = &self.edits[i];
            let same_rel = e.0.same(rel);
            let same_tuple = tuple_eq(e.1.as_slice(), t.as_slice());
            let hit = same_rel && same_tuple;
            proof {
                assert(hit == (edit_fact(self.edits@[i as int]) == q));
            }
            if hit {
                if self.edits[i].2 {
                    sum = sum + 1;
                } else {
                    sum = sum - 1;
                }
            }
            i = i + 1;
        }
        proof {
            assert(self.edits@.take(self.edits@.len() as int) =~= self.edits@);
        }
        sum
    }

    /// The visible facts: each fact of positive net multiplicity, once.
    pub fn visible_facts(&self) -> (r: Vec<(ResourceId, Vec<Value>)>)
        ensures
            relation_tuples(r@) == visible(self.edits@),
    {
        let mut out: Vec<(ResourceId, Vec<Value>)> = Vec::new();
        let mut i: usize = 0;
        while i < self.edits.len()
            invariant
                i <= self.edits.len(),
                forall|q: (RelationModel, Seq<ValueModel>)|
                    #[trigger] relation_tuples(out@).contains(q) ==> multiplicity(self.edits@, q)
                        > 0,
                forall|j: int|
                    0 <= j < i && multiplicity(self.edits@, edit_fact(#[trigger] self.edits@[j]))
                        > 0 ==> relation_tuples(out@).contains(edit_fact(self.edits@[j])),
            decreases self.edits.len() - i,
        {
            let c = self.count(&self.edits[i].0, &self.edits[i].1);
            if c > 0 {
                insert_fact(
                    &mut out,
                    self.edits[i].0.duplicate(),
                    copy_values(self.edits[i].1.as_slice()),
                );
            }
            i = i + 1;
        }
        proof {
            assert forall|q: (RelationModel, Seq<ValueModel>)|
                relation_tuples(out@).contains(q) == visible(self.edits@).contains(q) by {
                if multiplicity(self.edits@, q) > 0 {
                    if forall|j: int|
                        0 <= j < self.edits@.len() ==> edit_fact(#[trigger] self.edits@[j]) != q {
                        unnamed_fact_is_absent(self.edits@, q);
                    }
                }
            }
            assert(relation_tuples(out@) =~= visible(self.edits@));
        }
        out
    }
}

/// The change between two snapshots of a set of facts.
pub struct Delta {
    pub added: Vec<(ResourceId, Vec<Value>)>,
    pub removed: Vec<(ResourceId, Vec<Value>)>,
}

/// The facts of `a` that `b` does not hold, each once.
fn missing_from(a: &Vec<(ResourceId, Vec<Value>)>, b: &Vec<(ResourceId, Vec<Value>)>) -> (r: Vec<
    (ResourceId, Vec<Value>),
>)
    ensures
        relation_tuples(r@) == relation_tuples(a@).difference(relation_tuples(b@)),
{
    let mut out: Vec<(ResourceId, Vec<Value>)> = Vec::new();
    let mut i: usize = 0;
    while i < a.len()
        invariant
            i <= a.len(),
            relation_tuples(out@) =~= relation_tuples(a@.take(i as int)).difference(
                relation_tuples(b@),
            ),
        decreases a.len() - i,
    {
        let ghost before = out@;
        let ghost q = fact_of(a@[i as int]);
        proof {
            assert forall|x: (RelationModel, Seq<ValueModel>)|
                relation_tuples(a@.take(i + 1)).contains(x) == (relation_tuples(
                    a@.take(i as int),
                ).contains(x) || x == q) by {
                if relation_tuples(a@.take(i + 1)).contains(x) {
                    let t1 = a@.take(i + 1);
                    let j = choose|j: int| 0 <= j < t1.len() && x == fact_of(#[trigger] t1[j]);
                    if j < i {
                        assert(a@.take(i as int)[j] == a@.take(i + 1)[j]);
                    }
                }
                if relation_tuples(a@.take(i as int)).contains(x) {
                    let t0 = a@.take(i as int);
                    let j = choose|j: int| 0 <= j < t0.len() && x == fact_of(#[trigger] t0[j]);
                    assert(a@.take(i as int)[j] == a@.take(i + 1)[j]);
                }
                if x == q {
                    assert(a@.take(i + 1)[i as int] == a@[i as int]);
                }
            }
        }
        let present = contains_fact(b, &a[i].0, &a[i].1);
        proof {
            assert(q == (a@[i as int].0@, tuple_view(a@[i as int].1@)));
        }
        if !present {
            insert_fact(&mut out, a[i].0.duplicate(), copy_values(a[i].1.as_slice()));
        }
        proof {
            assert forall|x: (RelationModel, Seq<ValueModel>)|
                relation_tuples(out@).contains(x) == relation_tuples(a@.take(i + 1)).difference(
                    relation_tuples(b@),
                ).contains(x) by {
                assert(relation_tuples(a@.take(i + 1)).contains(x) == (relation_tuples(
                    a@.take(i as int),
                ).contains(x) || x == q));
                assert(relation_tuples(before).contains(x) == relation_tuples(a@.take(i as int)).difference(
                    relation_tuples(b@),
                ).contains(x));
            }
            assert(relation_tuples(out@) =~= relation_tuples(a@.take(i + 1)).difference(
                relation_tuples(b@),
            ));
        }
        i = i + 1;
    }
    proof {
        assert(a@.take(a@.len() as int) =~= a@);
    }
    out
}

/// What a lane has reported so far, so that each step reports only what
/// changed since the step before.
pub struct TraceMap {
    pub seen: Vec<(ResourceId, Vec<Value>)>,
}

impl TraceMap {
    /// A trace that has reported nothing.
    pub fn new() -> (r: TraceMap)
        ensures
            relation_tuples(r.seen@) == Set::<(RelationModel, Seq<ValueModel>)>::empty(),
    {
        let r = TraceMap { seen: Vec::new() };
        proof {
            assert(relation_tuples(r.seen@) =~= Set::<(RelationModel, Seq<ValueModel>)>::empty());
        }
        r
    }

    /// Records the current facts and returns the net change since the last
    /// record: what is new, and what is gone.
    pub fn update(&mut self, current: &Vec<(ResourceId, Vec<Value>)>) -> (r: Delta)
        ensures
            relation_tuples(final(self).seen@) == relation_tuples(current@),
            relation_tuples(r.added@) == relation_tuples(current@).difference(
                relation_tuples(old(self).seen@),
            ),
            relation_tuples(r.removed@) == relation_tuples(old(self).seen@).difference(
                relation_tuples(current@),
            ),
    {
        let added = missing_from(current, &self.seen);
        let removed = missing_from(&self.seen, current);
        self.seen = crate::eval::copy_facts(current);
        Delta { added, removed }
    }
}

/// The net multiplicity of the item with key `k` after the edits `s`.
pub open spec fn item_multiplicity<T>(s: Seq<(u64, T, bool)>, k: u64) -> int
    decreases s.len(),
{
    if s.len() == 0 {
        0
    } else {
        item_multiplicity(s.drop_last(), k) + if s.last().0 == k {
            if s.last().2 {
                1int
            } else {
                -1int
            }
        } else {
            0int
        }
    }
}

/// Whether edit `i` is the first edit of its item.
pub open spec fn first_of_key<T>(s: Seq<(u64, T, bool)>, i: int) -> bool {
    forall|j: int| 0 <= j < i ==> (#[trigger] s[j]).0 != s[i].0
}

/// The places of the visible items among the first `n` edits: the first
/// edit of each item whose net multiplicity is positive, in order.
pub open spec fn visible_places<T>(s: Seq<(u64, T, bool)>, n: int) -> Seq<usize>
    decreases n,
{
    if n <= 0 {
        Seq::empty()
    } else {
        visible_places(s, n - 1) + if first_of_key(s, n - 1) && item_multiplicity(s, s[n - 1].0) > 0 {
            seq![(n - 1) as usize]
        } else {
            Seq::empty()
        }
    }
}

/// The module items supplied from outside, as the sequence of edits that
/// made them; each item is named by a key derived from its contents.
pub struct ItemBase<T> {
    pub edits: Vec<(u64, T, bool)>,
}

impl<T> ItemBase<T> {
    /// An item base with no items.
    pub fn new() -> (r: ItemBase<T>)
        ensures
            r.edits@.len() == 0,
    {
        ItemBase { edits: Vec::new() }
    }

    /// Applies one edit: an addition counts the item one up, a removal one down.
    pub fn apply(&mut self, key: u64, item: T, add: bool)
        ensures
            final(self).edits@ == old(self).edits@.push((key, item, add)),
            forall|k: u64|
                #![trigger item_multiplicity(final(self).edits@, k)]
                item_multiplicity(final(self).edits@, k) == item_multiplicity(old(self).edits@, k) + if k
                    == key {
                    if add {
                        1int
                    } else {
                        -1int
                    }
                } else {
                    0int
                },
    {
        let ghost before = self.edits@;
        self.edits.push((key, item, add));
        proof {
            assert(self.edits@.drop_last() =~= before);
        }
    }

    /// The net multiplicity of the item with key `key`.
    pub fn count(&self, key: u64) -> (r: i128)
        ensures
            r == item_multiplicity(self.edits@, key),
    {
        let mut sum: i128 = 0;
        let mut i: usize = 0;
        while i < self.edits.len()
            invariant
                i <= self.edits.len(),
                -(i as int) <= sum <= i as int,
                sum == item_multiplicity(self.edits@.take(i as int), key),
            decreases self.edits.len() - i,
        {
            proof {
                assert(self.edits@.take(i + 1).drop_last() =~= self.edits@.take(i as int));
                assert(self.edits@.take(i + 1).last() == self.edits@[i as int]);
            }
            if self.edits[i].0 == key {
                if self.edits[i].2 {
                    sum = sum + 1;
                } else {
                    sum = sum - 1;
                }
            }
            i = i + 1;
        }
        proof {
            assert(self.edits@.take(self.edits@.len() as int) =~= self.edits@);
        }
        sum
    }

    /// The places in `edits` of the visible items: the first edit of each
    /// item whose net multiplicity is positive, in order.
    pub fn visible(&self) -> (r: Vec<usize>)
        ensures
            r@ == visible_places(self.edits@, self.edits@.len() as int),
    {
        let mut out: Vec<usize> = Vec::new();
        let mut i: usize = 0;
        while i < self.edits.len()
            invariant
                i <= self.edits.len(),
                out@ == visible_places(self.edits@, i as int),
            decreases self.edits.len() - i,
        {
            let key = self.edits[i].0;
            let mut j: usize = 0;
            let mut first = true;
            while j < i && first
                invariant
                    j <= i < self.edits@.len(),
                    key == self.edits@[i as int].0,
                    first == forall|m: int| 0 <= m < j ==> (#[trigger] self.edits@[m]).0 != key,
                decreases i - j,
            {
                if self.edits[j].0 == key {
                    first = false;
                }
                j = j + 1;
            }
            proof {
                if first {
                    assert(j == i);
                }
                assert(first == first_of_key(self.edits@, i as int));
            }
            if first && self.count(key) > 0 {
                out.push(i);
            }
            i = i + 1;
        }
        out
    }
}

} // verus!
