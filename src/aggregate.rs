//! Splitting results into values that go on and errors that are gathered.

use vstd::prelude::*;
use crate::infer::reversed;

verus! {

/// The `Ok` values of a list of results, in order.
pub open spec fn oks<O, E>(s: Seq<Result<O, E>>) -> Seq<O>
    decreases s.len(),
{
    if s.len() == 0 {
        Seq::empty()
    } else {
        oks(s.drop_last()) + match s.last() {
            Ok(o) => seq![o],
            Err(_) => Seq::empty(),
        }
    }
}

/// The `Err` values of a list of results, in order.
pub open spec fn errs<O, E>(s: Seq<Result<O, E>>) -> Seq<E>
    decreases s.len(),
{
    if s.len() == 0 {
        Seq::empty()
    } else {
        errs(s.drop_last()) + match s.last() {
            Ok(_) => Seq::empty(),
            Err(e) => seq![e],
        }
    }
}

/// A side channel that gathers the errors of many computations, while
/// their successful values go on.
pub struct Aggregate<T> {
    pub items: Vec<T>,
}

impl<T> Aggregate<T> {
    /// An empty aggregate.
    pub fn new() -> (r: Aggregate<T>)
        ensures
            r.items@.len() == 0,
    {
        Aggregate { items: Vec::new() }
    }

    /// An aggregate that starts with `inner`.
    pub fn from_collection(inner: Vec<T>) -> (r: Aggregate<T>)
        ensures
            r.items == inner,
    {
        Aggregate { items: inner }
    }

    /// Adds `other` after what is gathered.
    pub fn push(&mut self, other: Vec<T>)
        ensures
            final(self).items@ == old(self).items@ + other@,
    {
        let mut other = other;
        self.items.append(&mut other);
    }

    /// Gathers the errors of `other`, passed through `map`, and returns its
    /// successful values, both in order.
    pub fn with_map_errs<O, E, F: Fn(E) -> T>(&mut self, other: Vec<Result<O, E>>, map: &F) -> (r: Vec<O>)
        requires
            forall|e: E| map.requires((e,)),
        ensures
            r@ == oks(other@),
            final(self).items@.len() == old(self).items@.len() + errs(other@).len(),
            forall|i: int| 0 <= i < old(self).items@.len() ==> final(self).items@[i] == old(self).items@[i],
            forall|i: int|
                0 <= i < errs(other@).len() ==> map.ensures(
                    (errs(other@)[i],),
                    #[trigger] final(self).items@[old(self).items@.len() + i],
                ),
    {
        let ghost all = other@;
        let ghost start = self.items@;
        let mut rest = reversed(other);
        let mut out: Vec<O> = Vec::new();
        let ghost mut done: int = 0;
        while rest.len() > 0
            invariant
                forall|e: E| map.requires((e,)),
                0 <= done,
                done + rest@.len() == all.len(),
                forall|i: int| 0 <= i < rest@.len() ==> rest@[i] == all[all.len() - 1 - i],
                out@ == oks(all.take(done)),
                self.items@.len() == start.len() + errs(all.take(done)).len(),
                forall|i: int| 0 <= i < start.len() ==> self.items@[i] == start[i],
                forall|i: int|
                    0 <= i < errs(all.take(done)).len() ==> map.ensures(
                        (errs(all.take(done))[i],),
                        #[trigger] self.items@[start.len() + i],
                    ),
            decreases rest.len(),
        {
            let x = rest.pop().unwrap();
            let ghost before = self.items@;
            proof {
                assert(x == all[done]);
                assert(all.take(done + 1).drop_last() =~= all.take(done));
                assert(all.take(done + 1).last() == x);
            }
            match x {
                Ok(o) => {
                    out.push(o);
                    proof {
                        assert(errs(all.take(done + 1)) =~= errs(all.take(done)));
                    }
                },
                Err(e) => {
                    let ghost ev = e;
                    let t = map(e);
                    self.items.push(t);
                    proof {
                        assert(errs(all.take(done + 1)) =~= errs(all.take(done)).push(ev));
                        assert forall|i: int|
                            0 <= i < errs(all.take(done + 1)).len() implies map.ensures(
                            (errs(all.take(done + 1))[i],),
                            #[trigger] self.items@[start.len() + i],
                        ) by {
                            if i < errs(all.take(done)).len() {
                                assert(self.items@[start.len() + i] == before[start.len() + i]);
                            }
                        }
                    }
                },
            }
            proof {
                done = done + 1;
            }
        }
        proof {
            assert(all.take(all.len() as int) =~= all);
        }
        out
    }

    /// Gathers the errors of `other` and returns its successful values,
    /// both in order.
    pub fn with_errs<O>(&mut self, other: Vec<Result<O, T>>) -> (r: Vec<O>)
        ensures
            r@ == oks(other@),
            final(self).items@ == old(self).items@ + errs(other@),
    {
        let ghost start = self.items@;
        let keep = |e: T| -> (r: T)
            ensures
                r == e,
            { e };
        let r = self.with_map_errs(other, &keep);
        proof {
            assert forall|i: int| 0 <= i < errs(other@).len() implies self.items@[start.len() + i]
                == errs(other@)[i] by {
                assert(keep.ensures((errs(other@)[i],), self.items@[start.len() + i]));
            }
            assert(self.items@ =~= start + errs(other@));
        }
        r
    }
}

/// The pair with its value passed through `cb`, if `cb` gives one.
pub fn map_value<K, I, O, F: Fn(I) -> Option<O>>(cb: &F, pair: (K, I)) -> (r: Option<(K, O)>)
    requires
        cb.requires((pair.1,)),
    ensures
        match r {
            Some(p) => p.0 == pair.0 && cb.ensures((pair.1,), Some(p.1)),
            None => cb.ensures((pair.1,), None::<O>),
        },
{
    let (k, v) = pair;
    match cb(v) {
        Some(o) => Some((k, o)),
        None => None,
    }
}

} // verus!
