//! Evaluation of a node graph to a fixed point, round by round, against a
//! model of one round over sets of tuples.

use vstd::prelude::*;
use crate::value::{tuple_view, tuple_eq, copy_values, Value, ValueModel};
use crate::node::{
    join, join_slice, joined, map_fits, prefix_match, project_values, projected, Key, Node,
    ResourceId,
};

verus! {

/// The model of a relation identity.
pub type RelationModel = (Seq<char>, Seq<char>);

/// Tuples tagged with the key of the node that holds them.
pub type NodeTuples = Set<(u64, Seq<ValueModel>)>;

/// Tuples tagged with the relation that holds them.
pub type RelationTuples = Set<(RelationModel, Seq<ValueModel>)>;

/// The model of an evaluation state: the output of every node and the
/// contents of every relation.
pub struct EvalModel {
    pub tuples: NodeTuples,
    pub relations: RelationTuples,
}

/// The set of node tuples that a list holds.
pub open spec fn node_tuples(v: Seq<(Key, Vec<Value>)>) -> NodeTuples {
    Set::new(|p: (u64, Seq<ValueModel>)| exists|i: int| 0 <= i < v.len() && p == row_of(v[i]))
}

/// The model of one row of node tuples.
pub open spec fn row_of(row: (Key, Vec<Value>)) -> (u64, Seq<ValueModel>) {
    (row.0.id, tuple_view(row.1@))
}

/// The set of relation tuples that a list holds.
pub open spec fn relation_tuples(v: Seq<(ResourceId, Vec<Value>)>) -> RelationTuples {
    Set::new(
        |q: (RelationModel, Seq<ValueModel>)|
            exists|i: int| 0 <= i < v.len() && q == fact_of(v[i]),
    )
}

/// The model of one row of relation tuples.
pub open spec fn fact_of(row: (ResourceId, Vec<Value>)) -> (RelationModel, Seq<ValueModel>) {
    (row.0@, tuple_view(row.1@))
}

/// Whether node `n`, under key `k`, emits `p` from the node tuples `t` and
/// the relation contents `r`.
pub open spec fn node_emits(
    n: Node,
    k: u64,
    t: NodeTuples,
    r: RelationTuples,
    p: (u64, Seq<ValueModel>),
) -> bool {
    p.0 == k && match n {
        Node::Join { lhs, rhs, num } => join_emits(lhs.id, rhs.id, num as int, t, p.1),
        Node::Project { src, map } => projects_from(src.id, map@, t, p.1),
        Node::LoadRelation { resource } => r.contains((resource@, p.1)),
        Node::StoreRelation { .. } => false,
    }
}

/// Whether a join of the node outputs `lhs` and `rhs` on `num` terms emits
/// the tuple `c`.
pub open spec fn join_emits(lhs: u64, rhs: u64, num: int, t: NodeTuples, c: Seq<ValueModel>) -> bool {
    exists|a: Seq<ValueModel>, b: Seq<ValueModel>|
        #![trigger t.contains((lhs, a)), t.contains((rhs, b))]
        t.contains((lhs, a)) && t.contains((rhs, b)) && prefix_match(a, b, num) && c == joined(
            a,
            b,
            num,
        )
}

/// Whether rearranging some output tuple of node `src` by `map` gives `c`.
pub open spec fn projects_from(src: u64, map: Seq<usize>, t: NodeTuples, c: Seq<ValueModel>) -> bool {
    exists|a: Seq<ValueModel>|
        #![trigger t.contains((src, a))]
        t.contains((src, a)) && map_fits(map, a.len() as int) && c == projected(a, map)
}

/// Whether node `n` stores `q` into a relation, given the new node tuples `t`.
pub open spec fn node_stores(n: Node, t: NodeTuples, q: (RelationModel, Seq<ValueModel>)) -> bool {
    match n {
        Node::StoreRelation { src, dst, map } => q.0 == dst@ && projects_from(src.id, map@, t, q.1),
        _ => false,
    }
}

/// The node tuples of the next round: the union of what every join,
/// projection and load emits, each tuple once.
pub open spec fn next_tuples(g: Seq<(Key, Node)>, s: EvalModel) -> NodeTuples {
    Set::new(
        |p: (u64, Seq<ValueModel>)|
            exists|i: int|
                0 <= i < g.len() && #[trigger] node_emits(g[i].1, g[i].0.id, s.tuples, s.relations, p),
    )
}

/// What the stores write from the node tuples `t`.
pub open spec fn stored(g: Seq<(Key, Node)>, t: NodeTuples) -> RelationTuples {
    Set::new(
        |q: (RelationModel, Seq<ValueModel>)|
            exists|i: int| 0 <= i < g.len() && #[trigger] node_stores(g[i].1, t, q),
    )
}

/// One evaluation round over the graph `g` with the external facts `f`.
pub open spec fn step(g: Seq<(Key, Node)>, f: RelationTuples, s: EvalModel) -> EvalModel {
    let t = next_tuples(g, s);
    EvalModel { tuples: t, relations: f.union(stored(g, t)) }
}

/// The state before the first round: no node output, and the external facts.
pub open spec fn initial(f: RelationTuples) -> EvalModel {
    EvalModel { tuples: Set::empty(), relations: f }
}

/// The state after `n` rounds that start from `s`.
pub open spec fn run(g: Seq<(Key, Node)>, f: RelationTuples, s: EvalModel, n: nat) -> EvalModel
    decreases n,
{
    if n == 0 {
        s
    } else {
        step(g, f, run(g, f, s, (n - 1) as nat))
    }
}

/// The state after `n` rounds from the start.
pub open spec fn iterate(g: Seq<(Key, Node)>, f: RelationTuples, n: nat) -> EvalModel {
    run(g, f, initial(f), n)
}

/// Whether `s` is a fixed point of the rounds.
pub open spec fn is_fixed_point(g: Seq<(Key, Node)>, f: RelationTuples, s: EvalModel) -> bool {
    step(g, f, s) == s
}

/// Whether a list holds the tuple `t` under the key `k`.
pub fn contains_tuple(v: &Vec<(Key, Vec<Value>)>, k: Key, t: &Vec<Value>) -> (r: bool)
    ensures
        r == node_tuples(v@).contains((k.id, tuple_view(t@))),
{
    let mut i: usize = 0;
    while i < v.len()
        invariant
            i <= v.len(),
            forall|j: int| 0 <= j < i ==> row_of(#[trigger] v@[j]) != (k.id, tuple_view(t@)),
        decreases v.len() - i,
    {
        if v[i].0.id == k.id && tuple_eq(v[i].1.as_slice(), t.as_slice()) {
            proof {
                assert(row_of(v@[i as int]) == (k.id, tuple_view(t@)));
            }
            return true;
        }
        i = i + 1;
    }
    false
}

/// Adds a tuple under a key, unless the list already holds it.
pub fn insert_tuple(v: &mut Vec<(Key, Vec<Value>)>, k: Key, t: Vec<Value>)
    ensures
        node_tuples(final(v)@) == node_tuples(old(v)@).insert((k.id, tuple_view(t@))),
{
    if contains_tuple(v, k, &t) {
        proof {
            assert(node_tuples(v@) =~= node_tuples(v@).insert((k.id, tuple_view(t@))));
        }
    } else {
        let ghost before = v@;
        v.push((k, t));
        proof {
            let after = v@;
            assert forall|p: (u64, Seq<ValueModel>)|
                node_tuples(after).contains(p) == node_tuples(before).insert(
                    (k.id, tuple_view(t@)),
                ).contains(p) by {
                if node_tuples(before).contains(p) {
                    let j = choose|j: int| 0 <= j < before.len() && p == row_of(before[j]);
                    assert(after[j] == before[j]);
                }
                if node_tuples(after).contains(p) {
                    let j = choose|j: int| 0 <= j < after.len() && p == row_of(after[j]);
                    if j < before.len() {
                        assert(after[j] == before[j]);
                    }
                }
                if p == (k.id, tuple_view(t@)) {
                    assert(p == row_of(after[before.len() as int]));
                }
            }
            assert(node_tuples(after) =~= node_tuples(before).insert((k.id, tuple_view(t@))));
        }
    }
}

/// Whether a list holds the tuple `t` in the relation `rel`.
pub fn contains_fact(v: &Vec<(ResourceId, Vec<Value>)>, rel: &ResourceId, t: &Vec<Value>) -> (r:
    bool)
    ensures
        r == relation_tuples(v@).contains((rel@, tuple_view(t@))),
{
    let mut i: usize = 0;
    while i < v.len()
        invariant
            i <= v.len(),
            forall|j: int| 0 <= j < i ==> fact_of(#[trigger] v@[j]) != (rel@, tuple_view(t@)),
        decreases v.len() - i,
    {
        if v[i].0.same(rel) && tuple_eq(v[i].1.as_slice(), t.as_slice()) {
            proof {
                assert(fact_of(v@[i as int]) == (rel@, tuple_view(t@)));
            }
            return true;
        }
        i = i + 1;
    }
    false
}

/// Adds a tuple to a relation, unless the list already holds it.
pub fn insert_fact(v: &mut Vec<(ResourceId, Vec<Value>)>, rel: ResourceId, t: Vec<Value>)
    ensures
        relation_tuples(final(v)@) == relation_tuples(old(v)@).insert((rel@, tuple_view(t@))),
{
    if contains_fact(v, &rel, &t) {
        proof {
            assert(relation_tuples(v@) =~= relation_tuples(v@).insert((rel@, tuple_view(t@))));
        }
    } else {
        let ghost before = v@;
        let ghost q0 = (rel@, tuple_view(t@));
        v.push((rel, t));
        proof {
            let after = v@;
            assert forall|q: (RelationModel, Seq<ValueModel>)|
                relation_tuples(after).contains(q) == relation_tuples(before).insert(
                    q0,
                ).contains(q) by {
                if relation_tuples(before).contains(q) {
                    let j = choose|j: int| 0 <= j < before.len() && q == fact_of(before[j]);
                    assert(after[j] == before[j]);
                }
                if relation_tuples(after).contains(q) {
                    let j = choose|j: int| 0 <= j < after.len() && q == fact_of(after[j]);
                    if j < before.len() {
                        assert(after[j] == before[j]);
                    }
                }
                if q == q0 {
                    assert(q == fact_of(after[before.len() as int]));
                }
            }
            assert(relation_tuples(after) =~= relation_tuples(before).insert(q0));
        }
    }
}

/// Whether every index of `map` lies inside a tuple of length `len`.
pub fn fits(map: &Vec<usize>, len: usize) -> (r: bool)
    ensures
        r == map_fits(map@, len as int),
{
    let mut i: usize = 0;
    while i < map.len()
        invariant
            i <= map.len(),
            forall|j: int| 0 <= j < i ==> (map@[j] as int) < len,
        decreases map.len() - i,
    {
        if map[i] >= len {
            return false;
        }
        i = i + 1;
    }
    true
}

/// Whether two rows of node tuples meet a join of `lhs` and `rhs` on `num` terms.
pub open spec fn rows_join(
    x: (Key, Vec<Value>),
    y: (Key, Vec<Value>),
    lhs: Key,
    rhs: Key,
    num: usize,
) -> bool {
    x.0.id == lhs.id && y.0.id == rhs.id && prefix_match(
        tuple_view(x.1@),
        tuple_view(y.1@),
        num as int,
    )
}

/// The tuples that node `n`, under key `k`, emits in one round.
pub open spec fn emitted(n: Node, k: u64, t: NodeTuples, r: RelationTuples) -> NodeTuples {
    Set::new(|p: (u64, Seq<ValueModel>)| node_emits(n, k, t, r, p))
}

/// The join of two rows, if they agree on their first `num` terms.
fn join_rows(k: Key, num: usize, a: &Vec<Value>, b: &Vec<Value>) -> (r: Option<Vec<Value>>)
    ensures
        r.is_some() == prefix_match(tuple_view(a@), tuple_view(b@), num as int),
        r.is_some() ==> tuple_view(r.unwrap()@) == joined(
            tuple_view(a@),
            tuple_view(b@),
            num as int,
        ),
{
    if num > a.len() || num > b.len() {
        return None;
    }
    let ((dst, prefix), trail_a) = join_slice(((k, num), copy_values(a.as_slice())));
    let ((_, prefix_b), trail_b) = join_slice(((k, num), copy_values(b.as_slice())));
    if !tuple_eq(prefix.as_slice(), prefix_b.as_slice()) {
        return None;
    }
    let (_, out) = join(((dst, prefix), (trail_a, trail_b)));
    Some(out)
}

/// Adds to `out` what the join node `(lhs, rhs, num)` under key `k` emits.
fn emit_join(
    k: Key,
    lhs: Key,
    rhs: Key,
    num: usize,
    t: &Vec<(Key, Vec<Value>)>,
    r: &Vec<(ResourceId, Vec<Value>)>,
    out: &mut Vec<(Key, Vec<Value>)>,
)
    ensures
        node_tuples(final(out)@) == node_tuples(old(out)@).union(
            emitted(Node::Join { lhs, rhs, num }, k.id, node_tuples(t@), relation_tuples(r@)),
        ),
{
    let ghost n = Node::Join { lhs, rhs, num };
    let ghost tt = node_tuples(t@);
    let ghost rr = relation_tuples(r@);
    let ghost start = node_tuples(out@);
    let mut x: usize = 0;
    while x < t.len()
        invariant
            x <= t.len(),
            n == (Node::Join { lhs, rhs, num }),
            tt == node_tuples(t@),
            rr == relation_tuples(r@),
            start.subset_of(node_tuples(out@)),
            forall|p: (u64, Seq<ValueModel>)|
                #[trigger] node_tuples(out@).contains(p) ==> start.contains(p) || node_emits(
                    n,
                    k.id,
                    tt,
                    rr,
                    p,
                ),
            forall|i: int, j: int|
                0 <= i < x && 0 <= j < t.len() && #[trigger] rows_join(t@[i], t@[j], lhs, rhs, num)
                    ==> node_tuples(out@).contains(
                    (k.id, joined(tuple_view(t@[i].1@), tuple_view(t@[j].1@), num as int)),
                ),
        decreases t.len() - x,
    {
        let mut y: usize = 0;
        while y < t.len()
            invariant
                x < t.len(),
                y <= t.len(),
                n == (Node::Join { lhs, rhs, num }),
                tt == node_tuples(t@),
                rr == relation_tuples(r@),
                start.subset_of(node_tuples(out@)),
                forall|p: (u64, Seq<ValueModel>)|
                    #[trigger] node_tuples(out@).contains(p) ==> start.contains(p) || node_emits(
                        n,
                        k.id,
                        tt,
                        rr,
                        p,
                    ),
                forall|i: int, j: int|
                    ((0 <= i < x && 0 <= j < t.len()) || (i == x && 0 <= j < y))
                        && #[trigger] rows_join(t@[i], t@[j], lhs, rhs, num)
                        ==> node_tuples(out@).contains(
                        (k.id, joined(tuple_view(t@[i].1@), tuple_view(t@[j].1@), num as int)),
                    ),
            decreases t.len() - y,
        {
            if t[x].0.id == lhs.id && t[y].0.id == rhs.id {
                match join_rows(k, num, &t[x].1, &t[y].1) {
                    Some(row) => {
                        let ghost a = tuple_view(t@[x as int].1@);
                        let ghost b = tuple_view(t@[y as int].1@);
                        let ghost p0 = (k.id, tuple_view(row@));
                        proof {
                            assert(row_of(t@[x as int]) == (lhs.id, a));
                            assert(row_of(t@[y as int]) == (rhs.id, b));
                            assert(tt.contains((lhs.id, a)));
                            assert(tt.contains((rhs.id, b)));
                            assert(prefix_match(a, b, num as int));
                            assert(p0.1 == joined(a, b, num as int));
                            assert(join_emits(lhs.id, rhs.id, num as int, tt, p0.1));
                            assert(node_emits(n, k.id, tt, rr, p0));
                        }
                        insert_tuple(out, k, row);
                    },
                    None => {},
                }
            }
            y = y + 1;
        }
        x = x + 1;
    }
    proof {
        let em = emitted(n, k.id, tt, rr);
        assert forall|p: (u64, Seq<ValueModel>)|
            node_tuples(out@).contains(p) == start.union(em).contains(p) by {
            if em.contains(p) {
                assert(join_emits(lhs.id, rhs.id, num as int, tt, p.1));
                let (a, b) = choose|a: Seq<ValueModel>, b: Seq<ValueModel>|
                    #![trigger tt.contains((lhs.id, a)), tt.contains((rhs.id, b))]
                    tt.contains((lhs.id, a)) && tt.contains((rhs.id, b)) && prefix_match(
                        a,
                        b,
                        num as int,
                    ) && p.1 == joined(a, b, num as int);
                let i = choose|i: int| 0 <= i < t@.len() && (lhs.id, a) == row_of(t@[i]);
                let j = choose|j: int| 0 <= j < t@.len() && (rhs.id, b) == row_of(t@[j]);
                assert(rows_join(t@[i], t@[j], lhs, rhs, num));
            }
        }
        assert(node_tuples(out@) =~= start.union(em));
    }
}

/// Adds to `out` what the projection node `(src, map)` under key `k` emits.
fn emit_project(
    k: Key,
    src: Key,
    map: &Vec<usize>,
    t: &Vec<(Key, Vec<Value>)>,
    r: &Vec<(ResourceId, Vec<Value>)>,
    out: &mut Vec<(Key, Vec<Value>)>,
)
    ensures
        node_tuples(final(out)@) == node_tuples(old(out)@).union(
            emitted(
                Node::Project { src, map: *map },
                k.id,
                node_tuples(t@),
                relation_tuples(r@),
            ),
        ),
{
    let ghost n = Node::Project { src, map: *map };
    let ghost tt = node_tuples(t@);
    let ghost rr = relation_tuples(r@);
    let ghost start = node_tuples(out@);
    let mut x: usize = 0;
    while x < t.len()
        invariant
            x <= t.len(),
            n == (Node::Project { src, map: *map }),
            tt == node_tuples(t@),
            rr == relation_tuples(r@),
            start.subset_of(node_tuples(out@)),
            forall|p: (u64, Seq<ValueModel>)|
                #[trigger] node_tuples(out@).contains(p) ==> start.contains(p) || node_emits(
                    n,
                    k.id,
                    tt,
                    rr,
                    p,
                ),
            forall|i: int|
                0 <= i < x && (#[trigger] t@[i]).0.id == src.id && map_fits(
                    map@,
                    t@[i].1@.len() as int,
                ) ==> node_tuples(out@).contains(
                    (k.id, projected(tuple_view(t@[i].1@), map@)),
                ),
        decreases t.len() - x,
    {
        if t[x].0.id == src.id && fits(map, t[x].1.len()) {
            let row = project_values(&t[x].1, map);
            proof {
                let a = tuple_view(t@[x as int].1@);
                assert(row_of(t@[x as int]) == (src.id, a));
                assert(tt.contains((src.id, a)));
                assert(a.len() == t@[x as int].1@.len());
                assert(projects_from(src.id, map@, tt, tuple_view(row@)));
                assert(node_emits(n, k.id, tt, rr, (k.id, tuple_view(row@))));
            }
            insert_tuple(out, k, row);
        }
        x = x + 1;
    }
    proof {
        let em = emitted(n, k.id, tt, rr);
        assert forall|p: (u64, Seq<ValueModel>)|
            node_tuples(out@).contains(p) == start.union(em).contains(p) by {
            if em.contains(p) {
                assert(projects_from(src.id, map@, tt, p.1));
                let a = choose|a: Seq<ValueModel>|
                    #![trigger tt.contains((src.id, a))]
                    tt.contains((src.id, a)) && map_fits(map@, a.len() as int) && p.1 == projected(
                        a,
                        map@,
                    );
                let i = choose|i: int| 0 <= i < t@.len() && (src.id, a) == row_of(t@[i]);
                assert(t@[i].0.id == src.id);
            }
        }
        assert(node_tuples(out@) =~= start.union(em));
    }
}

/// Adds to `out` the facts of `resource`, as the output of the load node `k`.
fn emit_load(
    k: Key,
    resource: &ResourceId,
    t: &Vec<(Key, Vec<Value>)>,
    r: &Vec<(ResourceId, Vec<Value>)>,
    out: &mut Vec<(Key, Vec<Value>)>,
)
    ensures
        node_tuples(final(out)@) == node_tuples(old(out)@).union(
            emitted(
                Node::LoadRelation { resource: *resource },
                k.id,
                node_tuples(t@),
                relation_tuples(r@),
            ),
        ),
{
    let ghost n = Node::LoadRelation { resource: *resource };
    let ghost tt = node_tuples(t@);
    let ghost rr = relation_tuples(r@);
    let ghost start = node_tuples(out@);
    let mut x: usize = 0;
    while x < r.len()
        invariant
            x <= r.len(),
            n == (Node::LoadRelation { resource: *resource }),
            tt == node_tuples(t@),
            rr == relation_tuples(r@),
            start.subset_of(node_tuples(out@)),
            forall|p: (u64, Seq<ValueModel>)|
                #[trigger] node_tuples(out@).contains(p) ==> start.contains(p) || node_emits(
                    n,
                    k.id,
                    tt,
                    rr,
                    p,
                ),
            forall|i: int|
                0 <= i < x && (#[trigger] r@[i]).0@ == resource@ ==> node_tuples(out@).contains(
                    (k.id, tuple_view(r@[i].1@)),
                ),
        decreases r.len() - x,
    {
        if r[x].0.same(resource) {
            let row = copy_values(r[x].1.as_slice());
            proof {
                assert(fact_of(r@[x as int]) == (resource@, tuple_view(row@)));
                assert(rr.contains((resource@, tuple_view(row@))));
            }
            insert_tuple(out, k, row);
        }
        x = x + 1;
    }
    proof {
        let em = emitted(n, k.id, tt, rr);
        assert forall|p: (u64, Seq<ValueModel>)|
            node_tuples(out@).contains(p) == start.union(em).contains(p) by {
            if em.contains(p) {
                let i = choose|i: int| 0 <= i < r@.len() && (resource@, p.1) == fact_of(r@[i]);
                assert(r@[i].0@ == resource@);
            }
        }
        assert(node_tuples(out@) =~= start.union(em));
    }
}

/// What the store node `n` writes in one round, given the new node tuples `t`.
pub open spec fn stored_by(n: Node, t: NodeTuples) -> RelationTuples {
    Set::new(|q: (RelationModel, Seq<ValueModel>)| node_stores(n, t, q))
}

/// Adds to `out` what the store node `(src, dst, map)` writes from the node tuples `t`.
fn emit_store(
    src: Key,
    dst: &ResourceId,
    map: &Vec<usize>,
    t: &Vec<(Key, Vec<Value>)>,
    out: &mut Vec<(ResourceId, Vec<Value>)>,
)
    ensures
        relation_tuples(final(out)@) == relation_tuples(old(out)@).union(
            stored_by(Node::StoreRelation { src, dst: *dst, map: *map }, node_tuples(t@)),
        ),
{
    let ghost n = Node::StoreRelation { src, dst: *dst, map: *map };
    let ghost tt = node_tuples(t@);
    let ghost start = relation_tuples(out@);
    let mut x: usize = 0;
    while x < t.len()
        invariant
            x <= t.len(),
            n == (Node::StoreRelation { src, dst: *dst, map: *map }),
            tt == node_tuples(t@),
            start.subset_of(relation_tuples(out@)),
            forall|q: (RelationModel, Seq<ValueModel>)|
                #[trigger] relation_tuples(out@).contains(q) ==> start.contains(q) || node_stores(
                    n,
                    tt,
                    q,
                ),
            forall|i: int|
                0 <= i < x && (#[trigger] t@[i]).0.id == src.id && map_fits(
                    map@,
                    t@[i].1@.len() as int,
                ) ==> relation_tuples(out@).contains(
                    (dst@, projected(tuple_view(t@[i].1@), map@)),
                ),
        decreases t.len() - x,
    {
        if t[x].0.id == src.id && fits(map, t[x].1.len()) {
            let row = project_values(&t[x].1, map);
            proof {
                let a = tuple_view(t@[x as int].1@);
                assert(row_of(t@[x as int]) == (src.id, a));
                assert(tt.contains((src.id, a)));
                assert(a.len() == t@[x as int].1@.len());
                assert(projects_from(src.id, map@, tt, tuple_view(row@)));
                assert(node_stores(n, tt, (dst@, tuple_view(row@))));
            }
            insert_fact(out, dst.duplicate(), row);
        }
        x = x + 1;
    }
    proof {
        let st = stored_by(n, tt);
        assert forall|q: (RelationModel, Seq<ValueModel>)|
            relation_tuples(out@).contains(q) == start.union(st).contains(q) by {
            if st.contains(q) {
                assert(projects_from(src.id, map@, tt, q.1));
                let a = choose|a: Seq<ValueModel>|
                    #![trigger tt.contains((src.id, a))]
                    tt.contains((src.id, a)) && map_fits(map@, a.len() as int) && q.1 == projected(
                        a,
                        map@,
                    );
                let i = choose|i: int| 0 <= i < t@.len() && (src.id, a) == row_of(t@[i]);
                assert(t@[i].0.id == src.id);
            }
        }
        assert(relation_tuples(out@) =~= start.union(st));
    }
}

/// An evaluation state: the output of every node and the contents of every
/// relation, each tuple listed at least once.
pub struct EvalState {
    pub tuples: Vec<(Key, Vec<Value>)>,
    pub relations: Vec<(ResourceId, Vec<Value>)>,
}

impl View for EvalState {
    type V = EvalModel;

    open spec fn view(&self) -> EvalModel {
        EvalModel {
            tuples: node_tuples(self.tuples@),
            relations: relation_tuples(self.relations@),
        }
    }
}

/// The outcome of driving the rounds: the state reached, the number of
/// rounds run, and whether that state is a fixed point.
pub struct Evaluation {
    pub state: EvalState,
    pub rounds: usize,
    pub converged: bool,
}

/// Adds to `out` what node `n`, under key `k`, emits in one round.
fn emit_node(
    n: &Node,
    k: Key,
    t: &Vec<(Key, Vec<Value>)>,
    r: &Vec<(ResourceId, Vec<Value>)>,
    out: &mut Vec<(Key, Vec<Value>)>,
)
    ensures
        node_tuples(final(out)@) == node_tuples(old(out)@).union(
            emitted(*n, k.id, node_tuples(t@), relation_tuples(r@)),
        ),
{
    match n {
        Node::Join { lhs, rhs, num } => emit_join(k, *lhs, *rhs, *num, t, r, out),
        Node::Project { src, map } => emit_project(k, *src, map, t, r, out),
        Node::LoadRelation { resource } => emit_load(k, resource, t, r, out),
        Node::StoreRelation { .. } => {
            proof {
                let em = emitted(*n, k.id, node_tuples(t@), relation_tuples(r@));
                assert(em =~= Set::empty());
                assert(node_tuples(out@).union(em) =~= node_tuples(out@));
            }
        },
    }
}

/// Adds to `out` what node `n` stores, given the new node tuples `t`.
fn store_node(n: &Node, t: &Vec<(Key, Vec<Value>)>, out: &mut Vec<(ResourceId, Vec<Value>)>)
    ensures
        relation_tuples(final(out)@) == relation_tuples(old(out)@).union(
            stored_by(*n, node_tuples(t@)),
        ),
{
    match n {
        Node::StoreRelation { src, dst, map } => emit_store(*src, dst, map, t, out),
        _ => {
            proof {
                let st = stored_by(*n, node_tuples(t@));
                assert(st =~= Set::empty());
                assert(relation_tuples(out@).union(st) =~= relation_tuples(out@));
            }
        },
    }
}

/// A copy of a list of relation tuples.
pub fn copy_facts(v: &Vec<(ResourceId, Vec<Value>)>) -> (r: Vec<(ResourceId, Vec<Value>)>)
    ensures
        relation_tuples(r@) == relation_tuples(v@),
{
    let mut out: Vec<(ResourceId, Vec<Value>)> = Vec::new();
    let mut i: usize = 0;
    while i < v.len()
        invariant
            i <= v.len(),
            out@.len() == i,
            forall|j: int| 0 <= j < i ==> fact_of(#[trigger] out@[j]) == fact_of(v@[j]),
        decreases v.len() - i,
    {
        out.push((v[i].0.duplicate(), copy_values(v[i].1.as_slice())));
        i = i + 1;
    }
    proof {
        assert forall|q: (RelationModel, Seq<ValueModel>)|
            relation_tuples(out@).contains(q) == relation_tuples(v@).contains(q) by {
            if relation_tuples(out@).contains(q) {
                let j = choose|j: int| 0 <= j < out@.len() && q == fact_of(out@[j]);
                assert(q == fact_of(v@[j]));
            }
            if relation_tuples(v@).contains(q) {
                let j = choose|j: int| 0 <= j < v@.len() && q == fact_of(v@[j]);
                assert(q == fact_of(out@[j]));
            }
        }
        assert(relation_tuples(out@) =~= relation_tuples(v@));
    }
    out
}

/// What the first `i` nodes of `g` emit in one round from `s`.
pub open spec fn emitted_upto(g: Seq<(Key, Node)>, s: EvalModel, i: int) -> NodeTuples {
    Set::new(
        |p: (u64, Seq<ValueModel>)|
            exists|j: int|
                0 <= j < i && #[trigger] node_emits(g[j].1, g[j].0.id, s.tuples, s.relations, p),
    )
}

/// What the first `i` nodes of `g` store from the node tuples `t`.
pub open spec fn stored_upto(g: Seq<(Key, Node)>, t: NodeTuples, i: int) -> RelationTuples {
    Set::new(
        |q: (RelationModel, Seq<ValueModel>)|
            exists|j: int| 0 <= j < i && #[trigger] node_stores(g[j].1, t, q),
    )
}

/// Runs one evaluation round over the graph `g` with the external facts `facts`.
pub fn round(g: &Vec<(Key, Node)>, facts: &Vec<(ResourceId, Vec<Value>)>, s: &EvalState) -> (r:
    EvalState)
    ensures
        r@ == step(g@, relation_tuples(facts@), s@),
{
    let ghost m = s@;
    let mut tuples: Vec<(Key, Vec<Value>)> = Vec::new();
    let mut i: usize = 0;
    proof {
        assert(node_tuples(tuples@) =~= emitted_upto(g@, m, 0));
    }
    while i < g.len()
        invariant
            i <= g.len(),
            m == s@,
            node_tuples(tuples@) == emitted_upto(g@, m, i as int),
        decreases g.len() - i,
    {
        emit_node(&g[i].1, g[i].0, &s.tuples, &s.relations, &mut tuples);
        proof {
            let gi = g@[i as int];
            assert forall|p: (u64, Seq<ValueModel>)|
                emitted_upto(g@, m, i + 1).contains(p) == emitted_upto(g@, m, i as int).union(
                    emitted(gi.1, gi.0.id, m.tuples, m.relations),
                ).contains(p) by {
                if emitted_upto(g@, m, i + 1).contains(p) {
                    let j = choose|j: int|
                        0 <= j < i + 1 && #[trigger] node_emits(
                            g@[j].1,
                            g@[j].0.id,
                            m.tuples,
                            m.relations,
                            p,
                        );
                    if j < i {
                        assert(emitted_upto(g@, m, i as int).contains(p));
                    }
                }
                if emitted_upto(g@, m, i as int).contains(p) {
                    let j = choose|j: int|
                        0 <= j < i && #[trigger] node_emits(
                            g@[j].1,
                            g@[j].0.id,
                            m.tuples,
                            m.relations,
                            p,
                        );
                    assert(0 <= j < i + 1);
                }
            }
            assert(emitted_upto(g@, m, i + 1) =~= emitted_upto(g@, m, i as int).union(
                emitted(gi.1, gi.0.id, m.tuples, m.relations),
            ));
        }
        i = i + 1;
    }
    proof {
        assert(emitted_upto(g@, m, g@.len() as int) =~= next_tuples(g@, m));
    }
    let ghost nt = node_tuples(tuples@);
    let mut relations = copy_facts(facts);
    let ghost f = relation_tuples(facts@);
    let mut i: usize = 0;
    proof {
        assert(f.union(stored_upto(g@, nt, 0)) =~= f);
    }
    while i < g.len()
        invariant
            i <= g.len(),
            nt == node_tuples(tuples@),
            f == relation_tuples(facts@),
            relation_tuples(relations@) == f.union(stored_upto(g@, nt, i as int)),
        decreases g.len() - i,
    {
        store_node(&g[i].1, &tuples, &mut relations);
        proof {
            let gi = g@[i as int];
            assert forall|q: (RelationModel, Seq<ValueModel>)|
                stored_upto(g@, nt, i + 1).contains(q) == stored_upto(g@, nt, i as int).union(
                    stored_by(gi.1, nt),
                ).contains(q) by {
                if stored_upto(g@, nt, i + 1).contains(q) {
                    let j = choose|j: int|
                        0 <= j < i + 1 && #[trigger] node_stores(g@[j].1, nt, q);
                    if j < i {
                        assert(stored_upto(g@, nt, i as int).contains(q));
                    }
                }
                if stored_upto(g@, nt, i as int).contains(q) {
                    let j = choose|j: int| 0 <= j < i && #[trigger] node_stores(g@[j].1, nt, q);
                    assert(0 <= j < i + 1);
                }
            }
            assert(stored_upto(g@, nt, i + 1) =~= stored_upto(g@, nt, i as int).union(
                stored_by(gi.1, nt),
            ));
            assert(f.union(stored_upto(g@, nt, i + 1)) =~= f.union(
                stored_upto(g@, nt, i as int),
            ).union(stored_by(gi.1, nt)));
        }
        i = i + 1;
    }
    proof {
        assert(stored_upto(g@, nt, g@.len() as int) =~= stored(g@, nt));
    }
    EvalState { tuples, relations }
}

/// Whether every tuple of `a` is in `b`.
fn tuples_subset(a: &Vec<(Key, Vec<Value>)>, b: &Vec<(Key, Vec<Value>)>) -> (r: bool)
    ensures
        r == node_tuples(a@).subset_of(node_tuples(b@)),
{
    let mut i: usize = 0;
    while i < a.len()
        invariant
            i <= a.len(),
            forall|j: int| 0 <= j < i ==> node_tuples(b@).contains(row_of(#[trigger] a@[j])),
        decreases a.len() - i,
    {
        if !contains_tuple(b, a[i].0, &a[i].1) {
            proof {
                assert(node_tuples(a@).contains(row_of(a@[i as int])));
            }
            return false;
        }
        i = i + 1;
    }
    proof {
        assert forall|p: (u64, Seq<ValueModel>)|
            node_tuples(a@).contains(p) implies node_tuples(b@).contains(p) by {
            let j = choose|j: int| 0 <= j < a@.len() && p == row_of(a@[j]);
        }
    }
    true
}

/// Whether every relation tuple of `a` is in `b`.
fn facts_subset(a: &Vec<(ResourceId, Vec<Value>)>, b: &Vec<(ResourceId, Vec<Value>)>) -> (r: bool)
    ensures
        r == relation_tuples(a@).subset_of(relation_tuples(b@)),
{
    let mut i: usize = 0;
    while i < a.len()
        invariant
            i <= a.len(),
            forall|j: int|
                0 <= j < i ==> relation_tuples(b@).contains(fact_of(#[trigger] a@[j])),
        decreases a.len() - i,
    {
        if !contains_fact(b, &a[i].0, &a[i].1) {
            proof {
                assert(relation_tuples(a@).contains(fact_of(a@[i as int])));
            }
            return false;
        }
        i = i + 1;
    }
    proof {
        assert forall|q: (RelationModel, Seq<ValueModel>)|
            relation_tuples(a@).contains(q) implies relation_tuples(b@).contains(q) by {
            let j = choose|j: int| 0 <= j < a@.len() && q == fact_of(a@[j]);
        }
    }
    true
}

impl EvalState {
    /// The state before the first round: no node output, and the external facts.
    pub fn new(facts: &Vec<(ResourceId, Vec<Value>)>) -> (r: EvalState)
        ensures
            r@ == initial(relation_tuples(facts@)),
    {
        let tuples: Vec<(Key, Vec<Value>)> = Vec::new();
        proof {
            assert(node_tuples(tuples@) =~= Set::empty());
        }
        EvalState { tuples, relations: copy_facts(facts) }
    }

    /// Whether two states hold the same node outputs and relation contents.
    pub fn same(&self, other: &EvalState) -> (r: bool)
        ensures
            r == (self@ == other@),
    {
        let r = tuples_subset(&self.tuples, &other.tuples) && tuples_subset(
            &other.tuples,
            &self.tuples,
        ) && facts_subset(&self.relations, &other.relations) && facts_subset(
            &other.relations,
            &self.relations,
        );
        proof {
            if r {
                assert(self@.tuples =~= other@.tuples);
                assert(self@.relations =~= other@.relations);
            }
        }
        r
    }
}

/// Runs rounds from `start` until a round changes nothing, or until
/// `max_rounds` rounds have run.
pub fn evaluate_from(
    g: &Vec<(Key, Node)>,
    facts: &Vec<(ResourceId, Vec<Value>)>,
    start: EvalState,
    max_rounds: usize,
) -> (r: Evaluation)
    ensures
        r.state@ == run(g@, relation_tuples(facts@), start@, r.rounds as nat),
        r.rounds <= max_rounds,
        r.converged ==> is_fixed_point(g@, relation_tuples(facts@), r.state@),
        !r.converged ==> r.rounds == max_rounds,
{
    let ghost f = relation_tuples(facts@);
    let ghost s0 = start@;
    let mut state = start;
    let mut rounds: usize = 0;
    while rounds < max_rounds
        invariant
            rounds <= max_rounds,
            f == relation_tuples(facts@),
            s0 == start@,
            state@ == run(g@, f, s0, rounds as nat),
        decreases max_rounds - rounds,
    {
        let next = round(g, facts, &state);
        if next.same(&state) {
            return Evaluation { state, rounds, converged: true };
        }
        state = next;
        rounds = rounds + 1;
    }
    Evaluation { state, rounds, converged: false }
}

/// Evaluates the graph `g` over the external facts `facts` from the start,
/// for at most `max_rounds` rounds.
pub fn evaluate(
    g: &Vec<(Key, Node)>,
    facts: &Vec<(ResourceId, Vec<Value>)>,
    max_rounds: usize,
) -> (r: Evaluation)
    ensures
        r.state@ == iterate(g@, relation_tuples(facts@), r.rounds as nat),
        r.rounds <= max_rounds,
        r.converged ==> is_fixed_point(g@, relation_tuples(facts@), r.state@),
        !r.converged ==> r.rounds == max_rounds,
{
    evaluate_from(g, facts, EvalState::new(facts), max_rounds)
}

/// Once a fixed point is reached, further rounds change nothing: running
/// any number of rounds from a fixed point gives that same state back.
pub proof fn fixed_point_is_stable(g: Seq<(Key, Node)>, f: RelationTuples, s: EvalModel, n: nat)
    requires
        is_fixed_point(g, f, s),
    ensures
        run(g, f, s, n) == s,
    decreases n,
{
    if n > 0 {
        fixed_point_is_stable(g, f, s, (n - 1) as nat);
    }
}

/// Rounds compose: `m` rounds after `n` rounds are `n + m` rounds.
pub proof fn rounds_compose(g: Seq<(Key, Node)>, f: RelationTuples, s: EvalModel, n: nat, m: nat)
    ensures
        run(g, f, run(g, f, s, n), m) == run(g, f, s, n + m),
    decreases m,
{
    if m > 0 {
        rounds_compose(g, f, s, n, (m - 1) as nat);
    }
}

/// Once the rounds from the start reach a fixed point, every later round
/// gives that same state.
pub proof fn converged_evaluation_is_final(g: Seq<(Key, Node)>, f: RelationTuples, n: nat, m: nat)
    requires
        is_fixed_point(g, f, iterate(g, f, n)),
        n <= m,
    ensures
        iterate(g, f, m) == iterate(g, f, n),
{
    rounds_compose(g, f, initial(f), n, (m - n) as nat);
    fixed_point_is_stable(g, f, iterate(g, f, n), (m - n) as nat);
}

/// A join of two node outputs that hold one tuple each emits exactly one
/// tuple when their first `num` terms agree, the shared prefix followed by
/// both trails, and nothing when they differ.
pub proof fn join_of_two_tuples(
    lhs: u64,
    rhs: u64,
    num: int,
    a: Seq<ValueModel>,
    b: Seq<ValueModel>,
    c: Seq<ValueModel>,
)
    requires
        lhs != rhs,
        0 <= num,
    ensures
        join_emits(lhs, rhs, num, set![(lhs, a), (rhs, b)], c) <==> (prefix_match(a, b, num) && c
            == a.take(num) + a.skip(num) + b.skip(num)),
        prefix_match(a, b, num) ==> joined(a, b, num).len() == a.len() + b.len() - num,
{
    let t = set![(lhs, a), (rhs, b)];
    if join_emits(lhs, rhs, num, t, c) {
        let (x, y) = choose|x: Seq<ValueModel>, y: Seq<ValueModel>|
            #![trigger t.contains((lhs, x)), t.contains((rhs, y))]
            t.contains((lhs, x)) && t.contains((rhs, y)) && prefix_match(x, y, num) && c == joined(
                x,
                y,
                num,
            );
        assert(x == a);
        assert(y == b);
    }
    if prefix_match(a, b, num) && c == a.take(num) + a.skip(num) + b.skip(num) {
        assert(t.contains((lhs, a)));
        assert(t.contains((rhs, b)));
    }
}

/// Whether no two nodes of the graph share a key.
pub open spec fn unique_keys(g: Seq<(Key, Node)>) -> bool {
    forall|i: int, j: int| 0 <= i < j < g.len() ==> (#[trigger] g[i]).0.id != (#[trigger] g[j]).0.id
}

/// At a fixed point of a graph whose keys are distinct, a join node holds
/// exactly the joined tuples of its inputs: for each left tuple and right
/// tuple whose first `num` terms agree, the shared prefix followed by both
/// trails, and nothing from a pair whose prefixes differ.
pub proof fn join_output_at_fixed_point(
    g: Seq<(Key, Node)>,
    f: RelationTuples,
    s: EvalModel,
    i: int,
    c: Seq<ValueModel>,
)
    requires
        is_fixed_point(g, f, s),
        unique_keys(g),
        0 <= i < g.len(),
        g[i].1 is Join,
    ensures
        s.tuples.contains((g[i].0.id, c)) <==> join_emits(
            g[i].1->Join_lhs.id,
            g[i].1->Join_rhs.id,
            g[i].1->Join_num as int,
            s.tuples,
            c,
        ),
{
    let k = g[i].0.id;
    assert(s.tuples == next_tuples(g, s));
    if s.tuples.contains((k, c)) {
        let j = choose|j: int| 0 <= j < g.len() && #[trigger] node_emits(g[j].1, g[j].0.id, s.tuples, s.relations, (k, c));
        if j != i {
            if j < i {
                assert(g[j].0.id != g[i].0.id);
            } else {
                assert(g[i].0.id != g[j].0.id);
            }
        }
    }
    if join_emits(g[i].1->Join_lhs.id, g[i].1->Join_rhs.id, g[i].1->Join_num as int, s.tuples, c) {
        assert(node_emits(g[i].1, g[i].0.id, s.tuples, s.relations, (k, c)));
    }
}

} // verus!
