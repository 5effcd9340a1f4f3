//! The relational node graph: relation identities, content-derived node keys,
//! the operators, and what each operator does to one tuple.

use vstd::prelude::*;
use crate::value::{tuple_view, Value, ValueModel, extend_values};

verus! {

/// The identity of a named, persistent relation: the document that declares
/// it and its name there.
#[derive(Clone, Debug, Hash, PartialOrd, Ord)]
pub enum ResourceId {
    SourceSymbol(String, String),
}

impl View for ResourceId {
    type V = (Seq<char>, Seq<char>);

    open spec fn view(&self) -> (Seq<char>, Seq<char>) {
        match self {
            ResourceId::SourceSymbol(doc, name) => (doc@, name@),
        }
    }
}

impl ResourceId {
    /// Compares two relation identities by content.
    pub fn same(&self, other: &ResourceId) -> (r: bool)
        ensures
            r == (self@ == other@),
    {
        match self {
            ResourceId::SourceSymbol(d1, n1) => match other {
                ResourceId::SourceSymbol(d2, n2) => (*d1).eq(d2) && (*n1).eq(n2),
            },
        }
    }

    /// A copy of this identity.
    pub fn duplicate(&self) -> (r: ResourceId)
        ensures
            r@ == self@,
    {
        match self {
            ResourceId::SourceSymbol(d, n) => ResourceId::SourceSymbol(d.clone(), n.clone()),
        }
    }
}

impl PartialEq for ResourceId {
    fn eq(&self, other: &ResourceId) -> (r: bool) {
        self.same(other)
    }
}

impl vstd::std_specs::cmp::PartialEqSpecImpl for ResourceId {
    open spec fn obeys_eq_spec() -> bool {
        true
    }

    open spec fn eq_spec(&self, other: &ResourceId) -> bool {
        self@ == other@
    }
}

impl Eq for ResourceId {
}

/// A content-derived key that addresses a node of the graph.
#[derive(Copy, Clone, Debug, PartialEq, Eq, Structural, PartialOrd, Ord, Hash)]
pub struct Key {
    pub id: u64,
}

/// One relational operator of a compiled rule.
#[derive(Clone, Debug, Hash)]
pub enum Node {
    /// Joins the outputs of `lhs` and `rhs` on their first `num` terms.
    Join { lhs: Key, rhs: Key, num: usize },
    /// Rearranges the terms of `src` by a list of indices.
    Project { src: Key, map: Vec<usize> },
    /// Reads the facts of a relation.
    LoadRelation { resource: ResourceId },
    /// Writes the terms of `src`, rearranged by `map`, into the relation `dst`.
    StoreRelation { src: Key, dst: ResourceId, map: Vec<usize> },
}

/// The model of a node.
pub enum NodeModel {
    Join { lhs: u64, rhs: u64, num: usize },
    Project { src: u64, map: Seq<usize> },
    LoadRelation { resource: (Seq<char>, Seq<char>) },
    StoreRelation { src: u64, dst: (Seq<char>, Seq<char>), map: Seq<usize> },
}

impl View for Node {
    type V = NodeModel;

    open spec fn view(&self) -> NodeModel {
        match self {
            Node::Join { lhs, rhs, num } => NodeModel::Join { lhs: lhs.id, rhs: rhs.id, num: *num },
            Node::Project { src, map } => NodeModel::Project { src: src.id, map: map@ },
            Node::LoadRelation { resource } => NodeModel::LoadRelation { resource: resource@ },
            Node::StoreRelation { src, dst, map } => NodeModel::StoreRelation {
                src: src.id,
                dst: dst@,
                map: map@,
            },
        }
    }
}

/// The key that hashing gives a node.
pub uninterp spec fn node_hash(n: NodeModel) -> u64;

/// Relies on differential_dataflow's `Hashable::hashed`, an FNV hash of the
/// node's derived `Hash`, which reads the node's contents only: within one
/// build, the same node gives the same key.
#[verifier::external_body]
fn hashed_node(n: &Node) -> (r: u64)
    ensures
        r == node_hash(n@),
{
    differential_dataflow::Hashable::hashed(n)
}

impl Key {
    /// The key of a node, derived from its contents.
    pub fn new(data: &Node) -> (r: Key)
        ensures
            r.id == node_hash(data@),
    {
        Key { id: hashed_node(data) }
    }

    /// A node together with its key.
    pub fn pair(data: Node) -> (r: (Key, Node))
        ensures
            r.0.id == node_hash(data@),
            r.1 == data,
    {
        (Key::new(&data), data)
    }
}

/// The first part of a pair.
pub fn key<K, V>(pair: (K, V)) -> (r: K)
    ensures
        r == pair.0,
{
    pair.0
}

/// The second part of a pair.
pub fn value<K, V>(pair: (K, V)) -> (r: V)
    ensures
        r == pair.1,
{
    pair.1
}

/// The two parts of a pair, exchanged.
pub fn swap<K, V>(pair: (K, V)) -> (r: (V, K))
    ensures
        r.0 == pair.1,
        r.1 == pair.0,
{
    (pair.1, pair.0)
}

impl Node {
    /// The left input of a join, with the join's width.
    pub fn join_lhs(self) -> (r: Option<(Key, usize)>)
        ensures
            r == (match self {
                Node::Join { lhs, num, .. } => Some((lhs, num)),
                _ => None,
            }),
    {
        match self {
            Node::Join { lhs, num, .. } => Some((lhs, num)),
            _ => None,
        }
    }

    /// The right input of a join, with the join's width.
    pub fn join_rhs(self) -> (r: Option<(Key, usize)>)
        ensures
            r == (match self {
                Node::Join { rhs, num, .. } => Some((rhs, num)),
                _ => None,
            }),
    {
        match self {
            Node::Join { rhs, num, .. } => Some((rhs, num)),
            _ => None,
        }
    }

    /// The input of a projection.
    pub fn project_src(self) -> (r: Option<Key>)
        ensures
            r == (match self {
                Node::Project { src, .. } => Some(src),
                _ => None,
            }),
    {
        match self {
            Node::Project { src, .. } => Some(src),
            _ => None,
        }
    }

    /// The index list of a projection.
    pub fn project_map(self) -> (r: Option<Vec<usize>>)
        ensures
            r == (match self {
                Node::Project { map, .. } => Some(map),
                _ => None,
            }),
    {
        match self {
            Node::Project { map, .. } => Some(map),
            _ => None,
        }
    }

    /// The relation that a load reads.
    pub fn load_relation(self) -> (r: Option<ResourceId>)
        ensures
            r == (match self {
                Node::LoadRelation { resource } => Some(resource),
                _ => None,
            }),
    {
        match self {
            Node::LoadRelation { resource } => Some(resource),
            _ => None,
        }
    }

    /// The input, target relation and index list of a store.
    pub fn store_relation(self) -> (r: Option<(Key, (ResourceId, Vec<usize>))>)
        ensures
            r == (match self {
                Node::StoreRelation { src, dst, map } => Some((src, (dst, map))),
                _ => None,
            }),
    {
        match self {
            Node::StoreRelation { src, dst, map } => Some((src, (dst, map))),
            _ => None,
        }
    }
}

/// The tuple that a join emits for a left tuple `a` and a right tuple `b`
/// that agree on their first `num` terms: the shared prefix, then the rest
/// of `a`, then the rest of `b`.
pub open spec fn joined(a: Seq<ValueModel>, b: Seq<ValueModel>, num: int) -> Seq<ValueModel> {
    a.take(num) + a.skip(num) + b.skip(num)
}

/// Whether the first `num` terms of two tuples agree.
pub open spec fn prefix_match(a: Seq<ValueModel>, b: Seq<ValueModel>, num: int) -> bool {
    num <= a.len() && num <= b.len() && a.take(num) == b.take(num)
}

/// The tuple that picks, for each index of `map`, that term of `t`.
pub open spec fn projected(t: Seq<ValueModel>, map: Seq<usize>) -> Seq<ValueModel> {
    Seq::new(map.len(), |i: int| t[map[i] as int])
}

/// Whether every index of `map` lies inside a tuple of length `len`.
pub open spec fn map_fits(map: Seq<usize>, len: int) -> bool {
    forall|i: int| 0 <= i < map.len() ==> (map[i] as int) < len
}

/// Splits a tuple addressed to a join into its join prefix and its trail.
pub fn join_slice(input: ((Key, usize), Vec<Value>)) -> (r: ((Key, Vec<Value>), Vec<Value>))
    requires
        input.0.1 <= input.1.len(),
    ensures
        r.0.0 == input.0.0,
        tuple_view(r.0.1@) == tuple_view(input.1@).take(input.0.1 as int),
        tuple_view(r.1@) == tuple_view(input.1@).skip(input.0.1 as int),
{
    let ((dst, num), vals) = input;
    let mut prefix: Vec<Value> = Vec::new();
    let mut trail: Vec<Value> = Vec::new();
    extend_values(&mut prefix, vals.as_slice(), 0, num);
    extend_values(&mut trail, vals.as_slice(), num, vals.len());
    proof {
        assert(tuple_view(Seq::<Value>::empty()) =~= Seq::<ValueModel>::empty());
        assert(tuple_view(vals@.subrange(0, num as int)) =~= tuple_view(vals@).take(num as int));
        assert(tuple_view(vals@.subrange(num as int, vals@.len() as int)) =~= tuple_view(
            vals@,
        ).skip(num as int));
    }
    ((dst, prefix), trail)
}

/// Concatenates a join prefix with the trails of the two joined tuples.
pub fn join(input: ((Key, Vec<Value>), (Vec<Value>, Vec<Value>))) -> (r: (Key, Vec<Value>))
    ensures
        r.0 == input.0.0,
        tuple_view(r.1@) == tuple_view(input.0.1@) + tuple_view(input.1.0@) + tuple_view(
            input.1.1@,
        ),
{
    let ((dst, prefix), (lhs, rhs)) = input;
    let mut out: Vec<Value> = Vec::new();
    extend_values(&mut out, prefix.as_slice(), 0, prefix.len());
    extend_values(&mut out, lhs.as_slice(), 0, lhs.len());
    extend_values(&mut out, rhs.as_slice(), 0, rhs.len());
    proof {
        assert(tuple_view(Seq::<Value>::empty()) =~= Seq::<ValueModel>::empty());
        assert(prefix@.subrange(0, prefix@.len() as int) =~= prefix@);
        assert(lhs@.subrange(0, lhs@.len() as int) =~= lhs@);
        assert(rhs@.subrange(0, rhs@.len() as int) =~= rhs@);
    }
    (dst, out)
}

/// Picks the terms of `src` named by `map`.
pub fn project_values(src: &Vec<Value>, map: &Vec<usize>) -> (r: Vec<Value>)
    requires
        map_fits(map@, src.len() as int),
    ensures
        tuple_view(r@) == projected(tuple_view(src@), map@),
{
    let mut out: Vec<Value> = Vec::new();
    let mut i: usize = 0;
    while i < map.len()
        invariant
            i <= map.len(),
            map_fits(map@, src.len() as int),
            tuple_view(out@) =~= projected(tuple_view(src@), map@.take(i as int)),
        decreases map.len() - i,
    {
        let v = src[map[i]].duplicate();
        proof {
            assert(tuple_view(out@.push(v)) =~= tuple_view(out@).push(v@));
            assert(projected(tuple_view(src@), map@.take(i + 1)) =~= projected(
                tuple_view(src@),
                map@.take(i as int),
            ).push(v@));
        }
        out.push(v);
        i = i + 1;
    }
    proof {
        assert(map@.take(map@.len() as int) =~= map@);
    }
    out
}

/// Rearranges a tuple addressed to a projection node.
pub fn project(input: (Key, (Vec<Value>, Vec<usize>))) -> (r: (Key, Vec<Value>))
    requires
        map_fits(input.1.1@, input.1.0.len() as int),
    ensures
        r.0 == input.0,
        tuple_view(r.1@) == projected(tuple_view(input.1.0@), input.1.1@),
{
    let (dst, (src, map)) = input;
    (dst, project_values(&src, &map))
}

/// Rearranges a tuple addressed to a store into the target relation's layout.
pub fn store(input: ((ResourceId, Vec<usize>), Vec<Value>)) -> (r: (ResourceId, Vec<Value>))
    requires
        map_fits(input.0.1@, input.1.len() as int),
    ensures
        r.0 == input.0.0,
        tuple_view(r.1@) == projected(tuple_view(input.1@), input.0.1@),
{
    let ((dst, map), vals) = input;
    (dst, project_values(&vals, &map))
}

} // verus!
