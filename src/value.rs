//! Primitive values, their types, and tuples of values.

use vstd::prelude::*;

verus! {

/// The mathematical model of a [`Value`].
pub enum ValueModel {
    Symbol(Seq<char>),
    Integer(int),
}

/// A primitive datum: a symbol or a signed 64-bit integer.
#[derive(Clone, Debug, Hash, PartialOrd, Ord)]
pub enum Value {
    Symbol(String),
    Integer(i64),
}

/// The type of a primitive datum.
#[derive(Copy, Clone, Debug, PartialEq, Eq, Structural, PartialOrd, Ord, Hash)]
pub enum PrimitiveType {
    Symbol,
    Integer,
}

impl View for Value {
    type V = ValueModel;

    open spec fn view(&self) -> ValueModel {
        match self {
            Value::Symbol(s) => ValueModel::Symbol(s@),
            Value::Integer(i) => ValueModel::Integer(*i as int),
        }
    }
}

/// The type of a modelled value.
pub open spec fn type_of(v: ValueModel) -> PrimitiveType {
    match v {
        ValueModel::Symbol(_) => PrimitiveType::Symbol,
        ValueModel::Integer(_) => PrimitiveType::Integer,
    }
}

/// The model of a tuple of values.
pub open spec fn tuple_view(t: Seq<Value>) -> Seq<ValueModel> {
    t.map_values(|v: Value| v@)
}

impl Value {
    /// The primitive type of this value.
    pub fn ty(&self) -> (r: PrimitiveType)
        ensures
            r == type_of(self@),
    {
        match self {
            Value::Symbol(_) => PrimitiveType::Symbol,
            Value::Integer(_) => PrimitiveType::Integer,
        }
    }

    /// Compares two values by content.
    pub fn same(&self, other: &Value) -> (r: bool)
        ensures
            r == (self@ == other@),
    {
        match self {
            Value::Symbol(a) => match other {
                Value::Symbol(b) => (*a).eq(b),
                Value::Integer(_) => false,
            },
            Value::Integer(a) => match other {
                Value::Integer(b) => *a == *b,
                Value::Symbol(_) => false,
            },
        }
    }

    /// A copy of this value.
    pub fn duplicate(&self) -> (r: Value)
        ensures
            r@ == self@,
    {
        match self {
            Value::Symbol(s) => Value::Symbol(s.clone()),
            Value::Integer(i) => Value::Integer(*i),
        }
    }
}

impl PartialEq for Value {
    fn eq(&self, other: &Value) -> (r: bool) {
        self.same(other)
    }
}

impl vstd::std_specs::cmp::PartialEqSpecImpl for Value {
    open spec fn obeys_eq_spec() -> bool {
        true
    }

    open spec fn eq_spec(&self, other: &Value) -> bool {
        self@ == other@
    }
}

impl Eq for Value {
}

/// Compares two tuples element by element.
pub fn tuple_eq(a: &[Value], b: &[Value]) -> (r: bool)
    ensures
        r == (tuple_view(a@) == tuple_view(b@)),
{
    if a.len() != b.len() {
        proof {
            assert(tuple_view(a@).len() != tuple_view(b@).len());
        }
        return false;
    }
    let mut i: usize = 0;
    while i < a.len()
        invariant
            a.len() == b.len(),
            i <= a.len(),
            forall|j: int| 0 <= j < i ==> a@[j]@ == b@[j]@,
        decreases a.len() - i,
    {
        if !a[i].same(&b[i]) {
            proof {
                assert(tuple_view(a@)[i as int] != tuple_view(b@)[i as int]);
            }
            return false;
        }
        i = i + 1;
    }
    proof {
        assert(tuple_view(a@) =~= tuple_view(b@));
    }
    true
}

/// Appends a copy of the values of `a` from `lo` up to `hi` to `out`.
pub fn extend_values(out: &mut Vec<Value>, a: &[Value], lo: usize, hi: usize)
    requires
        lo <= hi <= a.len(),
    ensures
        tuple_view(final(out)@) == tuple_view(old(out)@) + tuple_view(a@.subrange(
            lo as int,
            hi as int,
        )),
{
    let ghost start = tuple_view(out@);
    let mut i: usize = lo;
    while i < hi
        invariant
            lo <= i <= hi <= a.len(),
            tuple_view(out@) =~= start + tuple_view(a@.subrange(lo as int, i as int)),
        decreases hi - i,
    {
        let v = a[i].duplicate();
        proof {
            assert(a@.subrange(lo as int, i + 1) =~= a@.subrange(lo as int, i as int).push(
                a@[i as int],
            ));
            assert(tuple_view(out@.push(v)) =~= tuple_view(out@).push(v@));
            assert(tuple_view(a@.subrange(lo as int, i + 1)) =~= tuple_view(
                a@.subrange(lo as int, i as int),
            ).push(a@[i as int]@));
        }
        out.push(v);
        i = i + 1;
    }
}

/// A copy of a run of values.
pub fn copy_values(a: &[Value]) -> (r: Vec<Value>)
    ensures
        tuple_view(r@) == tuple_view(a@),
        r@.len() == a@.len(),
{
    let mut r: Vec<Value> = Vec::new();
    extend_values(&mut r, a, 0, a.len());
    proof {
        assert(a@.subrange(0, a@.len() as int) =~= a@);
        assert(tuple_view(Seq::<Value>::empty()) =~= Seq::<ValueModel>::empty());
        assert(tuple_view(r@) =~= tuple_view(a@));
        assert(tuple_view(r@).len() == r@.len());
    }
    r
}

} // verus!
