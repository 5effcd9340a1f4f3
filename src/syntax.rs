//! Spans, terms, patterns, diagnostics and type hints of the rule language.

use vstd::prelude::*;
use crate::value::{PrimitiveType, Value};

verus! {

/// A point in a source text.
#[derive(Copy, Clone, Debug, PartialEq, Eq, Structural, PartialOrd, Ord, Hash)]
pub struct Point {
    pub row: usize,
    pub col: usize,
}

/// A range of a source text.
#[derive(Copy, Clone, Debug, PartialEq, Eq, Structural, PartialOrd, Ord, Hash)]
pub struct Span {
    pub start: Point,
    pub end: Point,
}

/// A value together with the place in the source that it comes from.
#[derive(Copy, Clone, Debug, PartialEq, Eq, PartialOrd, Ord, Hash)]
pub struct Spanned<S, T> {
    pub span: S,
    pub inner: T,
}

impl<S, T> Spanned<S, Option<T>> {
    /// The spanned value inside, if there is one.
    pub fn flatten(self) -> (r: Option<Spanned<S, T>>)
        ensures
            r == (match self.inner {
                Some(inner) => Some(Spanned { span: self.span, inner }),
                None => None,
            }),
    {
        match self.inner {
            Some(inner) => Some(Spanned { span: self.span, inner }),
            None => None,
        }
    }
}

/// A term of a pattern: a variable or a value.
#[derive(Copy, Clone, Debug, PartialEq, Eq, PartialOrd, Ord, Hash)]
pub enum AnyTerm<T, V> {
    Variable(T),
    Value(V),
}

/// A term whose values are data.
pub type Term<T> = AnyTerm<T, Value>;

/// A term whose values are primitive types.
pub type TypeTerm<T> = AnyTerm<T, PrimitiveType>;

impl<V: Copy> AnyTerm<usize, V> {
    /// The value of this term; for a variable, what `lookup` holds for it, if anything.
    pub fn flat_quantify(self, lookup: &Vec<(usize, V)>) -> (r: Option<V>)
        ensures
            r == (match self {
                AnyTerm::Variable(var) => first_binding(lookup@, var),
                AnyTerm::Value(val) => Some(val),
            }),
    {
        match self {
            AnyTerm::Variable(var) => find_binding(lookup, &var),
            AnyTerm::Value(val) => Some(val),
        }
    }
}

/// What the first entry of `m` for `k` holds, if any.
pub open spec fn first_binding<T, V>(m: Seq<(T, V)>, k: T) -> Option<V>
    decreases m.len(),
{
    if m.len() == 0 {
        None
    } else if m[0].0 == k {
        Some(m[0].1)
    } else {
        first_binding(m.drop_first(), k)
    }
}

/// Looks up the first entry of `m` for `k`.
pub fn find_binding<V: Copy>(m: &Vec<(usize, V)>, k: &usize) -> (r: Option<V>)
    ensures
        r == first_binding(m@, *k),
{
    let mut i: usize = 0;
    proof {
        assert(m@.skip(0) =~= m@);
    }
    while i < m.len()
        invariant
            i <= m.len(),
            first_binding(m@, *k) == first_binding(m@.skip(i as int), *k),
        decreases m.len() - i,
    {
        proof {
            assert(m@.skip(i as int).drop_first() =~= m@.skip(i + 1));
        }
        if m[i].0 == *k {
            return Some(m[i].1);
        }
        i = i + 1;
    }
    None
}

/// A pattern: a single term, or a tuple of spanned terms.
#[derive(Clone, Debug, PartialEq, Eq, PartialOrd, Ord, Hash)]
pub enum Pattern<S, T> {
    Leaf(T),
    Tuple(Vec<Spanned<S, T>>),
}

/// A pattern with its span.
pub type SpannedPattern<S, T> = Spanned<S, Pattern<S, T>>;

/// A type: a pattern of primitive types.
pub type Type<S> = SpannedPattern<S, PrimitiveType>;

/// The model of a pattern.
pub enum PatternModel<S, T> {
    Leaf(T),
    Tuple(Seq<Spanned<S, T>>),
}

impl<S, T> View for Pattern<S, T> {
    type V = PatternModel<S, T>;

    open spec fn view(&self) -> PatternModel<S, T> {
        match self {
            Pattern::Leaf(t) => PatternModel::Leaf(*t),
            Pattern::Tuple(v) => PatternModel::Tuple(v@),
        }
    }
}

/// The shape of a type, with its spans left out.
pub enum Shape {
    Leaf(PrimitiveType),
    Tuple(Seq<PrimitiveType>),
}

/// The shape of a type.
pub open spec fn shape<S>(p: PatternModel<S, PrimitiveType>) -> Shape {
    match p {
        PatternModel::Leaf(t) => Shape::Leaf(t),
        PatternModel::Tuple(v) => Shape::Tuple(v.map_values(|e: Spanned<S, PrimitiveType>| e.inner)),
    }
}

/// Whether two types have the same shape, whatever their spans.
pub fn same_shape<S>(a: &Pattern<S, PrimitiveType>, b: &Pattern<S, PrimitiveType>) -> (r: bool)
    ensures
        r == (shape(a@) == shape(b@)),
{
    match a {
        Pattern::Leaf(x) => match b {
            Pattern::Leaf(y) => *x == *y,
            Pattern::Tuple(_) => false,
        },
        Pattern::Tuple(xs) => match b {
            Pattern::Leaf(_) => false,
            Pattern::Tuple(ys) => {
                if xs.len() != ys.len() {
                    proof {
                        assert(shape(a@)->Tuple_0.len() != shape(b@)->Tuple_0.len());
                    }
                    return false;
                }
                let mut i: usize = 0;
                while i < xs.len()
                    invariant
                        a@ == PatternModel::Tuple(xs@),
                        b@ == PatternModel::Tuple(ys@),
                        xs.len() == ys.len(),
                        i <= xs.len(),
                        forall|j: int| 0 <= j < i ==> xs@[j].inner == ys@[j].inner,
                    decreases xs.len() - i,
                {
                    if xs[i].inner != ys[i].inner {
                        proof {
                            assert(shape(a@)->Tuple_0[i as int] != shape(b@)->Tuple_0[i as int]);
                        }
                        return false;
                    }
                    i = i + 1;
                }
                proof {
                    assert(shape(a@)->Tuple_0 =~= shape(b@)->Tuple_0);
                }
                true
            },
        },
    }
}

/// A copy of a type.
pub fn copy_type<S: Copy>(t: &Type<S>) -> (r: Type<S>)
    ensures
        r.span == t.span,
        r.inner@ == t.inner@,
{
    let inner = match &t.inner {
        Pattern::Leaf(p) => Pattern::Leaf(*p),
        Pattern::Tuple(xs) => {
            let mut out: Vec<Spanned<S, PrimitiveType>> = Vec::new();
            let mut i: usize = 0;
            while i < xs.len()
                invariant
                    i <= xs.len(),
                    out@ =~= xs@.take(i as int),
                decreases xs.len() - i,
            {
                out.push(xs[i]);
                i = i + 1;
            }
            proof {
                assert(xs@.take(xs@.len() as int) =~= xs@);
            }
            Pattern::Tuple(out)
        },
    };
    Spanned { span: t.span, inner }
}

/// How serious a diagnostic is.
#[derive(Copy, Clone, Debug, PartialEq, Eq, Structural, PartialOrd, Ord, Hash)]
pub enum DiagnosticKind {
    Error,
    Warning,
    Info,
    Note,
}

/// A message about a place in the source, with labels on related places.
#[derive(Clone, Debug, PartialEq, Eq, PartialOrd, Ord, Hash)]
pub struct Diagnostic<S> {
    pub span: S,
    pub kind: DiagnosticKind,
    pub message: String,
    pub labels: Vec<Spanned<S, String>>,
}

impl<S> Diagnostic<S> {
    /// The same diagnostic at another span, without its labels.
    pub fn with_span<O>(self, span: O) -> (r: Diagnostic<O>)
        ensures
            r.span == span,
            r.kind == self.kind,
            r.message == self.message,
            r.labels@.len() == 0,
    {
        Diagnostic { span, kind: self.kind, message: self.message, labels: Vec::new() }
    }

    /// Every span that the diagnostic names: its own, then each label's.
    pub fn span_set(self) -> (r: Vec<S>)
        ensures
            r@.len() == self.labels@.len() + 1,
            r@[0] == self.span,
            forall|i: int| 0 <= i < self.labels@.len() ==> r@[i + 1] == self.labels@[i].span,
    {
        let Diagnostic { span, labels, .. } = self;
        let mut out: Vec<S> = Vec::new();
        out.push(span);
        let mut labels = labels;
        let ghost all = labels@;
        let mut rest: Vec<S> = Vec::new();
        while labels.len() > 0
            invariant
                labels@.len() + rest@.len() == all.len(),
                forall|i: int| 0 <= i < labels@.len() ==> labels@[i] == all[i],
                forall|i: int|
                    0 <= i < rest@.len() ==> rest@[i] == all[all.len() - 1 - i].span,
            decreases labels.len(),
        {
            let label = labels.pop().unwrap();
            rest.push(label.span);
        }
        while rest.len() > 0
            invariant
                out@.len() + rest@.len() == all.len() + 1,
                out@.len() >= 1,
                out@[0] == span,
                forall|i: int| 1 <= i < out@.len() ==> out@[i] == all[i - 1].span,
                forall|i: int|
                    0 <= i < rest@.len() ==> rest@[i] == all[all.len() - 1 - i].span,
            decreases rest.len(),
        {
            let s = rest.pop().unwrap();
            out.push(s);
        }
        out
    }
}

/// A type hint to show beside a variable.
#[derive(Clone, Debug, PartialEq, Eq, PartialOrd, Ord, Hash)]
pub struct InlayHint<S> {
    pub span: S,
    pub contents: String,
}

impl<S> InlayHint<S> {
    /// The same hint at another span.
    pub fn with_span<O>(self, span: O) -> (r: InlayHint<O>)
        ensures
            r.span == span,
            r.contents == self.contents,
    {
        InlayHint { span, contents: self.contents }
    }
}

impl<S, T> Spanned<S, T> {
    /// The same span with the value passed through `cb`.
    pub fn map<O, F: FnOnce(T) -> O>(self, cb: F) -> (r: Spanned<S, O>)
        requires
            cb.requires((self.inner,)),
        ensures
            r.span == self.span,
            cb.ensures((self.inner,), r.inner),
    {
        Spanned { span: self.span, inner: cb(self.inner) }
    }
}

impl<T, V> AnyTerm<T, V> {
    /// Passes a variable through `cb`, which may fail; values stay.
    pub fn flat_map_variable<O, F: Fn(T) -> Option<O>>(self, cb: &F) -> (r: Option<AnyTerm<O, V>>)
        requires
            forall|t: T| cb.requires((t,)),
        ensures
            match self {
                AnyTerm::Variable(t) => match r {
                    Some(AnyTerm::Variable(o)) => cb.ensures((t,), Some(o)),
                    Some(AnyTerm::Value(_)) => false,
                    None => cb.ensures((t,), None::<O>),
                },
                AnyTerm::Value(v) => r == Some(AnyTerm::<O, V>::Value(v)),
            },
    {
        match self {
            AnyTerm::Variable(t) => match cb(t) {
                Some(o) => Some(AnyTerm::Variable(o)),
                None => None,
            },
            AnyTerm::Value(v) => Some(AnyTerm::Value(v)),
        }
    }

    /// Passes a variable through `cb`; values stay.
    pub fn map_variable<O, F: Fn(T) -> O>(self, cb: &F) -> (r: AnyTerm<O, V>)
        requires
            forall|t: T| cb.requires((t,)),
        ensures
            match self {
                AnyTerm::Variable(t) => r is Variable && cb.ensures((t,), r->Variable_0),
                AnyTerm::Value(v) => r == AnyTerm::<O, V>::Value(v),
            },
    {
        match self {
            AnyTerm::Variable(t) => AnyTerm::Variable(cb(t)),
            AnyTerm::Value(v) => AnyTerm::Value(v),
        }
    }

    /// The value of this term; a variable's value is what `cb` gives for it.
    pub fn quantify<F: Fn(T) -> V>(self, cb: &F) -> (r: V)
        requires
            forall|t: T| cb.requires((t,)),
        ensures
            match self {
                AnyTerm::Variable(t) => cb.ensures((t,), r),
                AnyTerm::Value(v) => r == v,
            },
    {
        match self {
            AnyTerm::Variable(t) => cb(t),
            AnyTerm::Value(v) => v,
        }
    }
}

/// Passes each element of a spanned list through `cb`, with its span.
pub fn map_elements<S: Copy, T, O, F: Fn(S, T) -> O>(v: Vec<Spanned<S, T>>, cb: &F) -> (r: Vec<
    Spanned<S, O>,
>)
    requires
        forall|s: S, t: T| cb.requires((s, t)),
    ensures
        r@.len() == v@.len(),
        forall|i: int|
            0 <= i < v@.len() ==> r@[i].span == v@[i].span && cb.ensures(
                (v@[i].span, v@[i].inner),
                (#[trigger] r@[i]).inner,
            ),
{
    let ghost all = v@;
    let mut rest = crate::infer::reversed(v);
    let mut out: Vec<Spanned<S, O>> = Vec::new();
    while rest.len() > 0
        invariant
            forall|s: S, t: T| cb.requires((s, t)),
            out@.len() + rest@.len() == all.len(),
            forall|i: int| 0 <= i < rest@.len() ==> rest@[i] == all[all.len() - 1 - i],
            forall|i: int|
                0 <= i < out@.len() ==> out@[i].span == all[i].span && cb.ensures(
                    (all[i].span, all[i].inner),
                    (#[trigger] out@[i]).inner,
                ),
        decreases rest.len(),
    {
        let e = rest.pop().unwrap();
        let o = cb(e.span, e.inner);
        out.push(Spanned { span: e.span, inner: o });
    }
    out
}

impl<S: Copy, T> SpannedPattern<S, T> {
    /// Passes every leaf, with its span, through `cb`.
    pub fn map_leaves<O, F: Fn(S, T) -> O>(self, cb: &F) -> (r: SpannedPattern<S, O>)
        requires
            forall|s: S, t: T| cb.requires((s, t)),
        ensures
            r.span == self.span,
            match self.inner@ {
                PatternModel::Leaf(t) => r.inner@ is Leaf && cb.ensures(
                    (self.span, t),
                    r.inner@->Leaf_0,
                ),
                PatternModel::Tuple(els) => r.inner@ is Tuple && r.inner@->Tuple_0.len() == els.len()
                    && forall|i: int|
                    0 <= i < els.len() ==> (#[trigger] r.inner@->Tuple_0[i]).span == els[i].span
                        && cb.ensures((els[i].span, els[i].inner), r.inner@->Tuple_0[i].inner),
            },
    {
        let span = self.span;
        match self.inner {
            Pattern::Leaf(t) => Spanned { span, inner: Pattern::Leaf(cb(span, t)) },
            Pattern::Tuple(els) => Spanned { span, inner: Pattern::Tuple(map_elements(els, cb)) },
        }
    }

    /// Passes every leaf, with its span, through `cb`; fails if `cb` fails on any.
    pub fn flat_map_leaves<O, F: Fn(S, T) -> Option<O>>(self, cb: &F) -> (r: Option<
        SpannedPattern<S, O>,
    >)
        requires
            forall|s: S, t: T| cb.requires((s, t)),
        ensures
            r is Some ==> r->Some_0.span == self.span,
            match self.inner@ {
                PatternModel::Leaf(t) => match r {
                    Some(p) => p.inner@ is Leaf && cb.ensures((self.span, t), Some(p.inner@->Leaf_0)),
                    None => cb.ensures((self.span, t), None::<O>),
                },
                PatternModel::Tuple(els) => match r {
                    Some(p) => p.inner@ is Tuple && p.inner@->Tuple_0.len() == els.len() && forall|
                        i: int,
                    |
                        0 <= i < els.len() ==> (#[trigger] p.inner@->Tuple_0[i]).span == els[i].span
                            && cb.ensures(
                            (els[i].span, els[i].inner),
                            Some(p.inner@->Tuple_0[i].inner),
                        ),
                    None => exists|i: int|
                        0 <= i < els.len() && cb.ensures(
                            ((#[trigger] els[i]).span, els[i].inner),
                            None::<O>,
                        ),
                },
            },
    {
        let span = self.span;
        match self.inner {
            Pattern::Leaf(t) => match cb(span, t) {
                Some(o) => Some(Spanned { span, inner: Pattern::Leaf(o) }),
                None => None,
            },
            Pattern::Tuple(els) => {
                let ghost all = els@;
                let mut rest = crate::infer::reversed(els);
                let mut out: Vec<Spanned<S, O>> = Vec::new();
                while rest.len() > 0
                    invariant
                        self.inner@ == PatternModel::Tuple(all),
                        forall|s: S, t: T| cb.requires((s, t)),
                        out@.len() + rest@.len() == all.len(),
                        forall|i: int| 0 <= i < rest@.len() ==> rest@[i] == all[all.len() - 1 - i],
                        forall|i: int|
                            0 <= i < out@.len() ==> out@[i].span == all[i].span && cb.ensures(
                                (all[i].span, all[i].inner),
                                Some((#[trigger] out@[i]).inner),
                            ),
                    decreases rest.len(),
                {
                    let e = rest.pop().unwrap();
                    proof {
                        assert(e == all[out@.len() as int]);
                    }
                    match cb(e.span, e.inner) {
                        Some(o) => out.push(Spanned { span: e.span, inner: o }),
                        None => {
                            proof {
                                let k = out@.len() as int;
                                assert(cb.ensures((all[k].span, all[k].inner), None::<O>));
                                assert(self.inner@->Tuple_0[k] == all[k]);
                            }
                            return None;
                        },
                    }
                }
                Some(Spanned { span, inner: Pattern::Tuple(out) })
            },
        }
    }
}

impl<S: Copy, T, V> SpannedPattern<S, AnyTerm<T, V>> {
    /// Passes every variable, with its span, through `cb`; values stay.
    pub fn map_variables<O, F: Fn(S, T) -> O>(self, cb: &F) -> (r: SpannedPattern<S, AnyTerm<O, V>>)
        requires
            forall|s: S, t: T| cb.requires((s, t)),
        ensures
            r.span == self.span,
            match self.inner@ {
                PatternModel::Leaf(t) => r.inner@ is Leaf && term_mapped(
                    cb,
                    self.span,
                    t,
                    r.inner@->Leaf_0,
                ),
                PatternModel::Tuple(els) => r.inner@ is Tuple && r.inner@->Tuple_0.len() == els.len()
                    && forall|i: int|
                    0 <= i < els.len() ==> (#[trigger] r.inner@->Tuple_0[i]).span == els[i].span
                        && term_mapped(cb, els[i].span, els[i].inner, r.inner@->Tuple_0[i].inner),
            },
    {
        let span = self.span;
        match self.inner {
            Pattern::Leaf(t) => Spanned { span, inner: Pattern::Leaf(map_term(span, t, cb)) },
            Pattern::Tuple(els) => {
                let ghost all = els@;
                let mut rest = crate::infer::reversed(els);
                let mut out: Vec<Spanned<S, AnyTerm<O, V>>> = Vec::new();
                while rest.len() > 0
                    invariant
                        forall|s: S, t: T| cb.requires((s, t)),
                        out@.len() + rest@.len() == all.len(),
                        forall|i: int| 0 <= i < rest@.len() ==> rest@[i] == all[all.len() - 1 - i],
                        forall|i: int|
                            0 <= i < out@.len() ==> out@[i].span == all[i].span && term_mapped(
                                cb,
                                all[i].span,
                                all[i].inner,
                                (#[trigger] out@[i]).inner,
                            ),
                    decreases rest.len(),
                {
                    let e = rest.pop().unwrap();
                    let o = map_term(e.span, e.inner, cb);
                    out.push(Spanned { span: e.span, inner: o });
                }
                Spanned { span, inner: Pattern::Tuple(out) }
            },
        }
    }

    /// Replaces every variable, with its span, by the value `cb` gives.
    pub fn quantify<F: Fn(S, T) -> V>(self, cb: &F) -> (r: SpannedPattern<S, V>)
        requires
            forall|s: S, t: T| cb.requires((s, t)),
        ensures
            r.span == self.span,
            match self.inner@ {
                PatternModel::Leaf(t) => r.inner@ is Leaf && term_quantified(
                    cb,
                    self.span,
                    t,
                    r.inner@->Leaf_0,
                ),
                PatternModel::Tuple(els) => r.inner@ is Tuple && r.inner@->Tuple_0.len() == els.len()
                    && forall|i: int|
                    0 <= i < els.len() ==> (#[trigger] r.inner@->Tuple_0[i]).span == els[i].span
                        && term_quantified(cb, els[i].span, els[i].inner, r.inner@->Tuple_0[i].inner),
            },
    {
        let span = self.span;
        match self.inner {
            Pattern::Leaf(t) => Spanned { span, inner: Pattern::Leaf(quantify_term(span, t, cb)) },
            Pattern::Tuple(els) => {
                let ghost all = els@;
                let mut rest = crate::infer::reversed(els);
                let mut out: Vec<Spanned<S, V>> = Vec::new();
                while rest.len() > 0
                    invariant
                        forall|s: S, t: T| cb.requires((s, t)),
                        out@.len() + rest@.len() == all.len(),
                        forall|i: int| 0 <= i < rest@.len() ==> rest@[i] == all[all.len() - 1 - i],
                        forall|i: int|
                            0 <= i < out@.len() ==> out@[i].span == all[i].span && term_quantified(
                                cb,
                                all[i].span,
                                all[i].inner,
                                (#[trigger] out@[i]).inner,
                            ),
                    decreases rest.len(),
                {
                    let e = rest.pop().unwrap();
                    let o = quantify_term(e.span, e.inner, cb);
                    out.push(Spanned { span: e.span, inner: o });
                }
                Spanned { span, inner: Pattern::Tuple(out) }
            },
        }
    }
}

/// Whether `o` is the term `t` at span `s` with its variable passed through `cb`.
pub open spec fn term_mapped<S, T, O, V, F: Fn(S, T) -> O>(
    cb: &F,
    s: S,
    t: AnyTerm<T, V>,
    o: AnyTerm<O, V>,
) -> bool {
    match t {
        AnyTerm::Variable(x) => o is Variable && cb.ensures((s, x), o->Variable_0),
        AnyTerm::Value(v) => o == AnyTerm::<O, V>::Value(v),
    }
}

/// Whether `v` is the value of the term `t` at span `s`, a variable's value
/// being what `cb` gives.
pub open spec fn term_quantified<S, T, V, F: Fn(S, T) -> V>(
    cb: &F,
    s: S,
    t: AnyTerm<T, V>,
    v: V,
) -> bool {
    match t {
        AnyTerm::Variable(x) => cb.ensures((s, x), v),
        AnyTerm::Value(w) => v == w,
    }
}

fn map_term<S, T, O, V, F: Fn(S, T) -> O>(s: S, t: AnyTerm<T, V>, cb: &F) -> (r: AnyTerm<O, V>)
    requires
        forall|s: S, t: T| cb.requires((s, t)),
    ensures
        term_mapped(cb, s, t, r),
{
    match t {
        AnyTerm::Variable(x) => AnyTerm::Variable(cb(s, x)),
        AnyTerm::Value(v) => AnyTerm::Value(v),
    }
}

fn quantify_term<S, T, V, F: Fn(S, T) -> V>(s: S, t: AnyTerm<T, V>, cb: &F) -> (r: V)
    requires
        forall|s: S, t: T| cb.requires((s, t)),
    ensures
        term_quantified(cb, s, t, r),
{
    match t {
        AnyTerm::Variable(x) => cb(s, x),
        AnyTerm::Value(v) => v,
    }
}

} // verus!
