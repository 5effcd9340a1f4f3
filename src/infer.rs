//! Unification of patterns with types, first-wins resolution of proposed
//! types, and the merging of variable bindings, with their messages.

use vstd::prelude::*;
use crate::value::PrimitiveType;
use crate::node::ResourceId;
use crate::syntax::{
    copy_type, same_shape, shape, AnyTerm, Diagnostic, DiagnosticKind, Pattern, PatternModel, Shape,
    Spanned, SpannedPattern, Type, TypeTerm,
};

verus! {

/// The name of a primitive type.
pub open spec fn prim_text(p: PrimitiveType) -> Seq<char> {
    match p {
        PrimitiveType::Symbol => seq!['S', 'y', 'm', 'b', 'o', 'l'],
        PrimitiveType::Integer => seq!['I', 'n', 't', 'e', 'g', 'e', 'r'],
    }
}

/// The names of a list of primitive types, separated by commas.
pub open spec fn prims_text(ps: Seq<PrimitiveType>) -> Seq<char>
    decreases ps.len(),
{
    if ps.len() == 0 {
        Seq::empty()
    } else if ps.len() == 1 {
        prim_text(ps[0])
    } else {
        prims_text(ps.drop_last()) + seq![',', ' '] + prim_text(ps.last())
    }
}

/// How a type is written: a primitive type's name, or a parenthesised list.
pub open spec fn shape_text(s: Shape) -> Seq<char> {
    match s {
        Shape::Leaf(p) => prim_text(p),
        Shape::Tuple(ps) => seq!['('] + prims_text(ps) + seq![')'],
    }
}

/// Appends a string.
pub fn push_chars(out: &mut String, s: &str)
    ensures
        final(out)@ == old(out)@ + s@,
{
    out.append(s);
}

/// Appends the name of a primitive type.
fn push_prim(out: &mut String, p: PrimitiveType)
    ensures
        final(out)@ == old(out)@ + prim_text(p),
{
    match p {
        PrimitiveType::Symbol => {
            push_chars(out, "Symbol");
            proof {
                reveal_strlit("Symbol");
            }
        },
        PrimitiveType::Integer => {
            push_chars(out, "Integer");
            proof {
                reveal_strlit("Integer");
            }
        },
    }
}

/// Appends how a type is written.
pub fn push_type<S>(out: &mut String, t: &Pattern<S, PrimitiveType>)
    ensures
        final(out)@ == old(out)@ + shape_text(shape(t@)),
{
    match t {
        Pattern::Leaf(p) => push_prim(out, *p),
        Pattern::Tuple(xs) => {
            let ghost ps = shape(t@)->Tuple_0;
            let ghost start = out@;
            push_chars(out, "(");
            proof {
                reveal_strlit("(");
            }
            let mut i: usize = 0;
            while i < xs.len()
                invariant
                    t@ == PatternModel::Tuple(xs@),
                    ps == shape(t@)->Tuple_0,
                    ps.len() == xs@.len(),
                    i <= xs.len(),
                    out@ == start + seq!['('] + prims_text(ps.take(i as int)),
                decreases xs.len() - i,
            {
                proof {
                    assert(ps.take(i + 1).drop_last() =~= ps.take(i as int));
                    assert(ps[i as int] == xs@[i as int].inner);
                }
                if i > 0 {
                    push_chars(out, ", ");
                    proof {
                        reveal_strlit(", ");
                    }
                }
                push_prim(out, xs[i].inner);
                proof {
                    if i == 0 {
                        assert(ps.take(0) =~= Seq::<PrimitiveType>::empty());
                    }
                    assert(out@ =~= start + seq!['('] + prims_text(ps.take(i + 1)));
                }
                i = i + 1;
            }
            push_chars(out, ")");
            proof {
                reveal_strlit(")");
                assert(ps.take(ps.len() as int) =~= ps);
                assert(out@ =~= start + shape_text(shape(t@)));
            }
        },
    }
}

impl<S: Copy> SpannedPattern<S, PrimitiveType> {
    /// How this type is written, at its span.
    pub fn to_spanned_string(&self) -> (r: Spanned<S, String>)
        ensures
            r.span == self.span,
            r.inner@ == shape_text(shape(self.inner@)),
    {
        let mut out = String::new();
        push_type(&mut out, &self.inner);
        Spanned { span: self.span, inner: out }
    }
}

/// The message of a diagnostic on a type that differs from the one expected.
pub open spec fn mismatch_text(expected: Shape, got: Shape) -> Seq<char> {
    seq!['E', 'x', 'p', 'e', 'c', 't', 'e', 'd', ' '] + shape_text(expected) + seq![
        ',',
        ' ',
        'g',
        'o',
        't',
        ' ',
    ] + shape_text(got)
}

/// Builds the message for a type that differs from the one expected.
fn mismatch_message<S>(expected: &Pattern<S, PrimitiveType>, got: &Pattern<S, PrimitiveType>) -> (r:
    String)
    ensures
        r@ == mismatch_text(shape(expected@), shape(got@)),
{
    let mut out = String::new();
    push_chars(&mut out, "Expected ");
    push_type(&mut out, expected);
    push_chars(&mut out, ", got ");
    push_type(&mut out, got);
    proof {
        reveal_strlit("Expected ");
        reveal_strlit(", got ");
    }
    out
}

/// The label on the canonical type of a mismatch.
pub open spec fn expected_label_text(s: Shape) -> Seq<char> {
    seq!['E', 'x', 'p', 'e', 'c', 't', 'e', 'd', ' '] + shape_text(s) + seq![' ', 'h', 'e', 'r', 'e', '.', '.', '.']
}

/// The label on the proposal that disagrees with the canonical type.
pub open spec fn defined_label_text(s: Shape) -> Seq<char> {
    seq!['.', '.', '.', 'b', 'u', 't', ' '] + shape_text(s) + seq![
        ' ', 'w', 'a', 's', ' ', 'd', 'e', 'f', 'i', 'n', 'e', 'd', ' ', 'h', 'e', 'r', 'e', '.',
    ]
}

/// Builds the two labels of a mismatch between a canonical type and a proposal.
pub fn mismatch_labels<S: Copy>(canon: &Type<S>, got: &Type<S>) -> (r: Vec<Spanned<S, String>>)
    ensures
        r@.len() == 2,
        r@[0].span == canon.span,
        r@[0].inner@ == expected_label_text(shape(canon.inner@)),
        r@[1].span == got.span,
        r@[1].inner@ == defined_label_text(shape(got.inner@)),
{
    let mut labels: Vec<Spanned<S, String>> = Vec::new();
    let mut first = String::new();
    push_chars(&mut first, "Expected ");
    push_type(&mut first, &canon.inner);
    push_chars(&mut first, " here...");
    proof {
        reveal_strlit("Expected ");
        reveal_strlit(" here...");
        assert(first@ =~= expected_label_text(shape(canon.inner@)));
    }
    labels.push(Spanned { span: canon.span, inner: first });
    let mut second = String::new();
    push_chars(&mut second, "...but ");
    push_type(&mut second, &got.inner);
    push_chars(&mut second, " was defined here.");
    proof {
        reveal_strlit("...but ");
        reveal_strlit(" was defined here.");
        assert(second@ =~= defined_label_text(shape(got.inner@)));
    }
    labels.push(Spanned { span: got.span, inner: second });
    labels
}

/// The proposals among `s` whose shape differs from `canon`, in order.
pub open spec fn conflicts<S>(s: Seq<Type<S>>, canon: Shape) -> Seq<Type<S>> {
    s.filter(|t: Type<S>| shape(t.inner@) != canon)
}

/// The elements of `v`, last first.
pub fn reversed<T>(v: Vec<T>) -> (r: Vec<T>)
    ensures
        r@.len() == v@.len(),
        forall|i: int| 0 <= i < v@.len() ==> r@[i] == v@[v@.len() - 1 - i],
{
    let ghost all = v@;
    let mut v = v;
    let mut out: Vec<T> = Vec::new();
    while v.len() > 0
        invariant
            v@.len() + out@.len() == all.len(),
            forall|i: int| 0 <= i < v@.len() ==> v@[i] == all[i],
            forall|i: int| 0 <= i < out@.len() ==> out@[i] == all[all.len() - 1 - i],
        decreases v.len(),
    {
        let x = v.pop().unwrap();
        out.push(x);
    }
    out
}

/// Resolves the proposed types of one relation: the first proposal is the
/// relation's type, and every later proposal of another shape gets an error
/// that names both.
pub fn resolve_proposed_types<S: Copy>(key: &ResourceId, input: Vec<Type<S>>) -> (r: Vec<
    Result<(ResourceId, Type<S>), Diagnostic<S>>,
>)
    ensures
        input@.len() == 0 ==> r@.len() == 0,
        input@.len() > 0 ==> {
            let canon = shape(input@[0].inner@);
            let cs = conflicts(input@.skip(1), canon);
            &&& r@.len() == cs.len() + 1
            &&& r@[0] is Ok
            &&& r@[0]->Ok_0.0@ == key@
            &&& r@[0]->Ok_0.1 == input@[0]
            &&& forall|i: int|
                0 <= i < cs.len() ==> {
                    &&& #[trigger] r@[i + 1] is Err
                    &&& r@[i + 1]->Err_0.span == cs[i].span
                    &&& r@[i + 1]->Err_0.kind == DiagnosticKind::Error
                    &&& r@[i + 1]->Err_0.message@ == mismatch_text(canon, shape(cs[i].inner@))
                    &&& r@[i + 1]->Err_0.labels@.len() == 2
                    &&& r@[i + 1]->Err_0.labels@[0].span == input@[0].span
                    &&& r@[i + 1]->Err_0.labels@[1].span == cs[i].span
                    &&& r@[i + 1]->Err_0.labels@[0].inner@ == expected_label_text(canon)
                    &&& r@[i + 1]->Err_0.labels@[1].inner@ == defined_label_text(shape(cs[i].inner@))
                }
        },
{
    let ghost all = input@;
    let n = input.len();
    let mut rest = reversed(input);
    let mut out: Vec<Result<(ResourceId, Type<S>), Diagnostic<S>>> = Vec::new();
    if n == 0 {
        return out;
    }
    let first = rest.pop().unwrap();
    let ghost canon = shape(first.inner@);
    let mut done: usize = 1;
    while rest.len() > 0
        invariant
            all.len() == n,
            n >= 1,
            done + rest@.len() == n,
            done >= 1,
            first == all[0],
            canon == shape(all[0].inner@),
            forall|i: int| 0 <= i < rest@.len() ==> rest@[i] == all[n - 1 - i],
            out@.len() == conflicts(all.subrange(1, done as int), canon).len(),
            forall|i: int|
                0 <= i < out@.len() ==> {
                    let cs = conflicts(all.subrange(1, done as int), canon);
                    &&& #[trigger] out@[i] is Err
                    &&& out@[i]->Err_0.span == cs[i].span
                    &&& out@[i]->Err_0.kind == DiagnosticKind::Error
                    &&& out@[i]->Err_0.message@ == mismatch_text(canon, shape(cs[i].inner@))
                    &&& out@[i]->Err_0.labels@.len() == 2
                    &&& out@[i]->Err_0.labels@[0].span == all[0].span
                    &&& out@[i]->Err_0.labels@[1].span == cs[i].span
                    &&& out@[i]->Err_0.labels@[0].inner@ == expected_label_text(canon)
                    &&& out@[i]->Err_0.labels@[1].inner@ == defined_label_text(shape(cs[i].inner@))
                },
        decreases rest.len(),
    {
        let ty = rest.pop().unwrap();
        let ghost before = out@;
        proof {
            assert(ty == all[done as int]);
            assert(done + 1 <= n);
            assert(all.subrange(1, done + 1).drop_last() =~= all.subrange(1, done as int));
            assert(all.subrange(1, done + 1).last() == ty);
            reveal(Seq::filter);
        }
        if !same_shape(&first.inner, &ty.inner) {
            let message = mismatch_message(&first.inner, &ty.inner);
            let labels = mismatch_labels(&first, &ty);
            let d = Diagnostic { span: ty.span, kind: DiagnosticKind::Error, message, labels };
            out.push(Err(d));
            proof {
                let cs = conflicts(all.subrange(1, done + 1), canon);
                assert(cs =~= conflicts(all.subrange(1, done as int), canon).push(ty));
                assert forall|i: int| 0 <= i < out@.len() implies {
                    &&& #[trigger] out@[i] is Err
                    &&& out@[i]->Err_0.span == cs[i].span
                    &&& out@[i]->Err_0.kind == DiagnosticKind::Error
                    &&& out@[i]->Err_0.message@ == mismatch_text(canon, shape(cs[i].inner@))
                    &&& out@[i]->Err_0.labels@.len() == 2
                    &&& out@[i]->Err_0.labels@[0].span == all[0].span
                    &&& out@[i]->Err_0.labels@[1].span == cs[i].span
                    &&& out@[i]->Err_0.labels@[0].inner@ == expected_label_text(canon)
                    &&& out@[i]->Err_0.labels@[1].inner@ == defined_label_text(shape(cs[i].inner@))
                } by {
                    if i < before.len() {
                        assert(out@[i] == before[i]);
                    }
                }
            }
        } else {
            proof {
                assert(conflicts(all.subrange(1, done + 1), canon) =~= conflicts(
                    all.subrange(1, done as int),
                    canon,
                ));
            }
        }
        done = done + 1;
    }
    proof {
        assert(all.subrange(1, n as int) =~= all.skip(1));
    }
    let mut r: Vec<Result<(ResourceId, Type<S>), Diagnostic<S>>> = Vec::new();
    r.push(Ok((key.duplicate(), first)));
    let ghost diags = out@;
    let mut out_rev = reversed(out);
    while out_rev.len() > 0
        invariant
            all.len() == n,
            n >= 1,
            r@.len() >= 1,
            r@.len() - 1 + out_rev@.len() == diags.len(),
            r@[0] is Ok,
            r@[0]->Ok_0.0@ == key@,
            r@[0]->Ok_0.1 == all[0],
            forall|i: int| 0 <= i < out_rev@.len() ==> out_rev@[i] == diags[diags.len() - 1 - i],
            forall|i: int| 0 <= i < r@.len() - 1 ==> r@[i + 1] == diags[i],
        decreases out_rev.len(),
    {
        let d = out_rev.pop().unwrap();
        r.push(d);
    }
    proof {
        let cs = conflicts(all.skip(1), canon);
        assert(diags.len() == cs.len());
        assert forall|i: int| 0 <= i < cs.len() implies {
            &&& #[trigger] r@[i + 1] is Err
            &&& r@[i + 1]->Err_0.span == cs[i].span
            &&& r@[i + 1]->Err_0.kind == DiagnosticKind::Error
            &&& r@[i + 1]->Err_0.message@ == mismatch_text(canon, shape(cs[i].inner@))
            &&& r@[i + 1]->Err_0.labels@.len() == 2
            &&& r@[i + 1]->Err_0.labels@[0].span == all[0].span
            &&& r@[i + 1]->Err_0.labels@[1].span == cs[i].span
            &&& r@[i + 1]->Err_0.labels@[0].inner@ == expected_label_text(canon)
            &&& r@[i + 1]->Err_0.labels@[1].inner@ == defined_label_text(shape(cs[i].inner@))
        } by {
            assert(r@[i + 1] == diags[i]);
            assert(diags[i] is Err);
        }
    }
    r
}

/// For any list of proposals, the ones that are diagnosed are exactly those
/// after the first whose shape differs from the first's, one each, in order;
/// none that agrees with the first is diagnosed.
pub proof fn first_wins_diagnoses_exactly_the_conflicts<S>(s: Seq<Type<S>>, canon: Shape)
    ensures
        forall|i: int| 0 <= i < conflicts(s, canon).len() ==> shape(
            (#[trigger] conflicts(s, canon)[i]).inner@,
        ) != canon,
        forall|i: int|
            0 <= i < s.len() && shape((#[trigger] s[i]).inner@) != canon ==> conflicts(
                s,
                canon,
            ).contains(s[i]),
        conflicts(s, canon).len() <= s.len(),
{
    let pred = |t: Type<S>| shape(t.inner@) != canon;
    assert forall|i: int| 0 <= i < conflicts(s, canon).len() implies shape(
        (#[trigger] conflicts(s, canon)[i]).inner@,
    ) != canon by {
        s.lemma_filter_pred(pred, i);
    }
    assert forall|i: int|
        0 <= i < s.len() && shape((#[trigger] s[i]).inner@) != canon implies conflicts(
        s,
        canon,
    ).contains(s[i]) by {
        s.lemma_filter_contains(pred, i);
    }
    s.lemma_filter_len(pred);
}

/// The decimal digits of a number.
pub open spec fn decimal_text(n: nat) -> Seq<char>
    decreases n,
{
    let digits = seq!['0', '1', '2', '3', '4', '5', '6', '7', '8', '9'];
    if n < 10 {
        seq![digits[n as int]]
    } else {
        decimal_text(n / 10) + seq![digits[(n % 10) as int]]
    }
}

/// Appends the decimal digits of a number.
fn push_decimal(out: &mut String, n: usize)
    ensures
        final(out)@ == old(out)@ + decimal_text(n as nat),
    decreases n,
{
    if n >= 10 {
        push_decimal(out, n / 10);
    }
    let d = n % 10;
    if d == 0 {
        push_chars(out, "0");
        proof { reveal_strlit("0"); }
    } else if d == 1 {
        push_chars(out, "1");
        proof { reveal_strlit("1"); }
    } else if d == 2 {
        push_chars(out, "2");
        proof { reveal_strlit("2"); }
    } else if d == 3 {
        push_chars(out, "3");
        proof { reveal_strlit("3"); }
    } else if d == 4 {
        push_chars(out, "4");
        proof { reveal_strlit("4"); }
    } else if d == 5 {
        push_chars(out, "5");
        proof { reveal_strlit("5"); }
    } else if d == 6 {
        push_chars(out, "6");
        proof { reveal_strlit("6"); }
    } else if d == 7 {
        push_chars(out, "7");
        proof { reveal_strlit("7"); }
    } else if d == 8 {
        push_chars(out, "8");
        proof { reveal_strlit("8"); }
    } else {
        push_chars(out, "9");
        proof { reveal_strlit("9"); }
    }
}

/// An error diagnostic with a message and no labels.
fn error_at<S>(span: S, message: String) -> (r: Diagnostic<S>)
    ensures
        r.span == span,
        r.kind == DiagnosticKind::Error,
        r.message == message,
        r.labels@.len() == 0,
{
    Diagnostic { span, kind: DiagnosticKind::Error, message, labels: Vec::new() }
}

/// A variable binding found by unification: the variable with its span,
/// and the span and model of the type bound to it.
pub type BindingModel<S> = (Spanned<S, usize>, S, PatternModel<S, PrimitiveType>);

/// The model of a diagnostic that unification reports: its span and message.
pub type ErrorModel<S> = (S, Seq<char>);

/// The model of a diagnostic's span and message.
pub open spec fn error_of<S>(d: Diagnostic<S>) -> ErrorModel<S> {
    (d.span, d.message@)
}

/// The models of a list of diagnostics.
pub open spec fn errors_view<S>(s: Seq<Diagnostic<S>>) -> Seq<ErrorModel<S>> {
    s.map_values(|d: Diagnostic<S>| error_of(d))
}

/// The message for a tuple pattern of arity `expected` against a tuple type
/// of arity `got`.
pub open spec fn arity_text(expected: nat, got: nat) -> Seq<char> {
    seq!['E', 'x', 'p', 'e', 'c', 't', 'e', 'd', ' ', 't', 'u', 'p', 'l', 'e', ' ', 'o', 'f', ' ', 'a', 'r', 'i', 't', 'y', ' ']
        + decimal_text(expected) + seq![',', ' ', 'g', 'o', 't', ' ', 't', 'u', 'p', 'l', 'e', ' ', 'o', 'f', ' ', 'a', 'r', 'i', 't', 'y', ' ']
        + decimal_text(got)
}

/// The message for a tuple pattern of arity `expected` against a primitive type.
pub open spec fn arity_prim_text(expected: nat, got: PrimitiveType) -> Seq<char> {
    seq!['E', 'x', 'p', 'e', 'c', 't', 'e', 'd', ' ', 't', 'u', 'p', 'l', 'e', ' ', 'o', 'f', ' ', 'a', 'r', 'i', 't', 'y', ' ']
        + decimal_text(expected) + seq![',', ' ', 'g', 'o', 't', ' '] + prim_text(got)
}

/// The bindings that unifying the tuple elements `ls` with the primitive
/// types `rs`, element by element, gives.
pub open spec fn element_bindings<S>(
    ls: Seq<Spanned<S, TypeTerm<usize>>>,
    rs: Seq<Spanned<S, PrimitiveType>>,
) -> Seq<BindingModel<S>>
    decreases ls.len(),
{
    if ls.len() == 0 {
        Seq::empty()
    } else {
        element_bindings(ls.drop_last(), rs) + match ls.last().inner {
            AnyTerm::Variable(v) => seq![
                (
                    Spanned { span: ls.last().span, inner: v },
                    rs[ls.len() - 1].span,
                    PatternModel::Leaf(rs[ls.len() - 1].inner),
                ),
            ],
            AnyTerm::Value(_) => Seq::empty(),
        }
    }
}

/// The errors for the elements of `ls` whose type disagrees with `rs`.
pub open spec fn element_errors<S>(
    ls: Seq<Spanned<S, TypeTerm<usize>>>,
    rs: Seq<Spanned<S, PrimitiveType>>,
) -> Seq<ErrorModel<S>>
    decreases ls.len(),
{
    if ls.len() == 0 {
        Seq::empty()
    } else {
        element_errors(ls.drop_last(), rs) + match ls.last().inner {
            AnyTerm::Value(p) => if p != rs[ls.len() - 1].inner {
                seq![
                    (
                        rs[ls.len() - 1].span,
                        mismatch_text(Shape::Leaf(p), Shape::Leaf(rs[ls.len() - 1].inner)),
                    ),
                ]
            } else {
                Seq::empty()
            },
            AnyTerm::Variable(_) => Seq::empty(),
        }
    }
}

/// The bindings that unifying the pattern `p` at span `ps` with the type
/// `t` at span `ts` gives.
pub open spec fn unify_bindings<S>(
    ps: S,
    p: PatternModel<S, TypeTerm<usize>>,
    ts: S,
    t: PatternModel<S, PrimitiveType>,
) -> Seq<BindingModel<S>> {
    match p {
        PatternModel::Tuple(ls) => match t {
            PatternModel::Tuple(rs) => if ls.len() == rs.len() {
                element_bindings(ls, rs)
            } else {
                Seq::empty()
            },
            PatternModel::Leaf(_) => Seq::empty(),
        },
        PatternModel::Leaf(AnyTerm::Variable(v)) => seq![(Spanned { span: ps, inner: v }, ts, t)],
        PatternModel::Leaf(AnyTerm::Value(_)) => Seq::empty(),
    }
}

/// The errors that unifying the pattern `p` with the type `t` at span `ts` reports.
pub open spec fn unify_errors<S>(
    p: PatternModel<S, TypeTerm<usize>>,
    ts: S,
    t: PatternModel<S, PrimitiveType>,
) -> Seq<ErrorModel<S>> {
    match p {
        PatternModel::Tuple(ls) => match t {
            PatternModel::Tuple(rs) => if ls.len() == rs.len() {
                element_errors(ls, rs)
            } else {
                seq![(ts, arity_text(ls.len(), rs.len()))]
            },
            PatternModel::Leaf(q) => seq![(ts, arity_prim_text(ls.len(), q))],
        },
        PatternModel::Leaf(AnyTerm::Variable(_)) => Seq::empty(),
        PatternModel::Leaf(AnyTerm::Value(q)) => if shape(t) != Shape::Leaf(q) {
            seq![(ts, mismatch_text(Shape::Leaf(q), shape(t)))]
        } else {
            Seq::empty()
        },
    }
}

/// The model of a binding.
pub open spec fn binding_of<S>(b: (Spanned<S, usize>, Type<S>)) -> BindingModel<S> {
    (b.0, b.1.span, b.1.inner@)
}

/// The models of a list of bindings.
pub open spec fn bindings_view<S>(s: Seq<(Spanned<S, usize>, Type<S>)>) -> Seq<BindingModel<S>> {
    s.map_values(|b: (Spanned<S, usize>, Type<S>)| binding_of(b))
}

/// Builds the message for a tuple pattern against a tuple type.
fn arity_message(expected: usize, got: usize) -> (r: String)
    ensures
        r@ == arity_text(expected as nat, got as nat),
{
    let mut out = String::new();
    push_chars(&mut out, "Expected tuple of arity ");
    push_decimal(&mut out, expected);
    push_chars(&mut out, ", got tuple of arity ");
    push_decimal(&mut out, got);
    proof {
        reveal_strlit("Expected tuple of arity ");
        reveal_strlit(", got tuple of arity ");
    }
    out
}

/// Builds the message for a tuple pattern against a primitive type.
fn arity_prim_message(expected: usize, got: PrimitiveType) -> (r: String)
    ensures
        r@ == arity_prim_text(expected as nat, got),
{
    let mut out = String::new();
    push_chars(&mut out, "Expected tuple of arity ");
    push_decimal(&mut out, expected);
    push_chars(&mut out, ", got ");
    push_prim(&mut out, got);
    proof {
        reveal_strlit("Expected tuple of arity ");
        reveal_strlit(", got ");
    }
    out
}

impl<S: Copy> SpannedPattern<S, TypeTerm<usize>> {
    /// Unifies this pattern with a type: each variable is bound to the type
    /// at its place, and each place where a literal or the arity disagrees
    /// gets an error.
    pub fn unify_inner(
        &self,
        target: &Type<S>,
        diagnostics: &mut Vec<Diagnostic<S>>,
        bindings: &mut Vec<(Spanned<S, usize>, Type<S>)>,
    )
        ensures
            bindings_view(final(bindings)@) == bindings_view(old(bindings)@) + unify_bindings(
                self.span,
                self.inner@,
                target.span,
                target.inner@,
            ),
            errors_view(final(diagnostics)@) == errors_view(old(diagnostics)@) + unify_errors(
                self.inner@,
                target.span,
                target.inner@,
            ),
            forall|i: int|
                old(diagnostics)@.len() <= i < final(diagnostics)@.len() ==> final(diagnostics)@[i].kind
                    == DiagnosticKind::Error && final(diagnostics)@[i].labels@.len() == 0,
            forall|i: int|
                0 <= i < old(diagnostics)@.len() ==> final(diagnostics)@[i] == old(
                    diagnostics,
                )@[i],
    {
        let ghost b0 = bindings_view(bindings@);
        let ghost d0 = errors_view(diagnostics@);
        let ghost dl = diagnostics@;
        let ghost ub = unify_bindings(self.span, self.inner@, target.span, target.inner@);
        let ghost ue = unify_errors(self.inner@, target.span, target.inner@);
        match &self.inner {
            Pattern::Tuple(ls) => match &target.inner {
                Pattern::Tuple(rs) => {
                    if ls.len() != rs.len() {
                        let ghost dd = diagnostics@;
                        diagnostics.push(error_at(target.span, arity_message(ls.len(), rs.len())));
                        proof {
                            assert(errors_view(diagnostics@) =~= errors_view(dd).push(
                                (target.span, arity_text(ls.len() as nat, rs.len() as nat)),
                            ));
                            assert(errors_view(diagnostics@) =~= d0 + ue);
                            assert(bindings_view(bindings@) =~= b0 + ub);
                        }
                    } else {
                        let mut i: usize = 0;
                        while i < ls.len()
                            invariant
                                self.inner@ == PatternModel::Tuple(ls@),
                                target.inner@ == PatternModel::Tuple(rs@),
                                ls.len() == rs.len(),
                                i <= ls.len(),
                                bindings_view(bindings@) == b0 + element_bindings(ls@.take(i as int), rs@),
                                errors_view(diagnostics@) == d0 + element_errors(ls@.take(i as int), rs@),
                                dl.len() <= diagnostics@.len(),
                                forall|j: int|
                                    dl.len() <= j < diagnostics@.len() ==> (
                                    #[trigger] diagnostics@[j]).kind == DiagnosticKind::Error
                                        && diagnostics@[j].labels@.len() == 0,
                                forall|j: int| 0 <= j < dl.len() ==> diagnostics@[j] == dl[j],
                            decreases ls.len() - i,
                        {
                            let ghost bb = bindings@;
                            let ghost dd = diagnostics@;
                            proof {
                                assert(ls@.take(i + 1).drop_last() =~= ls@.take(i as int));
                                assert(ls@.take(i + 1).last() == ls@[i as int]);
                                assert(ls@.take(i + 1).len() == i + 1);
                            }
                            match &ls[i].inner {
                                AnyTerm::Variable(v) => {
                                    let ty = Spanned { span: rs[i].span, inner: Pattern::Leaf(rs[i].inner) };
                                    bindings.push((Spanned { span: ls[i].span, inner: *v }, ty));
                                    proof {
                                        assert(bindings_view(bindings@) =~= bindings_view(bb).push(
                                            binding_of((Spanned { span: ls[i as int].span, inner: *v }, ty)),
                                        ));
                                        assert(b0 + element_bindings(ls@.take(i + 1), rs@) =~= b0
                                            + element_bindings(ls@.take(i as int), rs@) + seq![
                                            binding_of((Spanned { span: ls[i as int].span, inner: *v }, ty)),
                                        ]);
                                        assert(element_errors(ls@.take(i + 1), rs@) =~= element_errors(
                                            ls@.take(i as int),
                                            rs@,
                                        ));
                                    }
                                },
                                AnyTerm::Value(p) => {
                                    if *p != rs[i].inner {
                                        let m = mismatch_message::<S>(&Pattern::Leaf(*p), &Pattern::Leaf(rs[i].inner));
                                        diagnostics.push(error_at(rs[i].span, m));
                                        proof {
                                            let e = (rs@[i as int].span, mismatch_text(
                                                Shape::Leaf(*p),
                                                Shape::Leaf(rs@[i as int].inner),
                                            ));
                                            assert(errors_view(diagnostics@) =~= errors_view(dd).push(e));
                                            assert(d0 + element_errors(ls@.take(i + 1), rs@) =~= d0
                                                + element_errors(ls@.take(i as int), rs@) + seq![e]);
                                        }
                                    } else {
                                        proof {
                                            assert(element_errors(ls@.take(i + 1), rs@)
                                                =~= element_errors(ls@.take(i as int), rs@));
                                        }
                                    }
                                    proof {
                                        assert(element_bindings(ls@.take(i + 1), rs@)
                                            =~= element_bindings(ls@.take(i as int), rs@));
                                    }
                                },
                            }
                            i = i + 1;
                        }
                        proof {
                            assert(ls@.take(ls@.len() as int) =~= ls@);
                        }
                    }
                },
                Pattern::Leaf(q) => {
                    let ghost dd = diagnostics@;
                    diagnostics.push(error_at(target.span, arity_prim_message(ls.len(), *q)));
                    proof {
                        assert(errors_view(diagnostics@) =~= errors_view(dd).push(
                            (target.span, arity_prim_text(ls.len() as nat, *q)),
                        ));
                        assert(errors_view(diagnostics@) =~= d0 + ue);
                        assert(bindings_view(bindings@) =~= b0 + ub);
                    }
                },
            },
            Pattern::Leaf(AnyTerm::Variable(v)) => {
                let ty = copy_type(target);
                let ghost bb = bindings@;
                bindings.push((Spanned { span: self.span, inner: *v }, ty));
                proof {
                    assert(bindings_view(bindings@) =~= bindings_view(bb).push(
                        binding_of((Spanned { span: self.span, inner: *v }, ty)),
                    ));
                    assert(bindings_view(bindings@) =~= b0 + ub);
                    assert(errors_view(diagnostics@) =~= d0 + ue);
                }
            },
            Pattern::Leaf(AnyTerm::Value(p)) => {
                let leaf: Pattern<S, PrimitiveType> = Pattern::Leaf(*p);
                if !same_shape(&leaf, &target.inner) {
                    let ghost dd = diagnostics@;
                    diagnostics.push(error_at(target.span, mismatch_message(&leaf, &target.inner)));
                    proof {
                        assert(errors_view(diagnostics@) =~= errors_view(dd).push(
                            (target.span, mismatch_text(Shape::Leaf(*p), shape(target.inner@))),
                        ));
                        assert(errors_view(diagnostics@) =~= d0 + ue);
                    }
                } else {
                    proof {
                        assert(errors_view(diagnostics@) =~= d0 + ue);
                    }
                }
                proof {
                    assert(bindings_view(bindings@) =~= b0 + ub);
                }
            },
        }
    }

    /// Unifies this pattern with a type, and tags each binding with `key`;
    /// the bindings come first, then the diagnostics, as `unify_inner` makes them.
    pub fn unify<K: Copy>(&self, key: K, dst: &Type<S>) -> (r: Vec<
        Result<(K, (Spanned<S, usize>, Type<S>)), Diagnostic<S>>,
    >)
        ensures
            ({
                let ub = unify_bindings(self.span, self.inner@, dst.span, dst.inner@);
                let ue = unify_errors(self.inner@, dst.span, dst.inner@);
                &&& r@.len() == ub.len() + ue.len()
                &&& forall|i: int|
                    0 <= i < ub.len() ==> {
                        &&& #[trigger] r@[i] is Ok
                        &&& r@[i]->Ok_0.0 == key
                        &&& binding_of(r@[i]->Ok_0.1) == ub[i]
                    }
                &&& forall|i: int|
                    ub.len() <= i < r@.len() ==> {
                        &&& #[trigger] r@[i] is Err
                        &&& error_of(r@[i]->Err_0) == ue[i - ub.len()]
                        &&& r@[i]->Err_0.kind == DiagnosticKind::Error
                        &&& r@[i]->Err_0.labels@.len() == 0
                    }
            }),
    {
        let mut diagnostics: Vec<Diagnostic<S>> = Vec::new();
        let mut resolved: Vec<(Spanned<S, usize>, Type<S>)> = Vec::new();
        proof {
            assert(bindings_view(resolved@) =~= Seq::<BindingModel<S>>::empty());
            assert(errors_view(diagnostics@) =~= Seq::<ErrorModel<S>>::empty());
        }
        self.unify_inner(dst, &mut diagnostics, &mut resolved);
        let ghost bs = resolved@;
        let ghost ds = diagnostics@;
        let ghost ub = unify_bindings(self.span, self.inner@, dst.span, dst.inner@);
        let ghost ue = unify_errors(self.inner@, dst.span, dst.inner@);
        proof {
            assert(bindings_view(bs) =~= ub);
            assert(errors_view(ds) =~= ue);
            assert(bindings_view(bs).len() == bs.len());
            assert(errors_view(ds).len() == ds.len());
        }
        let mut out: Vec<Result<(K, (Spanned<S, usize>, Type<S>)), Diagnostic<S>>> = Vec::new();
        let mut rest = reversed(resolved);
        while rest.len() > 0
            invariant
                out@.len() + rest@.len() == bs.len(),
                forall|i: int| 0 <= i < rest@.len() ==> rest@[i] == bs[bs.len() - 1 - i],
                forall|i: int|
                    0 <= i < out@.len() ==> (#[trigger] out@[i]) == Ok::<
                        (K, (Spanned<S, usize>, Type<S>)),
                        Diagnostic<S>,
                    >((key, bs[i])),
            decreases rest.len(),
        {
            let b = rest.pop().unwrap();
            out.push(Ok((key, b)));
        }
        let mut rest = reversed(diagnostics);
        while rest.len() > 0
            invariant
                out@.len() + rest@.len() == bs.len() + ds.len(),
                out@.len() >= bs.len(),
                forall|i: int| 0 <= i < rest@.len() ==> rest@[i] == ds[ds.len() - 1 - i],
                forall|i: int|
                    0 <= i < bs.len() ==> (#[trigger] out@[i]) == Ok::<
                        (K, (Spanned<S, usize>, Type<S>)),
                        Diagnostic<S>,
                    >((key, bs[i])),
                forall|i: int|
                    bs.len() <= i < out@.len() ==> (#[trigger] out@[i]) == Err::<
                        (K, (Spanned<S, usize>, Type<S>)),
                        Diagnostic<S>,
                    >(ds[i - bs.len()]),
            decreases rest.len(),
        {
            let d = rest.pop().unwrap();
            out.push(Err(d));
        }
        proof {
            assert forall|i: int| 0 <= i < bs.len() implies binding_of(bs[i]) == ub[i] by {
                assert(bindings_view(bs)[i] == binding_of(bs[i]));
            }
            assert forall|i: int| 0 <= i < ds.len() implies error_of(ds[i]) == ue[i] && ds[i].kind
                == DiagnosticKind::Error && ds[i].labels@.len() == 0 by {
                assert(errors_view(ds)[i] == error_of(ds[i]));
            }
        }
        out
    }
}

/// The model of a variable map entry: the variable, and the span and model
/// of its type.
pub type VarModel<S> = (usize, S, PatternModel<S, PrimitiveType>);

/// The model of a variable map entry.
pub open spec fn var_of<S>(e: (usize, Type<S>)) -> VarModel<S> {
    (e.0, e.1.span, e.1.inner@)
}

/// The model of a variable map.
pub open spec fn vars_view<S>(m: Seq<(usize, Type<S>)>) -> Seq<VarModel<S>> {
    m.map_values(|e: (usize, Type<S>)| var_of(e))
}

/// Whether the map `m` binds variable `v`.
pub open spec fn binds<S>(m: Seq<VarModel<S>>, v: usize) -> bool {
    exists|i: int| 0 <= i < m.len() && (#[trigger] m[i]).0 == v
}

/// The place of variable `v` in `m`.
pub open spec fn bound_index<S>(m: Seq<VarModel<S>>, v: usize) -> int {
    choose|i: int| 0 <= i < m.len() && (#[trigger] m[i]).0 == v
}

/// Whether no variable is bound twice in `m`.
pub open spec fn unique_vars<S>(m: Seq<VarModel<S>>) -> bool {
    forall|i: int, j: int| 0 <= i < j < m.len() ==> (#[trigger] m[i]).0 != (#[trigger] m[j]).0
}

/// The variable map of a list of bindings: each variable with the first
/// type bound to it, in order of first binding.
pub open spec fn merged<S>(s: Seq<BindingModel<S>>) -> Seq<VarModel<S>>
    decreases s.len(),
{
    if s.len() == 0 {
        Seq::empty()
    } else {
        let m = merged(s.drop_last());
        if binds(m, s.last().0.inner) {
            m
        } else {
            m.push((s.last().0.inner, s.last().1, s.last().2))
        }
    }
}

/// The message for a variable bound to `got` that was first inferred to be `first`.
pub open spec fn rebind_text(got: Shape, first: Shape) -> Seq<char> {
    seq!['P', 'a', 't', 't', 'e', 'r', 'n', ' ', 'e', 'x', 'p', 'e', 'c', 't', 's', ' '] + shape_text(got)
        + seq![' ', 'b', 'u', 't', ' ', 'g', 'o', 't', ' '] + shape_text(first)
}

/// The errors for later bindings of an already bound variable to a type of
/// another shape: the first type stays, and each of these gets an error at
/// the variable.
pub open spec fn rebinds<S>(s: Seq<BindingModel<S>>) -> Seq<ErrorModel<S>>
    decreases s.len(),
{
    if s.len() == 0 {
        Seq::empty()
    } else {
        let m = merged(s.drop_last());
        let v = s.last().0.inner;
        rebinds(s.drop_last()) + if binds(m, v) && shape(m[bound_index(m, v)].2) != shape(s.last().2) {
            seq![(s.last().0.span, rebind_text(shape(s.last().2), shape(m[bound_index(m, v)].2)))]
        } else {
            Seq::empty()
        }
    }
}

/// A variable map never binds a variable twice.
pub proof fn merged_vars_are_unique<S>(s: Seq<BindingModel<S>>)
    ensures
        unique_vars(merged(s)),
    decreases s.len(),
{
    if s.len() > 0 {
        merged_vars_are_unique(s.drop_last());
    }
}

/// Finds where `v` is bound in `m`.
pub fn find_var<S>(m: &Vec<(usize, Type<S>)>, v: usize) -> (r: Option<usize>)
    requires
        unique_vars(vars_view(m@)),
    ensures
        r.is_some() == binds(vars_view(m@), v),
        r.is_some() ==> r.unwrap() == bound_index(vars_view(m@), v),
{
    let ghost mv = vars_view(m@);
    let mut i: usize = 0;
    while i < m.len()
        invariant
            i <= m.len(),
            mv == vars_view(m@),
            unique_vars(mv),
            forall|j: int| 0 <= j < i ==> (#[trigger] mv[j]).0 != v,
        decreases m.len() - i,
    {
        proof {
            assert(mv[i as int] == var_of(m@[i as int]));
        }
        if m[i].0 == v {
            proof {
                let k = bound_index(mv, v);
                assert(0 <= k < mv.len() && mv[k].0 == v);
                if k > i {
                    assert(mv[i as int].0 != mv[k].0);
                }
                assert(k == i);
            }
            return Some(i);
        }
        i = i + 1;
    }
    None
}

/// Merges the bindings of one rule's variables into one map, first binding
/// first; each later binding of a bound variable to a type of another shape
/// gets an error at the variable. The map comes last, unless it is empty.
pub fn merge_var_types<S: Copy>(key: u64, input: Vec<(Spanned<S, usize>, Type<S>)>) -> (r: Vec<
    Result<(u64, Vec<(usize, Type<S>)>), Diagnostic<S>>,
>)
    ensures
        ({
            let bv = bindings_view(input@);
            &&& r@.len() == rebinds(bv).len() + if merged(bv).len() > 0 {
                1int
            } else {
                0int
            }
            &&& forall|i: int|
                0 <= i < rebinds(bv).len() ==> {
                    &&& #[trigger] r@[i] is Err
                    &&& error_of(r@[i]->Err_0) == rebinds(bv)[i]
                    &&& r@[i]->Err_0.kind == DiagnosticKind::Error
                }
            &&& merged(bv).len() > 0 ==> {
                &&& r@.last() is Ok
                &&& r@.last()->Ok_0.0 == key
                &&& vars_view(r@.last()->Ok_0.1@) == merged(bv)
            }
        }),
{
    let ghost all = input@;
    let ghost bv = bindings_view(all);
    let mut rest = reversed(input);
    let mut resolved: Vec<(usize, Type<S>)> = Vec::new();
    let mut out: Vec<Result<(u64, Vec<(usize, Type<S>)>), Diagnostic<S>>> = Vec::new();
    let ghost mut done: int = 0;
    proof {
        assert(vars_view(resolved@) =~= merged(bv.take(0)));
        assert(rebinds(bv.take(0)) =~= Seq::<ErrorModel<S>>::empty());
    }
    while rest.len() > 0
        invariant
            0 <= done <= all.len(),
            bv == bindings_view(all),
            done + rest@.len() == all.len(),
            forall|i: int| 0 <= i < rest@.len() ==> rest@[i] == all[all.len() - 1 - i],
            vars_view(resolved@) == merged(bv.take(done)),
            out@.len() == rebinds(bv.take(done)).len(),
            forall|i: int|
                0 <= i < out@.len() ==> {
                    &&& #[trigger] out@[i] is Err
                    &&& error_of(out@[i]->Err_0) == rebinds(bv.take(done))[i]
                    &&& out@[i]->Err_0.kind == DiagnosticKind::Error
                },
        decreases rest.len(),
    {
        let (var, ty) = rest.pop().unwrap();
        let ghost before = out@;
        let ghost x = binding_of((var, ty));
        proof {
            assert((var, ty) == all[done]);
            assert(bv[done] == x);
            assert(bv.take(done + 1).drop_last() =~= bv.take(done));
            assert(bv.take(done + 1).last() == x);
            merged_vars_are_unique(bv.take(done));
        }
        match find_var(&resolved, var.inner) {
            None => {
                let ghost rv = vars_view(resolved@);
                resolved.push((var.inner, ty));
                proof {
                    assert(vars_view(resolved@) =~= rv.push((var.inner, ty.span, ty.inner@)));
                    assert(rebinds(bv.take(done + 1)) =~= rebinds(bv.take(done)));
                }
            },
            Some(at) => {
                proof {
                    assert(vars_view(resolved@)[at as int] == var_of(resolved@[at as int]));
                }
                if !same_shape(&resolved[at].1.inner, &ty.inner) {
                    let mut m = String::new();
                    push_chars(&mut m, "Pattern expects ");
                    push_type(&mut m, &ty.inner);
                    push_chars(&mut m, " but got ");
                    push_type(&mut m, &resolved[at].1.inner);
                    proof {
                        reveal_strlit("Pattern expects ");
                        reveal_strlit(" but got ");
                        assert(m@ =~= rebind_text(shape(ty.inner@), shape(resolved@[at as int].1.inner@)));
                    }
                    let mut labels: Vec<Spanned<S, String>> = Vec::new();
                    let mut first_label = String::new();
                    push_chars(&mut first_label, "The variable was inferred to be ");
                    push_type(&mut first_label, &resolved[at].1.inner);
                    push_chars(&mut first_label, " here...");
                    labels.push(Spanned { span: resolved[at].1.span, inner: first_label });
                    let mut second_label = String::new();
                    push_chars(&mut second_label, "...but expected to be ");
                    push_type(&mut second_label, &ty.inner);
                    push_chars(&mut second_label, " here.");
                    labels.push(Spanned { span: ty.span, inner: second_label });
                    out.push(
                        Err(Diagnostic { span: var.span, kind: DiagnosticKind::Error, message: m, labels }),
                    );
                    proof {
                        assert(rebinds(bv.take(done + 1)) =~= rebinds(bv.take(done)).push(
                            (var.span, rebind_text(shape(ty.inner@), shape(resolved@[at as int].1.inner@))),
                        ));
                        assert forall|i: int| 0 <= i < out@.len() implies {
                            &&& #[trigger] out@[i] is Err
                            &&& error_of(out@[i]->Err_0) == rebinds(bv.take(done + 1))[i]
                            &&& out@[i]->Err_0.kind == DiagnosticKind::Error
                        } by {
                            if i < before.len() {
                                assert(out@[i] == before[i]);
                            }
                        }
                    }
                } else {
                    proof {
                        assert(rebinds(bv.take(done + 1)) =~= rebinds(bv.take(done)));
                    }
                }
            },
        }
        proof {
            done = done + 1;
        }
    }
    proof {
        assert(bv.take(all.len() as int) =~= bv);
    }
    if resolved.len() > 0 {
        out.push(Ok((key, resolved)));
    } else {
        proof {
            assert(vars_view(resolved@).len() == 0);
        }
    }
    out
}

/// The type that substituting the variable map `vars` into the pattern `p`
/// at span `ps` gives: `None` where a variable is unbound, or where a tuple
/// element's variable is bound to a tuple.
pub open spec fn substituted<S>(
    ps: S,
    p: PatternModel<S, TypeTerm<usize>>,
    vars: Seq<VarModel<S>>,
) -> Option<(S, PatternModel<S, PrimitiveType>)> {
    match p {
        PatternModel::Leaf(AnyTerm::Variable(v)) => if binds(vars, v) {
            Some((ps, vars[bound_index(vars, v)].2))
        } else {
            None
        },
        PatternModel::Leaf(AnyTerm::Value(q)) => Some((ps, PatternModel::Leaf(q))),
        PatternModel::Tuple(ls) => if forall|i: int|
            0 <= i < ls.len() ==> element_resolves(#[trigger] ls[i], vars) {
            Some(
                (
                    ps,
                    PatternModel::Tuple(
                        ls.map_values(
                            |e: Spanned<S, TypeTerm<usize>>|
                                Spanned { span: e.span, inner: element_type(e, vars) },
                        ),
                    ),
                ),
            )
        } else {
            None
        },
    }
}

/// Whether a tuple element resolves to a primitive type under `vars`.
pub open spec fn element_resolves<S>(e: Spanned<S, TypeTerm<usize>>, vars: Seq<VarModel<S>>) -> bool {
    match e.inner {
        AnyTerm::Value(_) => true,
        AnyTerm::Variable(v) => binds(vars, v) && vars[bound_index(vars, v)].2 is Leaf,
    }
}

/// The primitive type that a tuple element resolves to under `vars`.
pub open spec fn element_type<S>(e: Spanned<S, TypeTerm<usize>>, vars: Seq<VarModel<S>>) -> PrimitiveType {
    match e.inner {
        AnyTerm::Value(q) => q,
        AnyTerm::Variable(v) => vars[bound_index(vars, v)].2->Leaf_0,
    }
}

impl<S: Copy> SpannedPattern<S, TypeTerm<usize>> {
    /// Substitutes the types of a variable map into this pattern.
    pub fn flat_quantify(&self, vars: &Vec<(usize, Type<S>)>) -> (r: Option<Type<S>>)
        requires
            unique_vars(vars_view(vars@)),
        ensures
            match substituted(self.span, self.inner@, vars_view(vars@)) {
                Some(m) => r is Some && r->Some_0.span == m.0 && r->Some_0.inner@ == m.1,
                None => r is None,
            },
    {
        let ghost vv = vars_view(vars@);
        match &self.inner {
            Pattern::Leaf(AnyTerm::Variable(v)) => match find_var(vars, *v) {
                Some(at) => {
                    let t = copy_type(&vars[at].1);
                    proof {
                        assert(vv[at as int] == var_of(vars@[at as int]));
                    }
                    Some(Spanned { span: self.span, inner: t.inner })
                },
                None => None,
            },
            Pattern::Leaf(AnyTerm::Value(q)) => Some(Spanned { span: self.span, inner: Pattern::Leaf(*q) }),
            Pattern::Tuple(ls) => {
                let ghost f = |e: Spanned<S, TypeTerm<usize>>|
                    Spanned { span: e.span, inner: element_type(e, vv) };
                let mut out: Vec<Spanned<S, PrimitiveType>> = Vec::new();
                let mut i: usize = 0;
                while i < ls.len()
                    invariant
                        self.inner@ == PatternModel::Tuple(ls@),
                        vv == vars_view(vars@),
                        unique_vars(vv),
                        i <= ls.len(),
                        forall|j: int| 0 <= j < i ==> element_resolves(#[trigger] ls@[j], vv),
                        out@ =~= ls@.take(i as int).map_values(f),
                        f == (|e: Spanned<S, TypeTerm<usize>>|
                            Spanned { span: e.span, inner: element_type(e, vv) }),
                    decreases ls.len() - i,
                {
                    let e = ls[i];
                    let prim = match e.inner {
                        AnyTerm::Value(q) => q,
                        AnyTerm::Variable(v) => match find_var(vars, v) {
                            Some(at) => {
                                proof {
                                    assert(vv[at as int] == var_of(vars@[at as int]));
                                }
                                match &vars[at].1.inner {
                                    Pattern::Leaf(q) => *q,
                                    Pattern::Tuple(_) => {
                                        proof {
                                            assert(!element_resolves(ls@[i as int], vv));
                                        }
                                        return None;
                                    },
                                }
                            },
                            None => {
                                proof {
                                    assert(!element_resolves(ls@[i as int], vv));
                                }
                                return None;
                            },
                        },
                    };
                    out.push(Spanned { span: e.span, inner: prim });
                    proof {
                        assert(ls@.take(i + 1) =~= ls@.take(i as int).push(ls@[i as int]));
                    }
                    i = i + 1;
                }
                proof {
                    assert(ls@.take(ls@.len() as int) =~= ls@);
                }
                Some(Spanned { span: self.span, inner: Pattern::Tuple(out) })
            },
        }
    }
}

} // verus!
