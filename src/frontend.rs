//! Whole-program type inference: relation types resolved from facts and
//! from heads, by rounds, to a fixed point.

use vstd::prelude::*;
use crate::node::ResourceId;
use crate::infer::{
    push_chars, push_type, shape_text, find_var, binds, bound_index, bindings_view, errors_view,
    unify_bindings, unify_errors, substituted, vars_view, BindingModel, ErrorModel, VarModel,
};
use crate::value::{type_of, PrimitiveType};
use crate::syntax::{
    copy_type, same_shape, shape, AnyTerm, Diagnostic, DiagnosticKind, InlayHint, Pattern,
    PatternModel, Spanned, SpannedPattern, Term, Type, TypeTerm,
};
use crate::items::{Atom, ModuleItem, Rule};
use crate::infer::{mismatch_text, expected_label_text, defined_label_text};
use crate::infer::{merge_var_types, merged, merged_vars_are_unique, rebinds, reversed, unique_vars};

verus! {

/// A type proposed for a relation.
pub type Proposal<S> = (ResourceId, Type<S>);

/// The model of a proposal: the relation, and the type's span and pattern.
pub type ProposalModel<S> = ((Seq<char>, Seq<char>), S, PatternModel<S, PrimitiveType>);

/// The model of a proposal.
pub open spec fn proposal_view<S>(p: Proposal<S>) -> ProposalModel<S> {
    (p.0@, p.1.span, p.1.inner@)
}

/// The models of a list of proposals.
pub open spec fn proposals_view<S>(s: Seq<Proposal<S>>) -> Seq<ProposalModel<S>> {
    s.map_values(|p: Proposal<S>| proposal_view(p))
}

/// Whether the table `m` holds a type for the relation `r`.
pub open spec fn has_relation<S>(m: Seq<ProposalModel<S>>, r: (Seq<char>, Seq<char>)) -> bool {
    exists|i: int| 0 <= i < m.len() && (#[trigger] m[i]).0 == r
}

/// The place of relation `r` in `m`.
pub open spec fn relation_index<S>(m: Seq<ProposalModel<S>>, r: (Seq<char>, Seq<char>)) -> int {
    choose|i: int| 0 <= i < m.len() && (#[trigger] m[i]).0 == r
}

/// Whether no relation appears twice in `m`.
pub open spec fn unique_relations<S>(m: Seq<ProposalModel<S>>) -> bool {
    forall|i: int, j: int| 0 <= i < j < m.len() ==> (#[trigger] m[i]).0 != (#[trigger] m[j]).0
}

/// The canonical types of a list of proposals: for each relation, its
/// first proposal, in order of first proposal.
pub open spec fn canonical<S>(s: Seq<ProposalModel<S>>) -> Seq<ProposalModel<S>>
    decreases s.len(),
{
    if s.len() == 0 {
        Seq::empty()
    } else {
        let m = canonical(s.drop_last());
        if has_relation(m, s.last().0) {
            m
        } else {
            m.push(s.last())
        }
    }
}

/// The proposals that disagree in shape with the canonical type of their
/// relation, in order: each gets one error.
pub open spec fn disagreements<S>(s: Seq<ProposalModel<S>>) -> Seq<ProposalModel<S>>
    decreases s.len(),
{
    if s.len() == 0 {
        Seq::empty()
    } else {
        let m = canonical(s.drop_last());
        let r = s.last().0;
        disagreements(s.drop_last()) + if has_relation(m, r) && shape(m[relation_index(m, r)].2)
            != shape(s.last().2) {
            seq![s.last()]
        } else {
            Seq::empty()
        }
    }
}

/// A table of canonical types never holds a relation twice.
pub proof fn canonical_relations_are_unique<S>(s: Seq<ProposalModel<S>>)
    ensures
        unique_relations(canonical(s)),
    decreases s.len(),
{
    if s.len() > 0 {
        canonical_relations_are_unique(s.drop_last());
    }
}

/// Proposals for other relations, before or after, change nothing of a
/// relation's canonical type: whether it has one, and which.
pub proof fn canonical_type_ignores_other_relations<S>(
    s: Seq<ProposalModel<S>>,
    others: Seq<ProposalModel<S>>,
    r: (Seq<char>, Seq<char>),
)
    requires
        forall|i: int| 0 <= i < others.len() ==> (#[trigger] others[i]).0 != r,
    ensures
        has_relation(canonical(s + others), r) == has_relation(canonical(s), r),
        has_relation(canonical(s), r) ==> canonical(s + others)[relation_index(
            canonical(s + others),
            r,
        )] == canonical(s)[relation_index(canonical(s), r)],
    decreases others.len(),
{
    canonical_relations_are_unique(s);
    canonical_relations_are_unique(s + others);
    if others.len() == 0 {
        assert(s + others =~= s);
    } else {
        let shorter = others.drop_last();
        assert forall|i: int| 0 <= i < shorter.len() implies (#[trigger] shorter[i]).0 != r by {
            assert(shorter[i] == others[i]);
        }
        canonical_type_ignores_other_relations(s, shorter, r);
        assert((s + others).drop_last() =~= s + shorter);
        assert((s + others).last() == others.last());
        canonical_relations_are_unique(s + shorter);
        let m = canonical(s + shorter);
        let m2 = canonical(s + others);
        if has_relation(m, r) {
            let k = relation_index(m, r);
            if m2 != m {
                assert(m2 == m.push(others.last()));
                assert(m2[k] == m[k]);
                let k2 = relation_index(m2, r);
                if k2 != k {
                    if k2 < k {
                        assert(m2[k2].0 != m2[k].0);
                    } else {
                        assert(m2[k].0 != m2[k2].0);
                    }
                }
            }
        } else {
            if m2 != m {
                assert(m2 == m.push(others.last()));
                if has_relation(m2, r) {
                    let k2 = relation_index(m2, r);
                    if k2 < m.len() {
                        assert(m2[k2] == m[k2]);
                    }
                }
            }
        }
    }
}

/// Finds where relation `r` stands in `m`.
pub fn find_relation<S>(m: &Vec<Proposal<S>>, r: &ResourceId) -> (out: Option<usize>)
    requires
        unique_relations(proposals_view(m@)),
    ensures
        out.is_some() == has_relation(proposals_view(m@), r@),
        out.is_some() ==> out.unwrap() == relation_index(proposals_view(m@), r@),
{
    let ghost mv = proposals_view(m@);
    let mut i: usize = 0;
    while i < m.len()
        invariant
            i <= m.len(),
            mv == proposals_view(m@),
            unique_relations(mv),
            forall|j: int| 0 <= j < i ==> (#[trigger] mv[j]).0 != r@,
        decreases m.len() - i,
    {
        proof {
            assert(mv[i as int] == proposal_view(m@[i as int]));
        }
        if m[i].0.same(r) {
            proof {
                let k = relation_index(mv, r@);
                assert(0 <= k < mv.len() && mv[k].0 == r@);
                if k > i {
                    assert(mv[i as int].0 != mv[k].0);
                }
            }
            return Some(i);
        }
        i = i + 1;
    }
    None
}

/// A copy of a proposal.
pub fn copy_proposal<S: Copy>(p: &Proposal<S>) -> (r: Proposal<S>)
    ensures
        proposal_view(r) == proposal_view(*p),
{
    (p.0.duplicate(), copy_type(&p.1))
}

/// Resolves the proposed types of every relation at once: the first
/// proposal for each relation is its type, and each later proposal for it
/// of another shape gets an error at that proposal, with labels on both.
pub fn resolve_relation_types<S: Copy>(proposals: &Vec<Proposal<S>>) -> (r: (
    Vec<Proposal<S>>,
    Vec<Diagnostic<S>>,
))
    ensures
        proposals_view(r.0@) == canonical(proposals_view(proposals@)),
        r.1@.len() == disagreements(proposals_view(proposals@)).len(),
        forall|i: int|
            0 <= i < r.1@.len() ==> {
                let d = disagreements(proposals_view(proposals@))[i];
                let c = canonical(proposals_view(proposals@));
                let first = c[relation_index(c, d.0)];
                &&& (#[trigger] r.1@[i]).span == d.1
                &&& r.1@[i].kind == DiagnosticKind::Error
                &&& r.1@[i].message@ == mismatch_text(shape(first.2), shape(d.2))
                &&& r.1@[i].labels@.len() == 2
                &&& r.1@[i].labels@[0].span == first.1
                &&& r.1@[i].labels@[0].inner@ == expected_label_text(shape(first.2))
                &&& r.1@[i].labels@[1].span == d.1
                &&& r.1@[i].labels@[1].inner@ == defined_label_text(shape(d.2))
            },
{
    let ghost all = proposals_view(proposals@);
    let mut table: Vec<Proposal<S>> = Vec::new();
    let mut out: Vec<Diagnostic<S>> = Vec::new();
    let mut done: usize = 0;
    while done < proposals.len()
        invariant
            done <= proposals.len(),
            all == proposals_view(proposals@),
            proposals_view(table@) == canonical(all.take(done as int)),
            out@.len() == disagreements(all.take(done as int)).len(),
            forall|i: int|
                0 <= i < out@.len() ==> {
                    let d = disagreements(all.take(done as int))[i];
                    let c = canonical(all.take(done as int));
                    let first = c[relation_index(c, d.0)];
                    &&& (#[trigger] out@[i]).span == d.1
                    &&& out@[i].kind == DiagnosticKind::Error
                    &&& out@[i].message@ == mismatch_text(shape(first.2), shape(d.2))
                    &&& out@[i].labels@.len() == 2
                    &&& out@[i].labels@[0].span == first.1
                    &&& out@[i].labels@[0].inner@ == expected_label_text(shape(first.2))
                    &&& out@[i].labels@[1].span == d.1
                    &&& out@[i].labels@[1].inner@ == defined_label_text(shape(d.2))
                },
            forall|i: int|
                0 <= i < out@.len() ==> has_relation(
                    canonical(all.take(done as int)),
                    (#[trigger] disagreements(all.take(done as int))[i]).0,
                ),
        decreases proposals.len() - done,
    {
        let p = &proposals[done];
        let ghost before = out@;
        let ghost x = all[done as int];
        proof {
            assert(x == proposal_view(*p));
            assert(all.take(done + 1).drop_last() =~= all.take(done as int));
            assert(all.take(done + 1).last() == x);
            assert(all.take(done + 1) =~= all.take(done as int) + seq![x]);
            canonical_relations_are_unique(all.take(done as int));
            assert forall|i: int| 0 <= i < before.len() implies {
                let d = #[trigger] disagreements(all.take(done as int))[i];
                &&& has_relation(canonical(all.take(done + 1)), d.0)
                &&& canonical(all.take(done + 1))[relation_index(canonical(all.take(done + 1)), d.0)]
                    == canonical(all.take(done as int))[relation_index(canonical(all.take(done as int)), d.0)]
            } by {
                let d = disagreements(all.take(done as int))[i];
                canonical_type_is_kept(all.take(done as int), seq![x], d.0);
            }
        }
        match find_relation(&table, &p.0) {
            None => {
                let c = copy_proposal(p);
                let ghost tv = proposals_view(table@);
                table.push(c);
                proof {
                    assert(proposals_view(table@) =~= tv.push(x));
                    assert(disagreements(all.take(done + 1)) =~= disagreements(all.take(done as int)));
                }
            },
            Some(at) => {
                proof {
                    assert(proposals_view(table@)[at as int] == proposal_view(table@[at as int]));
                }
                if !same_shape(&table[at].1.inner, &p.1.inner) {
                    let mut message = String::new();
                    push_chars(&mut message, "Expected ");
                    push_type(&mut message, &table[at].1.inner);
                    push_chars(&mut message, ", got ");
                    push_type(&mut message, &p.1.inner);
                    proof {
                        reveal_strlit("Expected ");
                        reveal_strlit(", got ");
                        assert(message@ =~= mismatch_text(shape(table@[at as int].1.inner@), shape(p.1.inner@)));
                    }
                    let labels = crate::infer::mismatch_labels(&table[at].1, &p.1);
                    out.push(Diagnostic { span: p.1.span, kind: DiagnosticKind::Error, message, labels });
                    proof {
                        assert(disagreements(all.take(done + 1)) =~= disagreements(
                            all.take(done as int),
                        ).push(x));
                        assert forall|i: int| 0 <= i < out@.len() implies {
                            let d = disagreements(all.take(done + 1))[i];
                            let c = canonical(all.take(done + 1));
                            let first = c[relation_index(c, d.0)];
                            &&& (#[trigger] out@[i]).span == d.1
                            &&& out@[i].kind == DiagnosticKind::Error
                            &&& out@[i].message@ == mismatch_text(shape(first.2), shape(d.2))
                            &&& out@[i].labels@.len() == 2
                            &&& out@[i].labels@[0].span == first.1
                            &&& out@[i].labels@[0].inner@ == expected_label_text(shape(first.2))
                            &&& out@[i].labels@[1].span == d.1
                            &&& out@[i].labels@[1].inner@ == defined_label_text(shape(d.2))
                        } by {
                            if i < before.len() {
                                assert(out@[i] == before[i]);
                                assert(disagreements(all.take(done + 1))[i] == disagreements(all.take(done as int))[i]);
                            } else {
                                assert(canonical(all.take(done + 1)) == canonical(all.take(done as int)));
                            }
                        }
                        assert forall|i: int| 0 <= i < out@.len() implies has_relation(
                            canonical(all.take(done + 1)),
                            (#[trigger] disagreements(all.take(done + 1))[i]).0,
                        ) by {
                            if i < before.len() {
                                assert(disagreements(all.take(done + 1))[i] == disagreements(all.take(done as int))[i]);
                            }
                        }
                    }
                } else {
                    proof {
                        assert(disagreements(all.take(done + 1)) =~= disagreements(all.take(done as int)));
                    }
                }
            },
        }
        done = done + 1;
    }
    proof {
        assert(all.take(all.len() as int) =~= all);
    }
    (table, out)
}

/// Once a relation has a canonical type, later proposals do not change it.
pub proof fn canonical_type_is_kept<S>(
    s: Seq<ProposalModel<S>>,
    later: Seq<ProposalModel<S>>,
    r: (Seq<char>, Seq<char>),
)
    requires
        has_relation(canonical(s), r),
    ensures
        has_relation(canonical(s + later), r),
        canonical(s + later)[relation_index(canonical(s + later), r)] == canonical(s)[relation_index(
            canonical(s),
            r,
        )],
    decreases later.len(),
{
    canonical_relations_are_unique(s);
    canonical_relations_are_unique(s + later);
    if later.len() == 0 {
        assert(s + later =~= s);
    } else {
        let shorter = later.drop_last();
        canonical_type_is_kept(s, shorter, r);
        assert((s + later).drop_last() =~= s + shorter);
        canonical_relations_are_unique(s + shorter);
        let m = canonical(s + shorter);
        let m2 = canonical(s + later);
        let k = relation_index(m, r);
        if m2 != m {
            assert(m2 == m.push((s + later).last()));
            assert(m2[k] == m[k]);
            let k2 = relation_index(m2, r);
            if k2 != k {
                if k2 < k {
                    assert(m2[k2].0 != m2[k].0);
                } else {
                    assert(m2[k].0 != m2[k2].0);
                }
            }
        }
    }
}

/// A module item whose variables are numbered, with the names and spans of
/// those variables, and the document it comes from.
pub struct IndexedItem<S, R> {
    pub url: String,
    pub variables: Vec<Spanned<S, String>>,
    pub inner: ModuleItem<S, R, usize>,
}

/// The pattern of primitive types that a pattern of values has.
pub open spec fn value_types<S>(p: PatternModel<S, Term<usize>>) -> PatternModel<S, PrimitiveType> {
    match p {
        PatternModel::Leaf(t) => PatternModel::Leaf(type_of(t->Value_0@)),
        PatternModel::Tuple(els) => PatternModel::Tuple(
            els.map_values(
                |e: Spanned<S, Term<usize>>| Spanned { span: e.span, inner: type_of(e.inner->Value_0@) },
            ),
        ),
    }
}

/// Whether a pattern holds values only.
pub open spec fn only_values<S>(p: PatternModel<S, Term<usize>>) -> bool {
    match p {
        PatternModel::Leaf(t) => t is Value,
        PatternModel::Tuple(els) => forall|i: int| 0 <= i < els.len() ==> (#[trigger] els[i]).inner is Value,
    }
}

/// The term of a type pattern that a term of a value pattern gives: the
/// variable itself, or the value's type.
pub open spec fn term_type(t: Term<usize>) -> TypeTerm<usize> {
    match t {
        AnyTerm::Variable(v) => AnyTerm::Variable(v),
        AnyTerm::Value(x) => AnyTerm::Value(type_of(x@)),
    }
}

/// The type pattern of a value pattern: variables stay, values become types.
pub open spec fn pattern_type<S>(p: PatternModel<S, Term<usize>>) -> PatternModel<S, TypeTerm<usize>> {
    match p {
        PatternModel::Leaf(t) => PatternModel::Leaf(term_type(t)),
        PatternModel::Tuple(els) => PatternModel::Tuple(
            els.map_values(|e: Spanned<S, Term<usize>>| Spanned { span: e.span, inner: term_type(e.inner) }),
        ),
    }
}

/// The rule of an item that is a rule or a decision.
pub open spec fn item_rule<S, R>(item: ModuleItem<S, R, usize>) -> Option<Rule<S, R, usize>> {
    match item {
        ModuleItem::Rule(r) => Some(r),
        ModuleItem::Decision(d) => Some(d.0),
        _ => None,
    }
}

/// The type that an item proposes as a fact: a rule or decision with no
/// body whose head holds values only.
pub open spec fn fact_type<S>(item: IndexedItem<S, ResourceId>) -> Option<ProposalModel<S>> {
    match item_rule(item.inner) {
        Some(rule) => if rule.body@.len() == 0 && only_values(rule.head.inner.pattern.inner@) {
            Some(
                (
                    rule.head.inner.relation.inner@,
                    rule.head.span,
                    value_types(rule.head.inner.pattern.inner@),
                ),
            )
        } else {
            None
        },
        None => None,
    }
}

/// The fact types of a list of items, in order.
pub open spec fn fact_types<S>(items: Seq<IndexedItem<S, ResourceId>>) -> Seq<ProposalModel<S>>
    decreases items.len(),
{
    if items.len() == 0 {
        Seq::empty()
    } else {
        fact_types(items.drop_last()) + match fact_type(items.last()) {
            Some(p) => seq![p],
            None => Seq::empty(),
        }
    }
}

/// The type pattern of a value pattern.
pub fn type_terms<S: Copy>(p: &SpannedPattern<S, Term<usize>>) -> (r: SpannedPattern<S, TypeTerm<usize>>)
    ensures
        r.span == p.span,
        r.inner@ == pattern_type(p.inner@),
{
    let inner = match &p.inner {
        Pattern::Leaf(t) => Pattern::Leaf(
            match t {
                AnyTerm::Variable(v) => AnyTerm::Variable(*v),
                AnyTerm::Value(x) => AnyTerm::Value(x.ty()),
            },
        ),
        Pattern::Tuple(els) => {
            let mut out: Vec<Spanned<S, TypeTerm<usize>>> = Vec::new();
            let mut i: usize = 0;
            while i < els.len()
                invariant
                    i <= els.len(),
                    out@ =~= els@.take(i as int).map_values(
                        |e: Spanned<S, Term<usize>>| Spanned { span: e.span, inner: term_type(e.inner) },
                    ),
                decreases els.len() - i,
            {
                let t = match &els[i].inner {
                    AnyTerm::Variable(v) => AnyTerm::Variable(*v),
                    AnyTerm::Value(x) => AnyTerm::Value(x.ty()),
                };
                out.push(Spanned { span: els[i].span, inner: t });
                proof {
                    assert(els@.take(i + 1) =~= els@.take(i as int).push(els@[i as int]));
                }
                i = i + 1;
            }
            proof {
                assert(els@.take(els@.len() as int) =~= els@);
            }
            Pattern::Tuple(out)
        },
    };
    Spanned { span: p.span, inner }
}

impl<S: Copy> IndexedItem<S, ResourceId> {
    /// The rule of this item, if it is a rule or a decision.
    pub fn rule_or_decision(&self) -> (r: Option<&Rule<S, ResourceId, usize>>)
        ensures
            r is Some <==> item_rule(self.inner) is Some,
            r is Some ==> *r->Some_0 == item_rule(self.inner)->Some_0,
    {
        match &self.inner {
            ModuleItem::Rule(rule) => Some(rule),
            ModuleItem::Decision(d) => Some(&d.0),
            _ => None,
        }
    }

    /// The type this item proposes as a fact, if it is one.
    pub fn base_type(&self) -> (r: Option<Proposal<S>>)
        ensures
            match fact_type(*self) {
                Some(p) => r is Some && proposal_view(r->Some_0) == p,
                None => r is None,
            },
    {
        let rule = match self.rule_or_decision() {
            Some(rule) => rule,
            None => return None,
        };
        if rule.body.len() > 0 {
            return None;
        }
        let relation = rule.head.inner.relation.inner.duplicate();
        let span = rule.head.span;
        match &rule.head.inner.pattern.inner {
            Pattern::Leaf(AnyTerm::Value(v)) => Some((relation, Spanned { span, inner: Pattern::Leaf(v.ty()) })),
            Pattern::Leaf(AnyTerm::Variable(_)) => None,
            Pattern::Tuple(els) => {
                let ghost f = |e: Spanned<S, Term<usize>>| Spanned { span: e.span, inner: type_of(e.inner->Value_0@) };
                let mut out: Vec<Spanned<S, PrimitiveType>> = Vec::new();
                let mut i: usize = 0;
                while i < els.len()
                    invariant
                        i <= els.len(),
                        rule.head.inner.pattern.inner@ == PatternModel::<S, Term<usize>>::Tuple(els@),
                        item_rule(self.inner) is Some,
                        *rule == item_rule(self.inner)->Some_0,
                        rule.body@.len() == 0,
                        forall|j: int| 0 <= j < i ==> (#[trigger] els@[j]).inner is Value,
                        out@ =~= els@.take(i as int).map_values(f),
                        f == (|e: Spanned<S, Term<usize>>| Spanned { span: e.span, inner: type_of(e.inner->Value_0@) }),
                    decreases els.len() - i,
                {
                    match &els[i].inner {
                        AnyTerm::Value(v) => out.push(Spanned { span: els[i].span, inner: v.ty() }),
                        AnyTerm::Variable(_) => {
                            proof {
                                assert(!(els@[i as int].inner is Value));
                            }
                            return None;
                        },
                    }
                    proof {
                        assert(els@.take(i + 1) =~= els@.take(i as int).push(els@[i as int]));
                    }
                    i = i + 1;
                }
                proof {
                    assert(els@.take(els@.len() as int) =~= els@);
                }
                Some((relation, Spanned { span, inner: Pattern::Tuple(out) }))
            },
        }
    }

    /// The relation and type pattern of the head, for a rule or decision with a body.
    pub fn head_type(&self) -> (r: Option<(ResourceId, SpannedPattern<S, TypeTerm<usize>>)>)
        ensures
            match item_rule(self.inner) {
                Some(rule) => if rule.body@.len() > 0 {
                    &&& r is Some
                    &&& r->Some_0.0@ == rule.head.inner.relation.inner@
                    &&& r->Some_0.1.span == rule.head.inner.pattern.span
                    &&& r->Some_0.1.inner@ == pattern_type(rule.head.inner.pattern.inner@)
                } else {
                    r is None
                },
                None => r is None,
            },
    {
        let rule = match self.rule_or_decision() {
            Some(rule) => rule,
            None => return None,
        };
        if rule.body.len() == 0 {
            return None;
        }
        Some((rule.head.inner.relation.inner.duplicate(), type_terms(&rule.head.inner.pattern)))
    }

    /// The relation and type pattern of every body atom.
    pub fn body_types(&self) -> (r: Vec<(ResourceId, SpannedPattern<S, TypeTerm<usize>>)>)
        ensures
            ({
                let body = match self.inner {
                    ModuleItem::Rule(x) => x.body@,
                    ModuleItem::Decision(x) => x.0.body@,
                    ModuleItem::Constraint(x) => x.body@,
                    ModuleItem::Diagnostic(_) => Seq::empty(),
                };
                &&& r@.len() == body.len()
                &&& forall|i: int|
                    0 <= i < body.len() ==> {
                        &&& (#[trigger] r@[i]).0@ == body[i].inner.relation.inner@
                        &&& r@[i].1.span == body[i].inner.pattern.span
                        &&& r@[i].1.inner@ == pattern_type(body[i].inner.pattern.inner@)
                    }
            }),
    {
        let body = match &self.inner {
            ModuleItem::Rule(x) => &x.body,
            ModuleItem::Decision(x) => &x.0.body,
            ModuleItem::Constraint(x) => &x.body,
            ModuleItem::Diagnostic(_) => return Vec::new(),
        };
        let mut out: Vec<(ResourceId, SpannedPattern<S, TypeTerm<usize>>)> = Vec::new();
        let mut i: usize = 0;
        while i < body.len()
            invariant
                i <= body.len(),
                out@.len() == i,
                forall|j: int|
                    0 <= j < i ==> {
                        &&& (#[trigger] out@[j]).0@ == body@[j].inner.relation.inner@
                        &&& out@[j].1.span == body@[j].inner.pattern.span
                        &&& out@[j].1.inner@ == pattern_type(body@[j].inner.pattern.inner@)
                    },
            decreases body.len() - i,
        {
            out.push((body[i].inner.relation.inner.duplicate(), type_terms(&body[i].inner.pattern)));
            i = i + 1;
        }
        out
    }
}

/// The fact types of a list of items.
pub fn fact_proposals<S: Copy>(items: &Vec<IndexedItem<S, ResourceId>>) -> (r: Vec<Proposal<S>>)
    ensures
        proposals_view(r@) == fact_types(items@),
{
    let mut out: Vec<Proposal<S>> = Vec::new();
    let mut i: usize = 0;
    while i < items.len()
        invariant
            i <= items.len(),
            proposals_view(out@) == fact_types(items@.take(i as int)),
        decreases items.len() - i,
    {
        proof {
            assert(items@.take(i + 1).drop_last() =~= items@.take(i as int));
            assert(items@.take(i + 1).last() == items@[i as int]);
        }
        let ghost before = out@;
        match items[i].base_type() {
            Some(p) => {
                out.push(p);
                proof {
                    assert(proposals_view(out@) =~= proposals_view(before).push(proposal_view(p)));
                    assert(fact_types(items@.take(i + 1)) =~= fact_types(items@.take(i as int)).push(
                        proposal_view(p),
                    ));
                }
            },
            None => {
                proof {
                    assert(fact_types(items@.take(i + 1)) =~= fact_types(items@.take(i as int)));
                }
            },
        }
        i = i + 1;
    }
    proof {
        assert(items@.take(items@.len() as int) =~= items@);
    }
    out
}

/// A copy of a list of proposals.
pub fn copy_proposals<S: Copy>(v: &Vec<Proposal<S>>) -> (r: Vec<Proposal<S>>)
    ensures
        proposals_view(r@) == proposals_view(v@),
        r@.len() == v@.len(),
{
    let mut out: Vec<Proposal<S>> = Vec::new();
    let mut i: usize = 0;
    while i < v.len()
        invariant
            i <= v.len(),
            proposals_view(out@) =~= proposals_view(v@).take(i as int),
        decreases v.len() - i,
    {
        let c = copy_proposal(&v[i]);
        let ghost before = out@;
        out.push(c);
        proof {
            assert(proposals_view(out@) =~= proposals_view(before).push(proposal_view(c)));
        }
        i = i + 1;
    }
    proof {
        assert(proposals_view(v@).take(v@.len() as int) =~= proposals_view(v@));
        assert(proposals_view(out@).len() == out@.len());
    }
    out
}

/// Whether two lists of proposals name the same relations with types of
/// the same shapes, in the same order.
pub open spec fn agree<S>(a: Seq<ProposalModel<S>>, b: Seq<ProposalModel<S>>) -> bool {
    &&& a.len() == b.len()
    &&& forall|i: int| 0 <= i < a.len() ==> (#[trigger] a[i]).0 == b[i].0 && shape(a[i].2) == shape(b[i].2)
}

/// Whether two lists of proposals agree.
fn proposals_agree<S>(a: &Vec<Proposal<S>>, b: &Vec<Proposal<S>>) -> (r: bool)
    ensures
        r == agree(proposals_view(a@), proposals_view(b@)),
{
    if a.len() != b.len() {
        return false;
    }
    let mut i: usize = 0;
    while i < a.len()
        invariant
            a.len() == b.len(),
            i <= a.len(),
            forall|j: int|
                0 <= j < i ==> (#[trigger] proposals_view(a@)[j]).0 == proposals_view(b@)[j].0 && shape(
                    proposals_view(a@)[j].2,
                ) == shape(proposals_view(b@)[j].2),
        decreases a.len() - i,
    {
        proof {
            assert(proposals_view(a@)[i as int] == proposal_view(a@[i as int]));
            assert(proposals_view(b@)[i as int] == proposal_view(b@[i as int]));
        }
        if !a[i].0.same(&b[i].0) || !same_shape(&a[i].1.inner, &b[i].1.inner) {
            return false;
        }
        i = i + 1;
    }
    true
}

/// The model of a body atom: its relation, and its pattern's span and type pattern.
pub type AtomModel<S> = ((Seq<char>, Seq<char>), S, PatternModel<S, TypeTerm<usize>>);

/// The model of an atom.
pub open spec fn atom_model<S>(a: Spanned<S, Atom<S, ResourceId, Term<usize>>>) -> AtomModel<S> {
    (a.inner.relation.inner@, a.inner.pattern.span, pattern_type(a.inner.pattern.inner@))
}

/// The body atoms of an item.
pub open spec fn item_body<S, R>(inner: ModuleItem<S, R, usize>) -> Seq<Spanned<S, Atom<S, R, Term<usize>>>> {
    match inner {
        ModuleItem::Rule(x) => x.body@,
        ModuleItem::Decision(x) => x.0.body@,
        ModuleItem::Constraint(x) => x.body@,
        ModuleItem::Diagnostic(_) => Seq::empty(),
    }
}

/// The models of an item's body atoms.
pub open spec fn body_models<S>(item: IndexedItem<S, ResourceId>) -> Seq<AtomModel<S>> {
    item_body(item.inner).map_values(|a: Spanned<S, Atom<S, ResourceId, Term<usize>>>| atom_model(a))
}

/// The model of the head of a rule or decision with a body.
pub open spec fn head_model<S>(item: IndexedItem<S, ResourceId>) -> Option<AtomModel<S>> {
    match item_rule(item.inner) {
        Some(rule) => if rule.body@.len() > 0 {
            Some(atom_model(rule.head))
        } else {
            None
        },
        None => None,
    }
}

/// The bindings that unifying one body atom with its relation's type in
/// `types` gives; none if the relation has no type yet.
pub open spec fn atom_bindings<S>(types: Seq<ProposalModel<S>>, a: AtomModel<S>) -> Seq<BindingModel<S>> {
    if has_relation(types, a.0) {
        let t = types[relation_index(types, a.0)];
        unify_bindings(a.1, a.2, t.1, t.2)
    } else {
        Seq::empty()
    }
}

/// The errors that unifying one body atom with its relation's type gives.
pub open spec fn atom_errors<S>(types: Seq<ProposalModel<S>>, a: AtomModel<S>) -> Seq<ErrorModel<S>> {
    if has_relation(types, a.0) {
        let t = types[relation_index(types, a.0)];
        unify_errors(a.2, t.1, t.2)
    } else {
        Seq::empty()
    }
}

/// The bindings of a list of body atoms, atom by atom.
pub open spec fn body_bindings<S>(types: Seq<ProposalModel<S>>, atoms: Seq<AtomModel<S>>) -> Seq<BindingModel<S>>
    decreases atoms.len(),
{
    if atoms.len() == 0 {
        Seq::empty()
    } else {
        body_bindings(types, atoms.drop_last()) + atom_bindings(types, atoms.last())
    }
}

/// The unification errors of a list of body atoms, atom by atom.
pub open spec fn body_errors<S>(types: Seq<ProposalModel<S>>, atoms: Seq<AtomModel<S>>) -> Seq<ErrorModel<S>>
    decreases atoms.len(),
{
    if atoms.len() == 0 {
        Seq::empty()
    } else {
        body_errors(types, atoms.drop_last()) + atom_errors(types, atoms.last())
    }
}

/// The bindings that one round gives an item.
pub open spec fn round_bindings<S>(types: Seq<ProposalModel<S>>, item: IndexedItem<S, ResourceId>) -> Seq<BindingModel<S>> {
    body_bindings(types, body_models(item))
}

/// The proposal that one round derives from an item: where its merged
/// bindings are not empty and its head substitutes under them, the head's
/// relation with the substituted type.
pub open spec fn item_derived<S>(types: Seq<ProposalModel<S>>, item: IndexedItem<S, ResourceId>) -> Seq<ProposalModel<S>> {
    let m = merged(round_bindings(types, item));
    if m.len() > 0 {
        match head_model(item) {
            Some(h) => match substituted(h.1, h.2, m) {
                Some(t) => seq![(h.0, t.0, t.1)],
                None => Seq::empty(),
            },
            None => Seq::empty(),
        }
    } else {
        Seq::empty()
    }
}

/// The proposals that one round derives from the items, in item order.
pub open spec fn derived<S>(items: Seq<IndexedItem<S, ResourceId>>, types: Seq<ProposalModel<S>>) -> Seq<ProposalModel<S>>
    decreases items.len(),
{
    if items.len() == 0 {
        Seq::empty()
    } else {
        derived(items.drop_last(), types) + item_derived(types, items.last())
    }
}

/// The variable maps of one round: for each item whose merged bindings are
/// not empty, its place and that map, in item order.
pub open spec fn var_maps<S>(items: Seq<IndexedItem<S, ResourceId>>, types: Seq<ProposalModel<S>>) -> Seq<(usize, Seq<VarModel<S>>)>
    decreases items.len(),
{
    if items.len() == 0 {
        Seq::empty()
    } else {
        let m = merged(round_bindings(types, items.last()));
        var_maps(items.drop_last(), types) + if m.len() > 0 {
            seq![(((items.len() - 1) as usize), m)]
        } else {
            Seq::empty()
        }
    }
}

/// The errors of one round: for each item, its unification errors, then
/// the errors for its conflicting rebindings.
pub open spec fn round_errors<S>(items: Seq<IndexedItem<S, ResourceId>>, types: Seq<ProposalModel<S>>) -> Seq<ErrorModel<S>>
    decreases items.len(),
{
    if items.len() == 0 {
        Seq::empty()
    } else {
        round_errors(items.drop_last(), types) + body_errors(types, body_models(items.last())) + rebinds(
            round_bindings(types, items.last()),
        )
    }
}

/// The models of a list of variable maps.
pub open spec fn var_maps_view<S>(v: Seq<(usize, Vec<(usize, Type<S>)>)>) -> Seq<(usize, Seq<VarModel<S>>)> {
    v.map_values(|e: (usize, Vec<(usize, Type<S>)>)| (e.0, vars_view(e.1@)))
}

/// One round of inference from the relation types `types`: each item's
/// body atoms are unified with the types of their relations, the bindings
/// of each item are merged into its variable map, and each head with a
/// body takes its variables' types into a new proposal. The proposals of
/// the next round are the fact types `base`, then those new proposals.
pub fn derive_types<S: Copy>(
    items: &Vec<IndexedItem<S, ResourceId>>,
    types: &Vec<Proposal<S>>,
    base: &Vec<Proposal<S>>,
) -> (r: (Vec<Proposal<S>>, Vec<Diagnostic<S>>, Vec<(usize, Vec<(usize, Type<S>)>)>))
    requires
        unique_relations(proposals_view(types@)),
    ensures
        proposals_view(r.0@) == proposals_view(base@) + derived(items@, proposals_view(types@)),
        errors_view(r.1@) == round_errors(items@, proposals_view(types@)),
        forall|i: int| 0 <= i < r.1@.len() ==> (#[trigger] r.1@[i]).kind == DiagnosticKind::Error,
        var_maps_view(r.2@) == var_maps(items@, proposals_view(types@)),
        forall|i: int|
            0 <= i < r.2@.len() ==> (#[trigger] r.2@[i]).0 < items@.len() && unique_vars(vars_view(r.2@[i].1@)),
{
    let ghost tm = proposals_view(types@);
    let mut next = copy_proposals(base);
    let mut diagnostics: Vec<Diagnostic<S>> = Vec::new();
    let mut var_types: Vec<(usize, Vec<(usize, Type<S>)>)> = Vec::new();
    let mut idx: usize = 0;
    proof {
        assert(proposals_view(next@) =~= proposals_view(base@) + derived(items@.take(0), tm));
        assert(errors_view(diagnostics@) =~= round_errors(items@.take(0), tm));
        assert(var_maps_view(var_types@) =~= var_maps(items@.take(0), tm));
    }
    while idx < items.len()
        invariant
            idx <= items.len(),
            tm == proposals_view(types@),
            unique_relations(tm),
            proposals_view(next@) == proposals_view(base@) + derived(items@.take(idx as int), tm),
            errors_view(diagnostics@) == round_errors(items@.take(idx as int), tm),
            forall|i: int| 0 <= i < diagnostics@.len() ==> (#[trigger] diagnostics@[i]).kind == DiagnosticKind::Error,
            var_maps_view(var_types@) == var_maps(items@.take(idx as int), tm),
            forall|i: int|
                0 <= i < var_types@.len() ==> (#[trigger] var_types@[i]).0 < items@.len() && unique_vars(
                    vars_view(var_types@[i].1@),
                ),
        decreases items.len() - idx,
    {
        let item = &items[idx];
        let ghost it = items@[idx as int];
        let ghost atoms = body_models(it);
        proof {
            assert(items@.take(idx + 1).drop_last() =~= items@.take(idx as int));
            assert(items@.take(idx + 1).last() == it);
        }
        let body = item.body_types();
        let ghost e0 = errors_view(diagnostics@);
        let ghost d0 = diagnostics@;
        let mut bindings: Vec<(Spanned<S, usize>, Type<S>)> = Vec::new();
        let mut j: usize = 0;
        proof {
            assert(atoms.len() == body@.len());
            assert(bindings_view(bindings@) =~= body_bindings(tm, atoms.take(0)));
            assert(errors_view(diagnostics@) =~= e0 + body_errors(tm, atoms.take(0)));
        }
        while j < body.len()
            invariant
                j <= body.len(),
                tm == proposals_view(types@),
                unique_relations(tm),
                atoms == body_models(it),
                atoms.len() == body@.len(),
                forall|k: int|
                    0 <= k < atoms.len() ==> (#[trigger] atoms[k]) == ((body@[k].0@, body@[k].1.span, body@[k].1.inner@)),
                bindings_view(bindings@) == body_bindings(tm, atoms.take(j as int)),
                errors_view(diagnostics@) == e0 + body_errors(tm, atoms.take(j as int)),
                d0.len() <= diagnostics@.len(),
                forall|i: int| 0 <= i < d0.len() ==> diagnostics@[i] == d0[i],
                forall|i: int| 0 <= i < diagnostics@.len() ==> (#[trigger] diagnostics@[i]).kind == DiagnosticKind::Error,
            decreases body.len() - j,
        {
            let ghost a = atoms[j as int];
            let ghost bb = bindings_view(bindings@);
            let ghost ee = errors_view(diagnostics@);
            proof {
                assert(atoms.take(j + 1).drop_last() =~= atoms.take(j as int));
                assert(atoms.take(j + 1).last() == a);
            }
            match find_relation(types, &body[j].0) {
                Some(at) => {
                    proof {
                        assert(tm[at as int] == proposal_view(types@[at as int]));
                    }
                    body[j].1.unify_inner(&types[at].1, &mut diagnostics, &mut bindings);
                    proof {
                        assert(body_bindings(tm, atoms.take(j + 1)) =~= bb + atom_bindings(tm, a));
                        assert(e0 + body_errors(tm, atoms.take(j + 1)) =~= ee + atom_errors(tm, a));
                    }
                },
                None => {
                    proof {
                        assert(body_bindings(tm, atoms.take(j + 1)) =~= bb);
                        assert(e0 + body_errors(tm, atoms.take(j + 1)) =~= ee);
                    }
                },
            }
            j = j + 1;
        }
        proof {
            assert(atoms.take(atoms.len() as int) =~= atoms);
        }
        let ghost bv = bindings_view(bindings@);
        let ghost e1 = errors_view(diagnostics@);
        proof {
            merged_vars_are_unique(bv);
        }
        let mut results = merge_var_types(idx as u64, bindings);
        let ghost all = results@;
        let ghost nerr = rebinds(bv).len();
        let last = results.pop();
        let map_opt = match last {
            Some(Ok((_, map))) => {
                proof {
                    if merged(bv).len() == 0 {
                        assert(all.len() == nerr);
                        assert(all[all.len() - 1] is Err);
                    }
                }
                Some(map)
            },
            Some(Err(d)) => {
                results.push(Err(d));
                proof {
                    assert(results@ =~= all);
                    if merged(bv).len() > 0 {
                        assert(all.last() is Ok);
                    }
                }
                None
            },
            None => None,
        };
        let ghost errs = results@;
        proof {
            assert(errs.len() == nerr);
            assert(forall|k: int| 0 <= k < errs.len() ==> errs[k] == all[k]);
        }
        let mut rest = reversed(results);
        let ghost mut k: int = 0;
        while rest.len() > 0
            invariant
                0 <= k,
                k + rest@.len() == errs.len(),
                errs.len() == nerr,
                nerr == rebinds(bv).len(),
                errs.len() <= all.len(),
                forall|i: int| 0 <= i < rest@.len() ==> rest@[i] == errs[errs.len() - 1 - i],
                forall|i: int| 0 <= i < errs.len() ==> errs[i] == all[i],
                forall|i: int|
                    0 <= i < nerr ==> {
                        &&& (#[trigger] all[i]) is Err
                        &&& error_of_result(all[i]) == rebinds(bv)[i]
                        &&& all[i]->Err_0.kind == DiagnosticKind::Error
                    },
                errors_view(diagnostics@) == e1 + rebinds(bv).take(k),
                forall|i: int| 0 <= i < diagnostics@.len() ==> (#[trigger] diagnostics@[i]).kind == DiagnosticKind::Error,
            decreases rest.len(),
        {
            let x = rest.pop().unwrap();
            let ghost ee = errors_view(diagnostics@);
            proof {
                assert(x == all[k]);
                assert(rebinds(bv).take(k + 1) =~= rebinds(bv).take(k).push(rebinds(bv)[k]));
            }
            match x {
                Err(d) => {
                    diagnostics.push(d);
                    proof {
                        assert(errors_view(diagnostics@) =~= ee.push(crate::infer::error_of(d)));
                    }
                },
                Ok(_) => {},
            }
            proof {
                k = k + 1;
            }
        }
        proof {
            assert(rebinds(bv).take(nerr as int) =~= rebinds(bv));
            assert(errors_view(diagnostics@) =~= round_errors(items@.take(idx + 1), tm));
        }
        let ghost np = proposals_view(next@);
        let ghost vp = var_maps_view(var_types@);
        match map_opt {
            Some(map) => {
                match item.head_type() {
                    Some((relation, head)) => match head.flat_quantify(&map) {
                        Some(t) => {
                            next.push((relation, t));
                            proof {
                                assert(proposals_view(next@) =~= np.push(proposal_view((relation, t))));
                            }
                        },
                        None => {},
                    },
                    None => {},
                }
                let ghost entry = (idx, map);
                var_types.push((idx, map));
                proof {
                    assert(var_maps_view(var_types@) =~= vp.push((idx, vars_view(map@))));
                }
            },
            None => {},
        }
        proof {
            assert(proposals_view(next@) =~= proposals_view(base@) + derived(items@.take(idx + 1), tm));
            assert(var_maps_view(var_types@) =~= var_maps(items@.take(idx + 1), tm));
        }
        idx = idx + 1;
    }
    proof {
        assert(items@.take(items@.len() as int) =~= items@);
    }
    (next, diagnostics, var_types)
}

/// The model of an error result's diagnostic.
pub open spec fn error_of_result<S, T>(r: Result<T, Diagnostic<S>>) -> ErrorModel<S> {
    crate::infer::error_of(r->Err_0)
}

/// The outcome of type inference: the relation types, the proposals they
/// were resolved from, the diagnostics, each item's variable map, and the
/// number of rounds run.
pub struct Inference<S> {
    pub types: Vec<Proposal<S>>,
    pub proposals: Vec<Proposal<S>>,
    pub diagnostics: Vec<Diagnostic<S>>,
    pub var_types: Vec<(usize, Vec<(usize, Type<S>)>)>,
    pub rounds: usize,
    pub converged: bool,
}

/// Infers the types of every relation and of every item's variables, by
/// rounds of resolution and unification from the fact types, until a round
/// proposes the same relations and shapes again, or `max_rounds` rounds
/// have run. The result is the last round: its proposals, the types
/// resolved from them, the variable maps and errors that unification with
/// those types gives, and whether the proposals that round derives agree
/// with the ones it started from.
pub fn infer_types<S: Copy>(items: &Vec<IndexedItem<S, ResourceId>>, max_rounds: usize) -> (r:
    Inference<S>)
    ensures
        ({
            let tm = proposals_view(r.types@);
            let pm = proposals_view(r.proposals@);
            let n = disagreements(pm).len();
            &&& tm == canonical(pm)
            &&& pm.len() >= fact_types(items@).len()
            &&& pm.take(fact_types(items@).len() as int) == fact_types(items@)
            &&& r.diagnostics@.len() == n + round_errors(items@, tm).len()
            &&& forall|i: int| 0 <= i < n ==> (#[trigger] r.diagnostics@[i]).span == disagreements(pm)[i].1
            &&& errors_view(r.diagnostics@).skip(n as int) == round_errors(items@, tm)
            &&& forall|i: int| 0 <= i < r.diagnostics@.len() ==> (#[trigger] r.diagnostics@[i]).kind == DiagnosticKind::Error
            &&& var_maps_view(r.var_types@) == var_maps(items@, tm)
            &&& r.converged ==> agree(fact_types(items@) + derived(items@, tm), pm)
        }),
        r.rounds <= max_rounds,
        !r.converged ==> r.rounds == max_rounds,
        forall|i: int|
            0 <= i < r.var_types@.len() ==> (#[trigger] r.var_types@[i]).0 < items@.len() && unique_vars(
                vars_view(r.var_types@[i].1@),
            ),
{
    let base = fact_proposals(items);
    let mut proposals = copy_proposals(&base);
    let mut rounds: usize = 0;
    loop
        invariant
            rounds <= max_rounds,
            proposals_view(base@) == fact_types(items@),
            proposals@.len() >= base@.len(),
            proposals_view(proposals@).take(base@.len() as int) == proposals_view(base@),
        decreases max_rounds - rounds,
    {
        proof {
            assert(proposals_view(base@).len() == base@.len());
            assert(proposals_view(proposals@).len() == proposals@.len());
        }
        let (types, mut diagnostics) = resolve_relation_types(&proposals);
        proof {
            canonical_relations_are_unique(proposals_view(proposals@));
        }
        let ghost resolved = diagnostics@;
        let (next, mut more, var_types) = derive_types(items, &types, &base);
        let ghost tail = more@;
        if rounds == max_rounds || proposals_agree(&next, &proposals) {
            diagnostics.append(&mut more);
            proof {
                let n = resolved.len();
                assert forall|i: int| 0 <= i < n implies diagnostics@[i] == resolved[i] by {}
                assert(errors_view(diagnostics@).skip(n as int) =~= errors_view(tail));
                assert forall|i: int| 0 <= i < diagnostics@.len() implies (#[trigger] diagnostics@[i]).kind
                    == DiagnosticKind::Error by {
                    if i >= n {
                        assert(diagnostics@[i] == tail[i - n]);
                    }
                }
                assert(proposals_view(next@) =~= fact_types(items@) + derived(items@, proposals_view(types@)));
            }
            return Inference {
                types,
                proposals,
                diagnostics,
                var_types,
                rounds,
                converged: rounds < max_rounds,
            };
        }
        proof {
            assert(proposals_view(next@).take(base@.len() as int) =~= proposals_view(base@));
            assert(proposals_view(next@).len() == next@.len());
        }
        proposals = next;
        rounds = rounds + 1;
    }
}

/// Whatever later rounds derive, and whatever conflicts arise, a relation
/// that has a fact keeps the type of its first fact as its canonical type.
pub proof fn facts_fix_their_relation_types<S>(
    facts: Seq<ProposalModel<S>>,
    proposals: Seq<ProposalModel<S>>,
    r: (Seq<char>, Seq<char>),
)
    requires
        proposals.len() >= facts.len(),
        proposals.take(facts.len() as int) == facts,
        has_relation(canonical(facts), r),
    ensures
        has_relation(canonical(proposals), r),
        canonical(proposals)[relation_index(canonical(proposals), r)] == canonical(facts)[relation_index(
            canonical(facts),
            r,
        )],
{
    let later = proposals.skip(facts.len() as int);
    assert(facts + later =~= proposals);
    canonical_type_is_kept(facts, later, r);
}

/// The text of a type hint: the type, or a mark that it is unknown.
pub open spec fn hint_text<S>(vars: Seq<VarModel<S>>, i: usize) -> Seq<char> {
    if binds(vars, i) {
        seq![':', ' '] + shape_text(shape(vars[bound_index(vars, i)].2))
    } else {
        seq![':', ' ', '{', 'u', 'n', 'k', 'n', 'o', 'w', 'n', '}']
    }
}

impl<S: Copy, R> IndexedItem<S, R> {
    /// A type hint at each variable: its type in `vars`, or that it is unknown.
    pub fn type_hints(&self, vars: &Vec<(usize, Type<S>)>) -> (r: Vec<InlayHint<S>>)
        requires
            unique_vars(vars_view(vars@)),
        ensures
            r@.len() == self.variables@.len(),
            forall|i: int|
                0 <= i < r@.len() ==> (#[trigger] r@[i]).span == self.variables@[i].span
                    && r@[i].contents@ == hint_text(vars_view(vars@), i as usize),
    {
        let mut out: Vec<InlayHint<S>> = Vec::new();
        let mut i: usize = 0;
        while i < self.variables.len()
            invariant
                i <= self.variables@.len(),
                unique_vars(vars_view(vars@)),
                out@.len() == i,
                forall|j: int|
                    0 <= j < i ==> (#[trigger] out@[j]).span == self.variables@[j].span
                        && out@[j].contents@ == hint_text(vars_view(vars@), j as usize),
            decreases self.variables.len() - i,
        {
            let mut contents = String::new();
            push_chars(&mut contents, ": ");
            proof {
                reveal_strlit(": ");
            }
            match find_var(vars, i) {
                Some(at) => push_type(&mut contents, &vars[at].1.inner),
                None => {
                    push_chars(&mut contents, "{unknown}");
                    proof {
                        reveal_strlit("{unknown}");
                    }
                },
            }
            proof {
                assert(contents@ =~= hint_text(vars_view(vars@), i));
            }
            out.push(InlayHint { span: self.variables[i].span, contents });
            i = i + 1;
        }
        out
    }

    /// An error at each variable whose type `vars` does not hold, in order.
    pub fn unknown_type_diagnostics(&self, vars: &Vec<(usize, Type<S>)>) -> (r: Vec<Diagnostic<S>>)
        requires
            unique_vars(vars_view(vars@)),
        ensures
            r@.map_values(|d: Diagnostic<S>| d.span) == unknown_spans(
                vars_view(vars@),
                self.variables@,
                self.variables@.len() as int,
            ),
            forall|i: int| 0 <= i < r@.len() ==> (#[trigger] r@[i]).kind == DiagnosticKind::Error,
    {
        let mut out: Vec<Diagnostic<S>> = Vec::new();
        let mut i: usize = 0;
        while i < self.variables.len()
            invariant
                i <= self.variables@.len(),
                unique_vars(vars_view(vars@)),
                forall|k: int| 0 <= k < out@.len() ==> (#[trigger] out@[k]).kind == DiagnosticKind::Error,
                out@.map_values(|d: Diagnostic<S>| d.span) == unknown_spans(
                    vars_view(vars@),
                    self.variables@,
                    i as int,
                ),
            decreases self.variables.len() - i,
        {
            let ghost before = out@;
            if find_var(vars, i).is_none() {
                let span = self.variables[i].span;
                let mut message = String::new();
                push_chars(&mut message, "Unknown type");
                let mut label = String::new();
                push_chars(&mut label, "Could not infer type of \"");
                label.append(self.variables[i].inner.as_str());
                push_chars(&mut label, "\"");
                let mut labels: Vec<Spanned<S, String>> = Vec::new();
                labels.push(Spanned { span, inner: label });
                out.push(Diagnostic { span, kind: DiagnosticKind::Error, message, labels });
                proof {
                    assert(out@.map_values(|d: Diagnostic<S>| d.span) =~= before.map_values(
                        |d: Diagnostic<S>| d.span,
                    ).push(span));
                }
            }
            i = i + 1;
        }
        out
    }
}

/// The spans of the first `n` variables whose type `vars` does not hold, in order.
pub open spec fn unknown_spans<S>(vars: Seq<VarModel<S>>, variables: Seq<Spanned<S, String>>, n: int) -> Seq<S>
    decreases n,
{
    if n <= 0 {
        Seq::empty()
    } else {
        unknown_spans(vars, variables, n - 1) + if !binds(vars, (n - 1) as usize) {
            seq![variables[n - 1].span]
        } else {
            Seq::empty()
        }
    }
}

/// The variable map of item `i` among `maps`: the first one for `i`, or an
/// empty map where there is none.
pub open spec fn map_for<S>(maps: Seq<(usize, Seq<VarModel<S>>)>, i: usize) -> Seq<VarModel<S>>
    decreases maps.len(),
{
    if maps.len() == 0 {
        Seq::empty()
    } else if maps[0].0 == i {
        maps[0].1
    } else {
        map_for(maps.drop_first(), i)
    }
}

/// The type hints of every item, item by item: each item's variables with
/// the types of its variable map in `var_types`, or as unknown where it has none.
pub fn item_hints<S: Copy>(
    items: &Vec<IndexedItem<S, ResourceId>>,
    var_types: &Vec<(usize, Vec<(usize, Type<S>)>)>,
) -> (r: Vec<Vec<InlayHint<S>>>)
    requires
        forall|k: int| 0 <= k < var_types@.len() ==> unique_vars(vars_view((#[trigger] var_types@[k]).1@)),
    ensures
        r@.len() == items@.len(),
        forall|i: int|
            0 <= i < items@.len() ==> (#[trigger] r@[i])@.len() == items@[i].variables@.len() && forall|j: int|
                0 <= j < r@[i]@.len() ==> (#[trigger] r@[i]@[j]).span == items@[i].variables@[j].span
                    && r@[i]@[j].contents@ == hint_text(
                    map_for(var_maps_view(var_types@), i as usize),
                    j as usize,
                ),
{
    let ghost vm = var_maps_view(var_types@);
    let mut out: Vec<Vec<InlayHint<S>>> = Vec::new();
    let mut i: usize = 0;
    while i < items.len()
        invariant
            i <= items.len(),
            vm == var_maps_view(var_types@),
            forall|k: int| 0 <= k < var_types@.len() ==> unique_vars(vars_view((#[trigger] var_types@[k]).1@)),
            out@.len() == i,
            forall|a: int|
                0 <= a < i ==> (#[trigger] out@[a])@.len() == items@[a].variables@.len() && forall|j: int|
                    0 <= j < out@[a]@.len() ==> (#[trigger] out@[a]@[j]).span == items@[a].variables@[j].span
                        && out@[a]@[j].contents@ == hint_text(map_for(vm, a as usize), j as usize),
        decreases items.len() - i,
    {
        let mut k: usize = 0;
        proof {
            assert(vm.skip(0) =~= vm);
        }
        let mut found: Option<usize> = None;
        while k < var_types.len() && found.is_none()
            invariant
                k <= var_types@.len(),
                vm == var_maps_view(var_types@),
                vm.len() == var_types@.len(),
                found is None ==> map_for(vm, i) == map_for(vm.skip(k as int), i),
                found is Some ==> found->Some_0 < var_types@.len() && map_for(vm, i) == vars_view(
                    var_types@[found->Some_0 as int].1@,
                ),
            decreases var_types.len() - k,
        {
            proof {
                assert(vm.skip(k as int).drop_first() =~= vm.skip(k + 1));
                assert(vm.skip(k as int)[0] == vm[k as int]);
                assert(vm[k as int] == (var_types@[k as int].0, vars_view(var_types@[k as int].1@)));
            }
            if var_types[k].0 == i {
                found = Some(k);
            }
            k = k + 1;
        }
        let hints = match found {
            Some(at) => items[i].type_hints(&var_types[at].1),
            None => {
                let empty: Vec<(usize, Type<S>)> = Vec::new();
                proof {
                    assert(k == var_types@.len());
                    assert(vm.skip(vm.len() as int) =~= Seq::<(usize, Seq<VarModel<S>>)>::empty());
                    assert(vars_view(empty@) =~= Seq::<VarModel<S>>::empty());
                }
                items[i].type_hints(&empty)
            },
        };
        let ghost before = out@;
        out.push(hints);
        proof {
            assert forall|a: int| 0 <= a < i + 1 implies (#[trigger] out@[a])@.len() == items@[a].variables@.len()
                && forall|j: int|
                0 <= j < out@[a]@.len() ==> (#[trigger] out@[a]@[j]).span == items@[a].variables@[j].span
                    && out@[a]@[j].contents@ == hint_text(map_for(vm, a as usize), j as usize) by {
                if a < i {
                    assert(out@[a] == before[a]);
                }
            }
        }
        i = i + 1;
    }
    out
}

} // verus!
