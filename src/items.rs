//! Atoms, rules, decisions, constraints and module items, and how their
//! relations and variables are mapped.

use vstd::prelude::*;
use crate::value::{type_of, PrimitiveType, Value};
use crate::infer::reversed;
use crate::syntax::{
    term_mapped, AnyTerm, Diagnostic, Pattern, PatternModel, Spanned, SpannedPattern, Term, Type,
};

verus! {

/// One atom of a rule: a relation applied to a pattern.
#[derive(Clone, Debug, PartialEq, Eq, PartialOrd, Ord, Hash)]
pub struct Atom<S, R, T> {
    pub relation: Spanned<S, R>,
    pub pattern: SpannedPattern<S, T>,
}

/// A rule: the head holds wherever every atom of the body holds.
#[derive(Clone, Debug, PartialEq, Eq, PartialOrd, Ord, Hash)]
pub struct Rule<S, R, T> {
    pub head: Spanned<S, Atom<S, R, Term<T>>>,
    pub body: Vec<Spanned<S, Atom<S, R, Term<T>>>>,
}

/// A rule whose head is chosen rather than derived.
#[derive(Clone, Debug, PartialEq, Eq, PartialOrd, Ord, Hash)]
pub struct Decision<S, R, T>(pub Rule<S, R, T>);

/// How a constraint bounds its captures.
#[derive(Copy, Clone, Debug, PartialEq, Eq, Structural, PartialOrd, Ord, Hash)]
pub enum CardinalityConstraintKind {
    Only,
    AtMost,
    AtLeast,
}

/// What a constraint asks of its captures.
#[derive(Copy, Clone, Debug, PartialEq, Eq, Structural, PartialOrd, Ord, Hash)]
pub enum ConstraintKind {
    Uniform,
    Cardinality(CardinalityConstraintKind, i64),
}

/// A constraint on the variables that its body binds.
#[derive(Clone, Debug, PartialEq, Eq, PartialOrd, Ord, Hash)]
pub struct Constraint<S, R, T> {
    pub captures: Vec<Spanned<S, T>>,
    pub kind: Spanned<S, ConstraintKind>,
    pub body: Vec<Spanned<S, Atom<S, R, Term<T>>>>,
}

/// One item of a module.
#[derive(Clone, Debug, PartialEq, Eq, PartialOrd, Ord, Hash)]
pub enum ModuleItem<S, R, T> {
    Rule(Rule<S, R, T>),
    Decision(Decision<S, R, T>),
    Constraint(Constraint<S, R, T>),
    Diagnostic(Diagnostic<S>),
}

/// The items of a module, by kind.
pub struct ModuleItems<S, R, T> {
    pub rules: Vec<Rule<S, R, T>>,
    pub decisions: Vec<Decision<S, R, T>>,
    pub constraints: Vec<Constraint<S, R, T>>,
    pub diagnostics: Vec<Diagnostic<S>>,
}

/// Whether atom `b` is atom `a` with its relation passed through `cb`.
pub open spec fn relation_mapped<S, R, O, T, F: Fn(S, R) -> O>(
    cb: &F,
    a: Spanned<S, Atom<S, R, T>>,
    b: Spanned<S, Atom<S, O, T>>,
) -> bool {
    &&& b.span == a.span
    &&& b.inner.pattern == a.inner.pattern
    &&& b.inner.relation.span == a.inner.relation.span
    &&& cb.ensures((a.inner.relation.span, a.inner.relation.inner), b.inner.relation.inner)
}

/// Whether term `o` is term `t` with its variable passed through `cb` with
/// the flag `head`.
pub open spec fn flagged_term_mapped<S, T, O, V, F: Fn(bool, S, T) -> O>(
    cb: &F,
    head: bool,
    s: S,
    t: AnyTerm<T, V>,
    o: AnyTerm<O, V>,
) -> bool {
    match t {
        AnyTerm::Variable(x) => o is Variable && cb.ensures((head, s, x), o->Variable_0),
        AnyTerm::Value(v) => o == AnyTerm::<O, V>::Value(v),
    }
}

/// Whether atom `b` is atom `a` with every variable passed through `cb`
/// with the flag `head`.
pub open spec fn variables_mapped<S, R, T, O, V, F: Fn(bool, S, T) -> O>(
    cb: &F,
    head: bool,
    a: Spanned<S, Atom<S, R, AnyTerm<T, V>>>,
    b: Spanned<S, Atom<S, R, AnyTerm<O, V>>>,
) -> bool {
    &&& b.span == a.span
    &&& b.inner.relation == a.inner.relation
    &&& b.inner.pattern.span == a.inner.pattern.span
    &&& match a.inner.pattern.inner@ {
        PatternModel::Leaf(t) => b.inner.pattern.inner@ is Leaf && flagged_term_mapped(
            cb,
            head,
            a.inner.pattern.span,
            t,
            b.inner.pattern.inner@->Leaf_0,
        ),
        PatternModel::Tuple(els) => b.inner.pattern.inner@ is Tuple
            && b.inner.pattern.inner@->Tuple_0.len() == els.len() && forall|i: int|
            0 <= i < els.len() ==> (#[trigger] b.inner.pattern.inner@->Tuple_0[i]).span
                == els[i].span && flagged_term_mapped(
                cb,
                head,
                els[i].span,
                els[i].inner,
                b.inner.pattern.inner@->Tuple_0[i].inner,
            ),
    }
}

impl<S: Copy, R, T> Atom<S, R, T> {
    /// Passes the relation, with its span, through `cb`.
    pub fn map_relation<O, F: Fn(S, R) -> O>(self, cb: &F) -> (r: Atom<S, O, T>)
        requires
            forall|s: S, x: R| cb.requires((s, x)),
        ensures
            r.pattern == self.pattern,
            r.relation.span == self.relation.span,
            cb.ensures((self.relation.span, self.relation.inner), r.relation.inner),
    {
        let span = self.relation.span;
        Atom { relation: Spanned { span, inner: cb(span, self.relation.inner) }, pattern: self.pattern }
    }
}

impl<S: Copy, R, T, V> Atom<S, R, AnyTerm<T, V>> {
    /// Passes every variable of the pattern, with its span, through `cb`.
    pub fn map_variables<O, F: Fn(S, T) -> O>(self, cb: &F) -> (r: Atom<S, R, AnyTerm<O, V>>)
        requires
            forall|s: S, t: T| cb.requires((s, t)),
        ensures
            r.relation == self.relation,
            r.pattern.span == self.pattern.span,
            match self.pattern.inner@ {
                PatternModel::Leaf(t) => r.pattern.inner@ is Leaf && term_mapped(
                    cb,
                    self.pattern.span,
                    t,
                    r.pattern.inner@->Leaf_0,
                ),
                PatternModel::Tuple(els) => r.pattern.inner@ is Tuple && r.pattern.inner@->Tuple_0.len()
                    == els.len() && forall|i: int|
                    0 <= i < els.len() ==> (#[trigger] r.pattern.inner@->Tuple_0[i]).span
                        == els[i].span && term_mapped(
                        cb,
                        els[i].span,
                        els[i].inner,
                        r.pattern.inner@->Tuple_0[i].inner,
                    ),
            },
    {
        Atom { relation: self.relation, pattern: self.pattern.map_variables(cb) }
    }
}

/// Passes the relation of every atom through `cb`.
fn map_atom_relations<S: Copy, R, O, T, F: Fn(S, R) -> O>(
    v: Vec<Spanned<S, Atom<S, R, T>>>,
    cb: &F,
) -> (r: Vec<Spanned<S, Atom<S, O, T>>>)
    requires
        forall|s: S, x: R| cb.requires((s, x)),
    ensures
        r@.len() == v@.len(),
        forall|i: int| 0 <= i < v@.len() ==> relation_mapped(cb, v@[i], #[trigger] r@[i]),
{
    let ghost all = v@;
    let mut rest = reversed(v);
    let mut out: Vec<Spanned<S, Atom<S, O, T>>> = Vec::new();
    while rest.len() > 0
        invariant
            forall|s: S, x: R| cb.requires((s, x)),
            out@.len() + rest@.len() == all.len(),
            forall|i: int| 0 <= i < rest@.len() ==> rest@[i] == all[all.len() - 1 - i],
            forall|i: int| 0 <= i < out@.len() ==> relation_mapped(cb, all[i], #[trigger] out@[i]),
        decreases rest.len(),
    {
        let a = rest.pop().unwrap();
        let span = a.span;
        out.push(Spanned { span, inner: a.inner.map_relation(cb) });
    }
    out
}

/// Passes every variable of one atom through `cb` with the flag `head`.
fn map_atom_variables<S: Copy, R, T, O, V, F: Fn(bool, S, T) -> O>(
    a: Spanned<S, Atom<S, R, AnyTerm<T, V>>>,
    head: bool,
    cb: &F,
) -> (r: Spanned<S, Atom<S, R, AnyTerm<O, V>>>)
    requires
        forall|h: bool, s: S, t: T| cb.requires((h, s, t)),
    ensures
        variables_mapped(cb, head, a, r),
{
    let span = a.span;
    let f = |s: S, t: T| -> (o: O)
        ensures
            cb.ensures((head, s, t), o),
        { cb(head, s, t) };
    let inner = a.inner.map_variables(&f);
    Spanned { span, inner }
}

/// Passes every variable of every atom through `cb` with the flag `head`.
fn map_atoms_variables<S: Copy, R, T, O, V, F: Fn(bool, S, T) -> O>(
    v: Vec<Spanned<S, Atom<S, R, AnyTerm<T, V>>>>,
    head: bool,
    cb: &F,
) -> (r: Vec<Spanned<S, Atom<S, R, AnyTerm<O, V>>>>)
    requires
        forall|h: bool, s: S, t: T| cb.requires((h, s, t)),
    ensures
        r@.len() == v@.len(),
        forall|i: int| 0 <= i < v@.len() ==> variables_mapped(cb, head, v@[i], #[trigger] r@[i]),
{
    let ghost all = v@;
    let mut rest = reversed(v);
    let mut out: Vec<Spanned<S, Atom<S, R, AnyTerm<O, V>>>> = Vec::new();
    while rest.len() > 0
        invariant
            forall|h: bool, s: S, t: T| cb.requires((h, s, t)),
            out@.len() + rest@.len() == all.len(),
            forall|i: int| 0 <= i < rest@.len() ==> rest@[i] == all[all.len() - 1 - i],
            forall|i: int|
                0 <= i < out@.len() ==> variables_mapped(cb, head, all[i], #[trigger] out@[i]),
        decreases rest.len(),
    {
        let a = rest.pop().unwrap();
        out.push(map_atom_variables(a, head, cb));
    }
    out
}

impl<S: Copy, R, T> Rule<S, R, T> {
    /// Passes the relation of the head and of every body atom through `cb`.
    pub fn map_relations<O, F: Fn(S, R) -> O>(self, cb: &F) -> (r: Rule<S, O, T>)
        requires
            forall|s: S, x: R| cb.requires((s, x)),
        ensures
            relation_mapped(cb, self.head, r.head),
            r.body@.len() == self.body@.len(),
            forall|i: int|
                0 <= i < self.body@.len() ==> relation_mapped(cb, self.body@[i], #[trigger] r.body@[i]),
    {
        let span = self.head.span;
        let head = Spanned { span, inner: self.head.inner.map_relation(cb) };
        Rule { head, body: map_atom_relations(self.body, cb) }
    }

    /// Passes every variable through `cb`, with `true` for those of the head
    /// and `false` for those of the body.
    pub fn map_variables<O, F: Fn(bool, S, T) -> O>(self, cb: &F) -> (r: Rule<S, R, O>)
        requires
            forall|h: bool, s: S, t: T| cb.requires((h, s, t)),
        ensures
            variables_mapped(cb, true, self.head, r.head),
            r.body@.len() == self.body@.len(),
            forall|i: int|
                0 <= i < self.body@.len() ==> variables_mapped(
                    cb,
                    false,
                    self.body@[i],
                    #[trigger] r.body@[i],
                ),
    {
        let body = map_atoms_variables(self.body, false, cb);
        let head = map_atom_variables(self.head, true, cb);
        Rule { head, body }
    }

    /// The type that a fact proposes for its relation: for a rule with no
    /// body whose head holds values only, the relation with the types of
    /// those values, at the head's span.
    pub fn base_type(self) -> (r: Option<(R, Type<S>)>)
        ensures
            r is Some <==> self.body@.len() == 0 && all_values(self.head.inner.pattern.inner@),
            r is Some ==> {
                &&& r->Some_0.0 == self.head.inner.relation.inner
                &&& r->Some_0.1.span == self.head.span
                &&& types_of(self.head.inner.pattern.inner@, r->Some_0.1.inner@)
            },
    {
        if self.body.len() > 0 {
            return None;
        }
        let span = self.head.span;
        let relation = self.head.inner.relation.inner;
        match self.head.inner.pattern.inner {
            Pattern::Leaf(AnyTerm::Value(v)) => Some((relation, Spanned { span, inner: Pattern::Leaf(v.ty()) })),
            Pattern::Leaf(AnyTerm::Variable(_)) => None,
            Pattern::Tuple(els) => {
                let ghost all = els@;
                let mut out: Vec<Spanned<S, PrimitiveType>> = Vec::new();
                let mut i: usize = 0;
                while i < els.len()
                    invariant
                        all == els@,
                        self.head.inner.pattern.inner@ == PatternModel::<S, Term<T>>::Tuple(all),
                        i <= els.len(),
                        out@.len() == i,
                        forall|j: int| 0 <= j < i ==> (#[trigger] all[j]).inner is Value,
                        forall|j: int|
                            0 <= j < i ==> (#[trigger] out@[j]).span == all[j].span && out@[j].inner
                                == type_of(all[j].inner->Value_0@),
                    decreases els.len() - i,
                {
                    match &els[i].inner {
                        AnyTerm::Value(v) => {
                            out.push(Spanned { span: els[i].span, inner: v.ty() });
                        },
                        AnyTerm::Variable(_) => {
                            proof {
                                assert(!(all[i as int].inner is Value));
                            }
                            return None;
                        },
                    }
                    i = i + 1;
                }
                Some((relation, Spanned { span, inner: Pattern::Tuple(out) }))
            },
        }
    }
}

/// Whether a pattern holds values only.
pub open spec fn all_values<S, T>(p: PatternModel<S, Term<T>>) -> bool {
    match p {
        PatternModel::Leaf(t) => t is Value,
        PatternModel::Tuple(els) => forall|i: int| 0 <= i < els.len() ==> (#[trigger] els[i]).inner is Value,
    }
}

/// Whether `t` is the type of the values of the pattern `p`, span for span.
pub open spec fn types_of<S, T>(p: PatternModel<S, Term<T>>, t: PatternModel<S, PrimitiveType>) -> bool {
    match p {
        PatternModel::Leaf(v) => t == PatternModel::<S, PrimitiveType>::Leaf(type_of(v->Value_0@)),
        PatternModel::Tuple(els) => t is Tuple && t->Tuple_0.len() == els.len() && forall|i: int|
            0 <= i < els.len() ==> (#[trigger] t->Tuple_0[i]).span == els[i].span && t->Tuple_0[i].inner
                == type_of(els[i].inner->Value_0@),
    }
}

impl<S: Copy, R, T> Decision<S, R, T> {
    /// Passes every variable of the decision's rule through `cb`.
    pub fn map_variables<O, F: Fn(bool, S, T) -> O>(self, cb: &F) -> (r: Decision<S, R, O>)
        requires
            forall|h: bool, s: S, t: T| cb.requires((h, s, t)),
        ensures
            variables_mapped(cb, true, self.0.head, r.0.head),
            r.0.body@.len() == self.0.body@.len(),
            forall|i: int|
                0 <= i < self.0.body@.len() ==> variables_mapped(
                    cb,
                    false,
                    self.0.body@[i],
                    #[trigger] r.0.body@[i],
                ),
    {
        Decision(self.0.map_variables(cb))
    }

    /// Passes every relation of the decision's rule through `cb`.
    pub fn map_relations<O, F: Fn(S, R) -> O>(self, cb: &F) -> (r: Decision<S, O, T>)
        requires
            forall|s: S, x: R| cb.requires((s, x)),
        ensures
            relation_mapped(cb, self.0.head, r.0.head),
            r.0.body@.len() == self.0.body@.len(),
            forall|i: int|
                0 <= i < self.0.body@.len() ==> relation_mapped(cb, self.0.body@[i], #[trigger] r.0.body@[i]),
    {
        Decision(self.0.map_relations(cb))
    }
}

impl<S: Copy, R, T> Constraint<S, R, T> {
    /// Passes every variable through `cb`: the captures with `true`, those
    /// of the body with `false`.
    pub fn map_variables<O, F: Fn(bool, S, T) -> O>(self, cb: &F) -> (r: Constraint<S, R, O>)
        requires
            forall|h: bool, s: S, t: T| cb.requires((h, s, t)),
        ensures
            r.kind == self.kind,
            r.body@.len() == self.body@.len(),
            forall|i: int|
                0 <= i < self.body@.len() ==> variables_mapped(
                    cb,
                    false,
                    self.body@[i],
                    #[trigger] r.body@[i],
                ),
            r.captures@.len() == self.captures@.len(),
            forall|i: int|
                0 <= i < self.captures@.len() ==> (#[trigger] r.captures@[i]).span
                    == self.captures@[i].span && cb.ensures(
                    (true, self.captures@[i].span, self.captures@[i].inner),
                    r.captures@[i].inner,
                ),
    {
        let body = map_atoms_variables(self.body, false, cb);
        let f = |s: S, t: T| -> (o: O)
            ensures
                cb.ensures((true, s, t), o),
            { cb(true, s, t) };
        let captures = crate::syntax::map_elements(self.captures, &f);
        Constraint { captures, kind: self.kind, body }
    }

    /// Passes the relation of every body atom through `cb`.
    pub fn map_relations<O, F: Fn(S, R) -> O>(self, cb: &F) -> (r: Constraint<S, O, T>)
        requires
            forall|s: S, x: R| cb.requires((s, x)),
        ensures
            r.kind == self.kind,
            r.captures == self.captures,
            r.body@.len() == self.body@.len(),
            forall|i: int|
                0 <= i < self.body@.len() ==> relation_mapped(cb, self.body@[i], #[trigger] r.body@[i]),
    {
        Constraint { captures: self.captures, kind: self.kind, body: map_atom_relations(self.body, cb) }
    }
}

impl<S: Copy, R, T> ModuleItem<S, R, T> {
    /// The rule of an item tagged with `ctx`, if the item is a rule.
    pub fn rule<C>(item: (C, Self)) -> (r: Option<(C, Rule<S, R, T>)>)
        ensures
            r == (match item.1 {
                ModuleItem::Rule(x) => Some((item.0, x)),
                _ => None,
            }),
    {
        let (ctx, it) = item;
        match it {
            ModuleItem::Rule(x) => Some((ctx, x)),
            _ => None,
        }
    }

    /// The diagnostic of an item tagged with `ctx`, if the item is one.
    pub fn diagnostic<C>(item: (C, Self)) -> (r: Option<(C, Diagnostic<S>)>)
        ensures
            r == (match item.1 {
                ModuleItem::Diagnostic(d) => Some((item.0, d)),
                _ => None,
            }),
    {
        let (ctx, it) = item;
        match it {
            ModuleItem::Diagnostic(d) => Some((ctx, d)),
            _ => None,
        }
    }

    /// Passes every relation of the item through `cb`; diagnostics stay.
    pub fn map_relations<O, F: Fn(S, R) -> O>(self, cb: &F) -> (r: ModuleItem<S, O, T>)
        requires
            forall|s: S, x: R| cb.requires((s, x)),
        ensures
            match self {
                ModuleItem::Rule(x) => r is Rule && relation_mapped(cb, x.head, r->Rule_0.head)
                    && r->Rule_0.body@.len() == x.body@.len() && forall|i: int|
                    0 <= i < x.body@.len() ==> relation_mapped(cb, x.body@[i], #[trigger] r->Rule_0.body@[i]),
                ModuleItem::Decision(x) => r is Decision && relation_mapped(cb, x.0.head, r->Decision_0.0.head)
                    && r->Decision_0.0.body@.len() == x.0.body@.len() && forall|i: int|
                    0 <= i < x.0.body@.len() ==> relation_mapped(
                        cb,
                        x.0.body@[i],
                        #[trigger] r->Decision_0.0.body@[i],
                    ),
                ModuleItem::Constraint(x) => r is Constraint && r->Constraint_0.captures == x.captures
                    && r->Constraint_0.kind == x.kind && r->Constraint_0.body@.len() == x.body@.len()
                    && forall|i: int|
                    0 <= i < x.body@.len() ==> relation_mapped(
                        cb,
                        x.body@[i],
                        #[trigger] r->Constraint_0.body@[i],
                    ),
                ModuleItem::Diagnostic(d) => r == ModuleItem::<S, O, T>::Diagnostic(d),
            },
    {
        match self {
            ModuleItem::Rule(x) => ModuleItem::Rule(x.map_relations(cb)),
            ModuleItem::Decision(x) => ModuleItem::Decision(x.map_relations(cb)),
            ModuleItem::Constraint(x) => ModuleItem::Constraint(x.map_relations(cb)),
            ModuleItem::Diagnostic(d) => ModuleItem::Diagnostic(d),
        }
    }
}

impl<S, R, T> ModuleItems<S, R, T> {
    /// All items in one list: rules, then decisions, then constraints, then
    /// diagnostics, each in its order.
    pub fn to_vec(self) -> (r: Vec<ModuleItem<S, R, T>>)
        ensures
            r@.len() == self.rules@.len() + self.decisions@.len() + self.constraints@.len()
                + self.diagnostics@.len(),
            forall|i: int| 0 <= i < self.rules@.len() ==> r@[i] == ModuleItem::Rule(self.rules@[i]),
            forall|i: int|
                0 <= i < self.decisions@.len() ==> r@[self.rules@.len() + i] == ModuleItem::Decision(
                    self.decisions@[i],
                ),
            forall|i: int|
                0 <= i < self.constraints@.len() ==> r@[self.rules@.len() + self.decisions@.len() + i]
                    == ModuleItem::Constraint(self.constraints@[i]),
            forall|i: int|
                0 <= i < self.diagnostics@.len() ==> r@[self.rules@.len() + self.decisions@.len()
                    + self.constraints@.len() + i] == ModuleItem::<S, R, T>::Diagnostic(self.diagnostics@[i]),
    {
        let ModuleItems { rules, decisions, constraints, diagnostics } = self;
        let ghost (r0, d0, c0, g0) = (rules@, decisions@, constraints@, diagnostics@);
        let mut out: Vec<ModuleItem<S, R, T>> = Vec::new();
        let mut rest = reversed(rules);
        while rest.len() > 0
            invariant
                out@.len() + rest@.len() == r0.len(),
                forall|i: int| 0 <= i < rest@.len() ==> rest@[i] == r0[r0.len() - 1 - i],
                forall|i: int| 0 <= i < out@.len() ==> out@[i] == ModuleItem::<S, R, T>::Rule(r0[i]),
            decreases rest.len(),
        {
            out.push(ModuleItem::Rule(rest.pop().unwrap()));
        }
        let mut rest = reversed(decisions);
        while rest.len() > 0
            invariant
                out@.len() + rest@.len() == r0.len() + d0.len(),
                out@.len() >= r0.len(),
                forall|i: int| 0 <= i < rest@.len() ==> rest@[i] == d0[d0.len() - 1 - i],
                forall|i: int| 0 <= i < r0.len() ==> out@[i] == ModuleItem::<S, R, T>::Rule(r0[i]),
                forall|i: int|
                    r0.len() <= i < out@.len() ==> out@[i] == ModuleItem::<S, R, T>::Decision(d0[i - r0.len()]),
            decreases rest.len(),
        {
            out.push(ModuleItem::Decision(rest.pop().unwrap()));
        }
        let mut rest = reversed(constraints);
        while rest.len() > 0
            invariant
                out@.len() + rest@.len() == r0.len() + d0.len() + c0.len(),
                out@.len() >= r0.len() + d0.len(),
                forall|i: int| 0 <= i < rest@.len() ==> rest@[i] == c0[c0.len() - 1 - i],
                forall|i: int| 0 <= i < r0.len() ==> out@[i] == ModuleItem::<S, R, T>::Rule(r0[i]),
                forall|i: int|
                    r0.len() <= i < r0.len() + d0.len() ==> out@[i] == ModuleItem::<S, R, T>::Decision(
                        d0[i - r0.len()],
                    ),
                forall|i: int|
                    r0.len() + d0.len() <= i < out@.len() ==> out@[i] == ModuleItem::<S, R, T>::Constraint(
                        c0[i - r0.len() - d0.len()],
                    ),
            decreases rest.len(),
        {
            out.push(ModuleItem::Constraint(rest.pop().unwrap()));
        }
        let mut rest = reversed(diagnostics);
        while rest.len() > 0
            invariant
                out@.len() + rest@.len() == r0.len() + d0.len() + c0.len() + g0.len(),
                out@.len() >= r0.len() + d0.len() + c0.len(),
                forall|i: int| 0 <= i < rest@.len() ==> rest@[i] == g0[g0.len() - 1 - i],
                forall|i: int| 0 <= i < r0.len() ==> out@[i] == ModuleItem::<S, R, T>::Rule(r0[i]),
                forall|i: int|
                    r0.len() <= i < r0.len() + d0.len() ==> out@[i] == ModuleItem::<S, R, T>::Decision(
                        d0[i - r0.len()],
                    ),
                forall|i: int|
                    r0.len() + d0.len() <= i < r0.len() + d0.len() + c0.len() ==> out@[i]
                        == ModuleItem::<S, R, T>::Constraint(c0[i - r0.len() - d0.len()]),
                forall|i: int|
                    r0.len() + d0.len() + c0.len() <= i < out@.len() ==> out@[i]
                        == ModuleItem::<S, R, T>::Diagnostic(g0[i - r0.len() - d0.len() - c0.len()]),
            decreases rest.len(),
        {
            out.push(ModuleItem::Diagnostic(rest.pop().unwrap()));
        }
        out
    }
}

} // verus!
