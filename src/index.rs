//! Numbering the variables of module items.

use vstd::prelude::*;
use crate::infer::{errors_view, push_chars, reversed, ErrorModel};
use crate::items::{Atom, Constraint, Decision, ModuleItem, Rule};
use crate::frontend::IndexedItem;
use crate::syntax::{AnyTerm, Diagnostic, DiagnosticKind, Pattern, PatternModel, Spanned, SpannedPattern, Term};

verus! {

/// The names of a variable table, in order.
pub open spec fn names_of<S>(table: Seq<Spanned<S, String>>) -> Seq<Seq<char>> {
    table.map_values(|e: Spanned<S, String>| e.inner@)
}

/// Whether no name appears twice.
pub open spec fn unique_names(names: Seq<Seq<char>>) -> bool {
    forall|i: int, j: int| 0 <= i < j < names.len() ==> names[i] != names[j]
}

/// Whether `names` begins with `prefix`.
pub open spec fn extends(names: Seq<Seq<char>>, prefix: Seq<Seq<char>>) -> bool {
    prefix.len() <= names.len() && forall|i: int| 0 <= i < prefix.len() ==> names[i] == prefix[i]
}

/// One occurrence of a variable: whether it stands in a head (or a
/// capture), its span, its name, and whether the same pattern already
/// holds that name at an earlier place.
pub type Occurrence<S> = (bool, S, Seq<char>, bool);

/// The model of a variable table: each name with its span, in order.
pub type TableModel<S> = Seq<(Seq<char>, S)>;

/// The model of a variable table.
pub open spec fn table_view<S>(t: Seq<Spanned<S, String>>) -> TableModel<S> {
    t.map_values(|e: Spanned<S, String>| (e.inner@, e.span))
}

/// Whether the table holds the name `n`.
pub open spec fn has_name<S>(t: TableModel<S>, n: Seq<char>) -> bool {
    exists|i: int| 0 <= i < t.len() && (#[trigger] t[i]).0 == n
}

/// The place of the name `n` in the table.
pub open spec fn name_index<S>(t: TableModel<S>, n: Seq<char>) -> int {
    choose|i: int| 0 <= i < t.len() && (#[trigger] t[i]).0 == n
}

/// The table after one occurrence: a new name is added at the end; a name
/// already there takes the span of a head occurrence.
pub open spec fn occ_step<S>(t: TableModel<S>, o: Occurrence<S>) -> TableModel<S> {
    if has_name(t, o.2) {
        if o.0 {
            t.update(name_index(t, o.2), (o.2, o.1))
        } else {
            t
        }
    } else {
        t.push((o.2, o.1))
    }
}

/// The message for a head variable that the body does not bind.
pub open spec fn unbound_text(n: Seq<char>) -> Seq<char> {
    seq!['"'] + n + seq![
        '"', ' ', 'd', 'o', 'e', 's', ' ', 'n', 'o', 't', ' ', 'a', 'p', 'p', 'e', 'a', 'r', ' ',
        'w', 'i', 't', 'h', 'i', 'n', ' ', 'b', 'o', 'd', 'y',
    ]
}

/// The message for a variable bound twice within one pattern.
pub open spec fn duplicate_text(n: Seq<char>) -> Seq<char> {
    seq!['C', 'a', 'n', 'n', 'o', 't', ' ', 'r', 'e', 'b', 'i', 'n', 'd', ' ', '"'] + n + seq![
        '"', ' ', 'w', 'i', 't', 'h', 'i', 'n', ' ', 's', 'a', 'm', 'e', ' ', 'p', 'a', 't', 't', 'e',
        'r', 'n',
    ]
}

/// The errors that one occurrence gives: one for a name already bound in
/// the same pattern, then one for a name first seen in a head.
pub open spec fn occ_errors<S>(t: TableModel<S>, o: Occurrence<S>) -> Seq<ErrorModel<S>> {
    (if o.3 {
        seq![(o.1, duplicate_text(o.2))]
    } else {
        Seq::<ErrorModel<S>>::empty()
    }) + if !has_name(t, o.2) && o.0 {
        seq![(o.1, unbound_text(o.2))]
    } else {
        Seq::empty()
    }
}

/// Whether a variable named `n` stands among the elements `els`.
pub open spec fn seen_in<S>(els: Seq<Spanned<S, Term<String>>>, n: Seq<char>) -> bool {
    exists|i: int| 0 <= i < els.len() && (#[trigger] els[i]).inner is Variable && els[i].inner->Variable_0@ == n
}

/// The table after a list of occurrences, from `t`.
pub open spec fn fold_table<S>(t: TableModel<S>, occs: Seq<Occurrence<S>>) -> TableModel<S>
    decreases occs.len(),
{
    if occs.len() == 0 {
        t
    } else {
        occ_step(fold_table(t, occs.drop_last()), occs.last())
    }
}

/// The errors that a list of occurrences gives, from the table `t`.
pub open spec fn fold_errors<S>(t: TableModel<S>, occs: Seq<Occurrence<S>>) -> Seq<ErrorModel<S>>
    decreases occs.len(),
{
    if occs.len() == 0 {
        Seq::empty()
    } else {
        fold_errors(t, occs.drop_last()) + occ_errors(fold_table(t, occs.drop_last()), occs.last())
    }
}

/// Folding two lists of occurrences is folding the first, then the second.
pub proof fn fold_composes<S>(t: TableModel<S>, a: Seq<Occurrence<S>>, b: Seq<Occurrence<S>>)
    ensures
        fold_table(t, a + b) == fold_table(fold_table(t, a), b),
        fold_errors(t, a + b) == fold_errors(t, a) + fold_errors(fold_table(t, a), b),
    decreases b.len(),
{
    if b.len() == 0 {
        assert(a + b =~= a);
        assert(fold_errors(t, a) + fold_errors(fold_table(t, a), b) =~= fold_errors(t, a));
    } else {
        fold_composes(t, a, b.drop_last());
        assert((a + b).drop_last() =~= a + b.drop_last());
        assert((a + b).last() == b.last());
        assert(fold_errors(t, a + b) =~= fold_errors(t, a) + fold_errors(fold_table(t, a), b));
    }
}

/// Folding one occurrence is one step.
proof fn fold_single<S>(t: TableModel<S>, o: Occurrence<S>)
    ensures
        fold_table(t, seq![o]) == occ_step(t, o),
        fold_errors(t, seq![o]) == occ_errors(t, o),
{
    assert(seq![o].drop_last() =~= Seq::<Occurrence<S>>::empty());
    assert(seq![o].last() == o);
    assert(fold_table(t, seq![o].drop_last()) == t);
    assert(fold_errors(t, seq![o].drop_last()) == Seq::<ErrorModel<S>>::empty());
    assert(fold_errors(t, seq![o]) =~= Seq::<ErrorModel<S>>::empty() + occ_errors(t, o));
}

/// The occurrence of a term's variable, if it is one.
pub open spec fn term_occs<S>(head: bool, s: S, t: Term<String>, dup: bool) -> Seq<Occurrence<S>> {
    match t {
        AnyTerm::Variable(n) => seq![(head, s, n@, dup)],
        AnyTerm::Value(_) => Seq::empty(),
    }
}

/// The occurrences in a list of tuple elements, in order.
pub open spec fn elems_occs<S>(head: bool, els: Seq<Spanned<S, Term<String>>>) -> Seq<Occurrence<S>>
    decreases els.len(),
{
    if els.len() == 0 {
        Seq::empty()
    } else {
        elems_occs(head, els.drop_last()) + term_occs(
            head,
            els.last().span,
            els.last().inner,
            els.last().inner is Variable && seen_in(els.drop_last(), els.last().inner->Variable_0@),
        )
    }
}

/// The occurrences in a pattern, in order.
pub open spec fn pattern_occs<S>(head: bool, p: SpannedPattern<S, Term<String>>) -> Seq<Occurrence<S>> {
    match p.inner@ {
        PatternModel::Leaf(t) => term_occs(head, p.span, t, false),
        PatternModel::Tuple(els) => elems_occs(head, els),
    }
}

/// The occurrences in a list of atoms, in order.
pub open spec fn atoms_occs<S, R>(head: bool, atoms: Seq<Spanned<S, Atom<S, R, Term<String>>>>) -> Seq<Occurrence<S>>
    decreases atoms.len(),
{
    if atoms.len() == 0 {
        Seq::empty()
    } else {
        atoms_occs(head, atoms.drop_last()) + pattern_occs(head, atoms.last().inner.pattern)
    }
}

/// The occurrences of a constraint's captures, in order.
pub open spec fn captures_occs<S>(caps: Seq<Spanned<S, String>>) -> Seq<Occurrence<S>>
    decreases caps.len(),
{
    if caps.len() == 0 {
        Seq::empty()
    } else {
        captures_occs(caps.drop_last()) + seq![(true, caps.last().span, caps.last().inner@, false)]
    }
}

/// The occurrences in a rule: the body's, then the head's.
pub open spec fn rule_occs<S, R>(r: Rule<S, R, String>) -> Seq<Occurrence<S>> {
    atoms_occs(false, r.body@) + pattern_occs(true, r.head.inner.pattern)
}

/// The occurrences in an item: for a constraint, the body's, then the captures.
pub open spec fn item_occs<S, R>(item: ModuleItem<S, R, String>) -> Seq<Occurrence<S>> {
    match item {
        ModuleItem::Rule(x) => rule_occs(x),
        ModuleItem::Decision(x) => rule_occs(x.0),
        ModuleItem::Constraint(x) => atoms_occs(false, x.body@) + captures_occs(x.captures@),
        ModuleItem::Diagnostic(_) => Seq::empty(),
    }
}

/// The names of a table are the first parts of its model.
proof fn names_are_table_names<S>(t: Seq<Spanned<S, String>>)
    ensures
        names_of(t).len() == table_view(t).len(),
        forall|i: int| 0 <= i < t.len() ==> #[trigger] names_of(t)[i] == table_view(t)[i].0,
{
}

/// Whether the term `o` is the term `t` with its variable named by an index of `names`.
pub open spec fn term_indexed(t: Term<String>, o: Term<usize>, names: Seq<Seq<char>>) -> bool {
    match t {
        AnyTerm::Variable(n) => o is Variable && (o->Variable_0 as int) < names.len()
            && names[o->Variable_0 as int] == n@,
        AnyTerm::Value(v) => o == AnyTerm::<usize, crate::value::Value>::Value(v),
    }
}

/// Whether the pattern `q` is the pattern `p` with its variables numbered by `names`.
pub open spec fn pattern_indexed<S>(
    p: SpannedPattern<S, Term<String>>,
    q: SpannedPattern<S, Term<usize>>,
    names: Seq<Seq<char>>,
) -> bool {
    &&& q.span == p.span
    &&& match p.inner@ {
        PatternModel::Leaf(t) => q.inner@ is Leaf && term_indexed(t, q.inner@->Leaf_0, names),
        PatternModel::Tuple(els) => q.inner@ is Tuple && q.inner@->Tuple_0.len() == els.len()
            && forall|i: int|
            0 <= i < els.len() ==> (#[trigger] q.inner@->Tuple_0[i]).span == els[i].span
                && term_indexed(els[i].inner, q.inner@->Tuple_0[i].inner, names),
    }
}

/// Whether the atom `b` is the atom `a` with its variables numbered by `names`.
pub open spec fn atom_indexed<S, R>(
    a: Spanned<S, Atom<S, R, Term<String>>>,
    b: Spanned<S, Atom<S, R, Term<usize>>>,
    names: Seq<Seq<char>>,
) -> bool {
    &&& b.span == a.span
    &&& b.inner.relation == a.inner.relation
    &&& pattern_indexed(a.inner.pattern, b.inner.pattern, names)
}

/// Numbering stays valid when the table only grows.
proof fn atom_indexed_extends<S, R>(
    a: Spanned<S, Atom<S, R, Term<String>>>,
    b: Spanned<S, Atom<S, R, Term<usize>>>,
    names: Seq<Seq<char>>,
    more: Seq<Seq<char>>,
)
    requires
        atom_indexed(a, b, names),
        extends(more, names),
    ensures
        atom_indexed(a, b, more),
{
    match a.inner.pattern.inner@ {
        PatternModel::Leaf(t) => {},
        PatternModel::Tuple(els) => {
            assert forall|i: int| 0 <= i < els.len() implies term_indexed(
                els[i].inner,
                b.inner.pattern.inner@->Tuple_0[i].inner,
                more,
            ) by {
                assert(term_indexed(els[i].inner, b.inner.pattern.inner@->Tuple_0[i].inner, names));
            }
        },
    }
}

/// Whether `names` holds `n`.
fn contains_name(names: &Vec<String>, n: &String) -> (r: bool)
    ensures
        r == exists|i: int| 0 <= i < names@.len() && (#[trigger] names@[i])@ == n@,
{
    let mut i: usize = 0;
    while i < names.len()
        invariant
            i <= names@.len(),
            forall|j: int| 0 <= j < i ==> (#[trigger] names@[j])@ != n@,
        decreases names.len() - i,
    {
        if (names[i]).eq(n) {
            return true;
        }
        i = i + 1;
    }
    false
}

/// Reports a variable bound twice within one pattern.
fn report_duplicate<S: Copy>(name: &String, span: S, diagnostics: &mut Vec<Diagnostic<S>>)
    ensures
        errors_view(final(diagnostics)@) == errors_view(old(diagnostics)@).push((span, duplicate_text(name@))),
        final(diagnostics)@.len() == old(diagnostics)@.len() + 1,
        forall|i: int| 0 <= i < old(diagnostics)@.len() ==> final(diagnostics)@[i] == old(diagnostics)@[i],
        final(diagnostics)@[old(diagnostics)@.len() as int].kind == DiagnosticKind::Error,
{
    let mut message = String::new();
    push_chars(&mut message, "Cannot rebind \"");
    message.append(name.as_str());
    push_chars(&mut message, "\" within same pattern");
    proof {
        reveal_strlit("Cannot rebind \"");
        reveal_strlit("\" within same pattern");
        assert(message@ =~= duplicate_text(name@));
    }
    let ghost ev = errors_view(diagnostics@);
    let ghost mv = message@;
    diagnostics.push(Diagnostic { span, kind: DiagnosticKind::Error, message, labels: Vec::new() });
    proof {
        assert(errors_view(diagnostics@) =~= ev.push((span, mv)));
    }
}

/// The number of `name` in the table, adding it if it is new. A variable
/// of a head takes the head's span; one that first appears in a head gets
/// an error, for it is bound by nothing in the body.
fn index_name<S: Copy>(
    name: String,
    span: S,
    is_head: bool,
    table: &mut Vec<Spanned<S, String>>,
    diagnostics: &mut Vec<Diagnostic<S>>,
) -> (r: usize)
    requires
        unique_names(names_of(old(table)@)),
    ensures
        unique_names(names_of(final(table)@)),
        extends(names_of(final(table)@), names_of(old(table)@)),
        (r as int) < final(table)@.len(),
        names_of(final(table)@)[r as int] == name@,
        table_view(final(table)@) == occ_step(table_view(old(table)@), (is_head, span, name@, false)),
        errors_view(final(diagnostics)@) == errors_view(old(diagnostics)@) + occ_errors(
            table_view(old(table)@),
            (is_head, span, name@, false),
        ),
        old(diagnostics)@.len() <= final(diagnostics)@.len(),
        forall|i: int| 0 <= i < old(diagnostics)@.len() ==> final(diagnostics)@[i] == old(diagnostics)@[i],
        forall|i: int|
            old(diagnostics)@.len() <= i < final(diagnostics)@.len() ==> final(diagnostics)@[i].kind == DiagnosticKind::Error,
{
    let ghost old_names = names_of(table@);
    let ghost tv = table_view(table@);
    let ghost ev = errors_view(diagnostics@);
    let ghost o = (is_head, span, name@, false);
    proof {
        names_are_table_names(table@);
    }
    let mut i: usize = 0;
    while i < table.len()
        invariant
            i <= table@.len(),
            tv == table_view(table@),
            ev == errors_view(diagnostics@),
            o == (is_head, span, name@, false),
            names_of(table@).len() == tv.len(),
            forall|j: int| 0 <= j < table@.len() ==> #[trigger] names_of(table@)[j] == tv[j].0,
            table@ == old(table)@,
            diagnostics@ == old(diagnostics)@,
            old_names == names_of(table@),
            unique_names(old_names),
            forall|j: int| 0 <= j < i ==> old_names[j] != name@,
        decreases table.len() - i,
    {
        proof {
            assert(old_names[i as int] == table@[i as int].inner@);
        }
        if (table[i].inner).eq(&name) {
            proof {
                assert(tv[i as int].0 == name@);
                assert(has_name(tv, name@));
                let k = name_index(tv, name@);
                if k != i {
                    if k < i {
                        assert(old_names[k] != name@);
                    } else {
                        assert(old_names[i as int] != old_names[k]);
                    }
                }
                assert(occ_errors(tv, o) =~= Seq::<ErrorModel<S>>::empty());
                assert(ev + occ_errors(tv, o) =~= ev);
            }
            if is_head {
                let ghost n = name@;
                let entry = Spanned { span, inner: name };
                table.set(i, entry);
                proof {
                    assert(names_of(table@) =~= old_names);
                    assert(table_view(table@) =~= tv.update(i as int, (n, span)));
                }
            }
            return i;
        }
        i = i + 1;
    }
    let at = table.len();
    proof {
        assert forall|j: int| 0 <= j < tv.len() implies (#[trigger] tv[j]).0 != name@ by {
            assert(names_of(table@)[j] == tv[j].0);
            assert(old_names[j] != name@);
        }
        assert(!has_name(tv, name@));
    }
    if is_head {
        let mut message = String::new();
        push_chars(&mut message, "\"");
        message.append(name.as_str());
        push_chars(&mut message, "\" does not appear within body");
        proof {
            reveal_strlit("\"");
            reveal_strlit("\" does not appear within body");
            assert(message@ =~= unbound_text(name@));
        }
        let mut labels: Vec<Spanned<S, String>> = Vec::new();
        let mut label = String::new();
        push_chars(&mut label, "Defined here.");
        labels.push(Spanned { span, inner: label });
        let ghost mv = message@;
        diagnostics.push(Diagnostic { span, kind: DiagnosticKind::Error, message, labels });
        proof {
            assert(errors_view(diagnostics@) =~= ev.push((span, mv)));
            assert(errors_view(diagnostics@) =~= ev + occ_errors(tv, o));
        }
    } else {
        proof {
            assert(ev + occ_errors(tv, o) =~= ev);
        }
    }
    let ghost n = name@;
    table.push(Spanned { span, inner: name });
    proof {
        assert(names_of(table@) =~= old_names.push(n));
        assert(table_view(table@) =~= tv.push((n, span)));
    }
    at
}

/// Numbers the variables of one pattern.
fn index_pattern<S: Copy>(
    p: SpannedPattern<S, Term<String>>,
    is_head: bool,
    table: &mut Vec<Spanned<S, String>>,
    diagnostics: &mut Vec<Diagnostic<S>>,
) -> (r: SpannedPattern<S, Term<usize>>)
    requires
        unique_names(names_of(old(table)@)),
    ensures
        unique_names(names_of(final(table)@)),
        extends(names_of(final(table)@), names_of(old(table)@)),
        pattern_indexed(p, r, names_of(final(table)@)),
        table_view(final(table)@) == fold_table(table_view(old(table)@), pattern_occs(is_head, p)),
        errors_view(final(diagnostics)@) == errors_view(old(diagnostics)@) + fold_errors(
            table_view(old(table)@),
            pattern_occs(is_head, p),
        ),
        old(diagnostics)@.len() <= final(diagnostics)@.len(),
        forall|i: int| 0 <= i < old(diagnostics)@.len() ==> final(diagnostics)@[i] == old(diagnostics)@[i],
        forall|i: int|
            old(diagnostics)@.len() <= i < final(diagnostics)@.len() ==> final(diagnostics)@[i].kind == DiagnosticKind::Error,
{
    let span = p.span;
    let ghost pv = p.inner@;
    let ghost pp = p;
    let ghost tv0 = table_view(table@);
    let ghost ev0 = errors_view(diagnostics@);
    match p.inner {
        Pattern::Leaf(AnyTerm::Variable(n)) => {
            let ghost o = (is_head, span, n@, false);
            let i = index_name(n, span, is_head, table, diagnostics);
            proof {
                fold_single(tv0, o);
            }
            Spanned { span, inner: Pattern::Leaf(AnyTerm::Variable(i)) }
        },
        Pattern::Leaf(AnyTerm::Value(v)) => {
            proof {
                assert(ev0 + fold_errors(tv0, pattern_occs(is_head, pp)) =~= ev0);
            }
            Spanned { span, inner: Pattern::Leaf(AnyTerm::Value(v)) }
        },
        Pattern::Tuple(els) => {
            let ghost all = els@;
            let ghost names0 = names_of(table@);
            let ghost d0 = diagnostics@.len();
            let mut rest = reversed(els);
            let mut out: Vec<Spanned<S, Term<usize>>> = Vec::new();
            let mut seen: Vec<String> = Vec::new();
            while rest.len() > 0
                invariant
                    out@.len() + rest@.len() == all.len(),
                    forall|i: int| 0 <= i < rest@.len() ==> rest@[i] == all[all.len() - 1 - i],
                    unique_names(names_of(table@)),
                    extends(names_of(table@), names0),
                    d0 <= diagnostics@.len(),
                    forall|i: int|
                        d0 <= i < diagnostics@.len() ==> (#[trigger] diagnostics@[i]).kind
                            == DiagnosticKind::Error,
                    d0 == old(diagnostics)@.len(),
                    forall|i: int| 0 <= i < d0 ==> diagnostics@[i] == old(diagnostics)@[i],
                    table_view(table@) == fold_table(tv0, elems_occs(is_head, all.take(out@.len() as int))),
                    errors_view(diagnostics@) == ev0 + fold_errors(tv0, elems_occs(is_head, all.take(out@.len() as int))),
                    forall|m: Seq<char>|
                        #![trigger seen_in(all.take(out@.len() as int), m)]
                        (exists|i: int| 0 <= i < seen@.len() && (#[trigger] seen@[i])@ == m)
                        == seen_in(all.take(out@.len() as int), m),
                    forall|i: int|
                        0 <= i < out@.len() ==> (#[trigger] out@[i]).span == all[i].span && term_indexed(
                            all[i].inner,
                            out@[i].inner,
                            names_of(table@),
                        ),
                decreases rest.len(),
            {
                let e = rest.pop().unwrap();
                let ghost names1 = names_of(table@);
                let ghost before = out@;
                let ghost k = out@.len() as int;
                let ghost a = elems_occs(is_head, all.take(k));
                let ghost tvk = table_view(table@);
                let ghost evk = errors_view(diagnostics@);
                proof {
                    assert(e == all[k]);
                    assert(all.take(k + 1).drop_last() =~= all.take(k));
                    assert(all.take(k + 1).last() == e);
                }
                let t = match e.inner {
                    AnyTerm::Variable(n) => {
                        let dup = contains_name(&seen, &n);
                        let ghost o = (is_head, e.span, n@, dup);
                        proof {
                            assert(dup == seen_in(all.take(k), n@));
                            assert(elems_occs(is_head, all.take(k + 1)) == a + seq![o]);
                            fold_composes(tv0, a, seq![o]);
                            fold_single(tvk, o);
                        }
                        if dup {
                            let ghost dd = errors_view(diagnostics@);
                            report_duplicate(&n, e.span, diagnostics);
                        }
                        let ghost ed = errors_view(diagnostics@);
                        let ghost seen0 = seen@;
                        let ghost nv = n@;
                        seen.push(n.clone());
                        proof {
                            assert forall|m: Seq<char>|
                                #![trigger seen_in(all.take(k + 1), m)]
                                (exists|i: int| 0 <= i < seen@.len() && (#[trigger] seen@[i])@ == m)
                                == seen_in(all.take(k + 1), m) by {
                                assert(seen@ == seen0.push(seen@[seen0.len() as int]));
                                assert(seen@[seen0.len() as int]@ == nv);
                                if seen_in(all.take(k + 1), m) {
                                    let i = choose|i: int| 0 <= i < all.take(k + 1).len() && (#[trigger] all.take(k + 1)[i]).inner is Variable
                                        && all.take(k + 1)[i].inner->Variable_0@ == m;
                                    if i < k {
                                        assert(all.take(k)[i] == all.take(k + 1)[i]);
                                        assert(seen_in(all.take(k), m));
                                        let j = choose|j: int| 0 <= j < seen0.len() && (#[trigger] seen0[j])@ == m;
                                        assert(seen@[j] == seen0[j]);
                                    } else {
                                        assert(all.take(k + 1)[i] == e);
                                        assert(seen@[seen0.len() as int]@ == m);
                                    }
                                }
                                if exists|i: int| 0 <= i < seen@.len() && (#[trigger] seen@[i])@ == m {
                                    let j = choose|j: int| 0 <= j < seen@.len() && (#[trigger] seen@[j])@ == m;
                                    if j < seen0.len() {
                                        assert(seen@[j] == seen0[j]);
                                        assert(exists|i: int| 0 <= i < seen0.len() && (#[trigger] seen0[i])@ == m);
                                        assert(seen_in(all.take(k), m));
                                        let i = choose|i: int| 0 <= i < all.take(k).len() && (#[trigger] all.take(k)[i]).inner is Variable
                                            && all.take(k)[i].inner->Variable_0@ == m;
                                        assert(all.take(k)[i] == all.take(k + 1)[i]);
                                    } else {
                                        assert(all.take(k + 1)[k] == e);
                                    }
                                }
                            }
                        }
                        let i = index_name(n, e.span, is_head, table, diagnostics);
                        proof {
                            assert(errors_view(diagnostics@) =~= ev0 + fold_errors(tv0, elems_occs(is_head, all.take(k + 1))));
                        }
                        AnyTerm::Variable(i)
                    },
                    AnyTerm::Value(v) => {
                        proof {
                            assert(elems_occs(is_head, all.take(k + 1)) =~= a);
                            assert forall|m: Seq<char>|
                                #![trigger seen_in(all.take(k + 1), m)]
                                seen_in(all.take(k + 1), m) == seen_in(all.take(k), m) by {
                                if seen_in(all.take(k + 1), m) {
                                    let i = choose|i: int| 0 <= i < all.take(k + 1).len() && (#[trigger] all.take(k + 1)[i]).inner is Variable
                                        && all.take(k + 1)[i].inner->Variable_0@ == m;
                                    assert(i != k);
                                    assert(all.take(k)[i] == all.take(k + 1)[i]);
                                }
                                if seen_in(all.take(k), m) {
                                    let i = choose|i: int| 0 <= i < all.take(k).len() && (#[trigger] all.take(k)[i]).inner is Variable
                                        && all.take(k)[i].inner->Variable_0@ == m;
                                    assert(all.take(k)[i] == all.take(k + 1)[i]);
                                }
                            }
                        }
                        AnyTerm::Value(v)
                    },
                };
                out.push(Spanned { span: e.span, inner: t });
                proof {
                    assert forall|i: int| 0 <= i < out@.len() implies (#[trigger] out@[i]).span
                        == all[i].span && term_indexed(all[i].inner, out@[i].inner, names_of(table@)) by {
                        if i < before.len() {
                            assert(out@[i] == before[i]);
                            assert(term_indexed(all[i].inner, before[i].inner, names1));
                        }
                    }
                }
            }
            let q = Spanned { span, inner: Pattern::Tuple(out) };
            proof {
                assert(pv == PatternModel::<S, Term<String>>::Tuple(all));
                assert(all.take(all.len() as int) =~= all);
            }
            q
        },
    }
}

/// Numbers the variables of a list of atoms.
fn index_atoms<S: Copy, R>(
    atoms: Vec<Spanned<S, Atom<S, R, Term<String>>>>,
    is_head: bool,
    table: &mut Vec<Spanned<S, String>>,
    diagnostics: &mut Vec<Diagnostic<S>>,
) -> (r: Vec<Spanned<S, Atom<S, R, Term<usize>>>>)
    requires
        unique_names(names_of(old(table)@)),
    ensures
        unique_names(names_of(final(table)@)),
        extends(names_of(final(table)@), names_of(old(table)@)),
        r@.len() == atoms@.len(),
        forall|i: int|
            0 <= i < atoms@.len() ==> atom_indexed(atoms@[i], #[trigger] r@[i], names_of(final(table)@)),
        table_view(final(table)@) == fold_table(table_view(old(table)@), atoms_occs(is_head, atoms@)),
        errors_view(final(diagnostics)@) == errors_view(old(diagnostics)@) + fold_errors(
            table_view(old(table)@),
            atoms_occs(is_head, atoms@),
        ),
        old(diagnostics)@.len() <= final(diagnostics)@.len(),
        forall|i: int| 0 <= i < old(diagnostics)@.len() ==> final(diagnostics)@[i] == old(diagnostics)@[i],
        forall|i: int|
            old(diagnostics)@.len() <= i < final(diagnostics)@.len() ==> final(diagnostics)@[i].kind == DiagnosticKind::Error,
{
    let ghost all = atoms@;
    let ghost names0 = names_of(table@);
    let ghost d0 = diagnostics@.len();
    let ghost tv0 = table_view(table@);
    let ghost ev0 = errors_view(diagnostics@);
    proof {
        assert(all.take(0) =~= Seq::<Spanned<S, Atom<S, R, Term<String>>>>::empty());
        assert(ev0 + fold_errors(tv0, atoms_occs(is_head, all.take(0))) =~= ev0);
    }
    let mut rest = reversed(atoms);
    let mut out: Vec<Spanned<S, Atom<S, R, Term<usize>>>> = Vec::new();
    while rest.len() > 0
        invariant
            out@.len() + rest@.len() == all.len(),
            forall|i: int| 0 <= i < rest@.len() ==> rest@[i] == all[all.len() - 1 - i],
            unique_names(names_of(table@)),
            extends(names_of(table@), names0),
            d0 <= diagnostics@.len(),
            forall|i: int|
                d0 <= i < diagnostics@.len() ==> (#[trigger] diagnostics@[i]).kind == DiagnosticKind::Error,
            d0 == old(diagnostics)@.len(),
            forall|i: int| 0 <= i < d0 ==> diagnostics@[i] == old(diagnostics)@[i],
            forall|i: int| 0 <= i < out@.len() ==> atom_indexed(all[i], #[trigger] out@[i], names_of(table@)),
            table_view(table@) == fold_table(tv0, atoms_occs(is_head, all.take(out@.len() as int))),
            errors_view(diagnostics@) == ev0 + fold_errors(tv0, atoms_occs(is_head, all.take(out@.len() as int))),
        decreases rest.len(),
    {
        let a = rest.pop().unwrap();
        let ghost names1 = names_of(table@);
        let ghost before = out@;
        let ghost k = out@.len() as int;
        proof {
            assert(a == all[k]);
            assert(all.take(k + 1).drop_last() =~= all.take(k));
            assert(all.take(k + 1).last() == a);
            fold_composes(tv0, atoms_occs(is_head, all.take(k)), pattern_occs(is_head, a.inner.pattern));
        }
        let span = a.span;
        let Atom { relation, pattern } = a.inner;
        let pattern = index_pattern(pattern, is_head, table, diagnostics);
        out.push(Spanned { span, inner: Atom { relation, pattern } });
        proof {
            assert forall|i: int| 0 <= i < out@.len() implies atom_indexed(
                all[i],
                #[trigger] out@[i],
                names_of(table@),
            ) by {
                if i < before.len() {
                    assert(out@[i] == before[i]);
                    atom_indexed_extends(all[i], before[i], names1, names_of(table@));
                }
            }
        }
    }
    proof {
        assert(all.take(all.len() as int) =~= all);
    }
    out
}

/// Whether the rule `b` is the rule `a` with its variables numbered by `names`.
pub open spec fn rule_indexed<S, R>(a: Rule<S, R, String>, b: Rule<S, R, usize>, names: Seq<Seq<char>>) -> bool {
    &&& atom_indexed(a.head, b.head, names)
    &&& b.body@.len() == a.body@.len()
    &&& forall|i: int| 0 <= i < a.body@.len() ==> atom_indexed(a.body@[i], #[trigger] b.body@[i], names)
}

/// Numbers the variables of a rule: the body first, then the head.
fn index_rule<S: Copy, R>(
    rule: Rule<S, R, String>,
    table: &mut Vec<Spanned<S, String>>,
    diagnostics: &mut Vec<Diagnostic<S>>,
) -> (r: Rule<S, R, usize>)
    requires
        unique_names(names_of(old(table)@)),
    ensures
        unique_names(names_of(final(table)@)),
        extends(names_of(final(table)@), names_of(old(table)@)),
        rule_indexed(rule, r, names_of(final(table)@)),
        table_view(final(table)@) == fold_table(table_view(old(table)@), rule_occs(rule)),
        errors_view(final(diagnostics)@) == errors_view(old(diagnostics)@) + fold_errors(
            table_view(old(table)@),
            rule_occs(rule),
        ),
        old(diagnostics)@.len() <= final(diagnostics)@.len(),
        forall|i: int| 0 <= i < old(diagnostics)@.len() ==> final(diagnostics)@[i] == old(diagnostics)@[i],
        forall|i: int|
            old(diagnostics)@.len() <= i < final(diagnostics)@.len() ==> final(diagnostics)@[i].kind == DiagnosticKind::Error,
{
    let ghost rv = rule;
    proof {
        fold_composes(table_view(table@), atoms_occs(false, rule.body@), pattern_occs(true, rule.head.inner.pattern));
    }
    let Rule { head, body } = rule;
    let body = index_atoms(body, false, table, diagnostics);
    let ghost names1 = names_of(table@);
    let span = head.span;
    let Atom { relation, pattern } = head.inner;
    let pattern = index_pattern(pattern, true, table, diagnostics);
    let r = Rule { head: Spanned { span, inner: Atom { relation, pattern } }, body };
    proof {
        assert forall|i: int| 0 <= i < rv.body@.len() implies atom_indexed(
            rv.body@[i],
            #[trigger] r.body@[i],
            names_of(table@),
        ) by {
            atom_indexed_extends(rv.body@[i], r.body@[i], names1, names_of(table@));
        }
    }
    r
}

/// Whether the indexed item `b` is the item `a` with its variables numbered
/// by `names`.
pub open spec fn item_indexed<S, R>(
    a: ModuleItem<S, R, String>,
    b: ModuleItem<S, R, usize>,
    names: Seq<Seq<char>>,
) -> bool {
    match a {
        ModuleItem::Rule(x) => b is Rule && rule_indexed(x, b->Rule_0, names),
        ModuleItem::Decision(x) => b is Decision && rule_indexed(x.0, b->Decision_0.0, names),
        ModuleItem::Constraint(x) => b is Constraint && b->Constraint_0.kind == x.kind
            && b->Constraint_0.body@.len() == x.body@.len() && (forall|i: int|
            0 <= i < x.body@.len() ==> atom_indexed(x.body@[i], #[trigger] b->Constraint_0.body@[i], names))
            && b->Constraint_0.captures@.len() == x.captures@.len() && forall|i: int|
            0 <= i < x.captures@.len() ==> (#[trigger] b->Constraint_0.captures@[i]).span
                == x.captures@[i].span && (b->Constraint_0.captures@[i].inner as int) < names.len()
                && names[b->Constraint_0.captures@[i].inner as int] == x.captures@[i].inner@,
        ModuleItem::Diagnostic(d) => b == ModuleItem::<S, R, usize>::Diagnostic(d),
    }
}

impl<S: Copy, R> ModuleItem<S, R, String> {
    /// Numbers the variables of an item by order of first appearance, body
    /// before head, and lists their names. A variable's span is that of its
    /// head occurrence where it has one. Each variable that first appears in
    /// a head or a capture gets an error, and so does each later occurrence of a
    /// name within one pattern; all are tagged with the document `url`.
    pub fn index_variables(input: (String, Self)) -> (r: (IndexedItem<S, R>, Vec<(String, Diagnostic<S>)>))
        ensures
            r.0.url == input.0,
            unique_names(names_of(r.0.variables@)),
            item_indexed(input.1, r.0.inner, names_of(r.0.variables@)),
            table_view(r.0.variables@) == fold_table(TableModel::<S>::empty(), item_occs(input.1)),
            r.1@.map_values(|t: (String, Diagnostic<S>)| crate::infer::error_of(t.1)) == fold_errors(
                TableModel::<S>::empty(),
                item_occs(input.1),
            ),
            forall|i: int|
                0 <= i < r.1@.len() ==> (#[trigger] r.1@[i]).0@ == input.0@ && r.1@[i].1.kind
                    == DiagnosticKind::Error,
    {
        let (url, item) = input;
        let ghost iv = item;
        let ghost empty = TableModel::<S>::empty();
        let mut table: Vec<Spanned<S, String>> = Vec::new();
        let mut diagnostics: Vec<Diagnostic<S>> = Vec::new();
        proof {
            assert(names_of(table@) =~= Seq::<Seq<char>>::empty());
            assert(table_view(table@) =~= empty);
            assert(errors_view(diagnostics@) =~= Seq::<ErrorModel<S>>::empty());
        }
        let inner = match item {
            ModuleItem::Rule(x) => {
                let ghost occs = rule_occs(x);
                let r = index_rule(x, &mut table, &mut diagnostics);
                proof {
                    assert(errors_view(diagnostics@) =~= fold_errors(empty, occs));
                }
                ModuleItem::Rule(r)
            },
            ModuleItem::Decision(x) => {
                let ghost occs = rule_occs(x.0);
                let r = index_rule(x.0, &mut table, &mut diagnostics);
                proof {
                    assert(errors_view(diagnostics@) =~= fold_errors(empty, occs));
                }
                ModuleItem::Decision(Decision(r))
            },
            ModuleItem::Constraint(x) => {
                let Constraint { captures, kind, body } = x;
                let ghost cv = captures@;
                let ghost bv = body@;
                let body = index_atoms(body, false, &mut table, &mut diagnostics);
                let ghost names1 = names_of(table@);
                let ghost tv1 = table_view(table@);
                let ghost ev1 = errors_view(diagnostics@);
                proof {
                    assert(cv.take(0) =~= Seq::<Spanned<S, String>>::empty());
                    assert(ev1 + fold_errors(tv1, captures_occs(cv.take(0))) =~= ev1);
                    fold_composes(empty, atoms_occs(false, bv), captures_occs(cv));
                }
                let mut rest = reversed(captures);
                let mut out: Vec<Spanned<S, usize>> = Vec::new();
                while rest.len() > 0
                    invariant
                        out@.len() + rest@.len() == cv.len(),
                        forall|i: int| 0 <= i < rest@.len() ==> rest@[i] == cv[cv.len() - 1 - i],
                        unique_names(names_of(table@)),
                        extends(names_of(table@), names1),
                        forall|i: int| 0 <= i < diagnostics@.len() ==> (#[trigger] diagnostics@[i]).kind
                            == DiagnosticKind::Error,
                        forall|i: int|
                            0 <= i < out@.len() ==> (#[trigger] out@[i]).span == cv[i].span
                                && (out@[i].inner as int) < names_of(table@).len()
                                && names_of(table@)[out@[i].inner as int] == cv[i].inner@,
                        table_view(table@) == fold_table(tv1, captures_occs(cv.take(out@.len() as int))),
                        errors_view(diagnostics@) == ev1 + fold_errors(tv1, captures_occs(cv.take(out@.len() as int))),
                    decreases rest.len(),
                {
                    let c = rest.pop().unwrap();
                    let ghost k = out@.len() as int;
                    proof {
                        assert(c == cv[k]);
                        assert(cv.take(k + 1).drop_last() =~= cv.take(k));
                        assert(cv.take(k + 1).last() == c);
                        fold_composes(tv1, captures_occs(cv.take(k)), seq![(true, c.span, c.inner@, false)]);
                        fold_single(table_view(table@), (true, c.span, c.inner@, false));
                    }
                    let ghost names2 = names_of(table@);
                    let ghost before = out@;
                    let i = index_name(c.inner, c.span, true, &mut table, &mut diagnostics);
                    out.push(Spanned { span: c.span, inner: i });
                    proof {
                        assert forall|j: int| 0 <= j < out@.len() implies (#[trigger] out@[j]).span
                            == cv[j].span && (out@[j].inner as int) < names_of(table@).len()
                            && names_of(table@)[out@[j].inner as int] == cv[j].inner@ by {
                            if j < before.len() {
                                assert(out@[j] == before[j]);
                                assert(names2[before[j].inner as int] == cv[j].inner@);
                            }
                        }
                    }
                }
                proof {
                    assert forall|i: int| 0 <= i < bv.len() implies atom_indexed(
                        bv[i],
                        #[trigger] body@[i],
                        names_of(table@),
                    ) by {
                        atom_indexed_extends(bv[i], body@[i], names1, names_of(table@));
                    }
                    assert(cv.take(cv.len() as int) =~= cv);
                    assert(errors_view(diagnostics@) =~= fold_errors(empty, atoms_occs(false, bv) + captures_occs(cv)));
                }
                ModuleItem::Constraint(Constraint { captures: out, kind, body })
            },
            ModuleItem::Diagnostic(d) => ModuleItem::Diagnostic(d),
        };
        let ghost ds = diagnostics@;
        let mut tagged: Vec<(String, Diagnostic<S>)> = Vec::new();
        let mut rest = reversed(diagnostics);
        while rest.len() > 0
            invariant
                tagged@.len() + rest@.len() == ds.len(),
                forall|i: int| 0 <= i < rest@.len() ==> rest@[i] == ds[ds.len() - 1 - i],
                forall|i: int| 0 <= i < tagged@.len() ==> (#[trigger] tagged@[i]).1 == ds[i],
                forall|i: int| 0 <= i < rest@.len() ==> (#[trigger] rest@[i]).kind == DiagnosticKind::Error,
                forall|i: int| 0 <= i < tagged@.len() ==> (#[trigger] tagged@[i]).0@ == url@ && tagged@[i].1.kind
                    == DiagnosticKind::Error,
            decreases rest.len(),
        {
            let d = rest.pop().unwrap();
            tagged.push((url.clone(), d));
        }
        proof {
            assert(tagged@.map_values(|t: (String, Diagnostic<S>)| crate::infer::error_of(t.1)) =~= errors_view(ds));
        }
        (IndexedItem { url, variables: table, inner }, tagged)
    }
}

} // verus!
