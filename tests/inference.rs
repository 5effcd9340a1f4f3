use archimedes::harness::{lane_of, Action, Coordinator, Phase};
use archimedes::infer::{merge_var_types, resolve_proposed_types};
use archimedes::node::ResourceId;
use archimedes::syntax::{AnyTerm, Diagnostic, DiagnosticKind, InlayHint, Pattern, Spanned, Type};
use archimedes::value::{PrimitiveType, Value};
use archimedes::value::PrimitiveType::{Integer, Symbol};

type SpanKey = (u64, usize);

fn rel(name: &str) -> ResourceId {
    ResourceId::SourceSymbol("file:///rules.fm".to_string(), name.to_string())
}

fn tuple_type(at: usize, prims: &[PrimitiveType]) -> Type<SpanKey> {
    Spanned {
        span: (0, at),
        inner: Pattern::Tuple(
            prims
                .iter()
                .enumerate()
                .map(|(i, p)| Spanned { span: (0, at + 1 + i), inner: *p })
                .collect(),
        ),
    }
}

fn var(at: usize, idx: usize) -> Spanned<SpanKey, AnyTerm<usize, PrimitiveType>> {
    Spanned { span: (1, at), inner: AnyTerm::Variable(idx) }
}

#[test]
fn first_proposal_wins_and_conflict_is_diagnosed() {
    let first = tuple_type(0, &[Integer, Integer]);
    let second = tuple_type(10, &[Symbol, Integer]);
    let out = resolve_proposed_types(&rel("edge"), vec![first.clone(), second.clone()]);
    assert_eq!(out.len(), 2);
    match &out[0] {
        Ok((r, ty)) => {
            assert_eq!(r, &rel("edge"));
            assert_eq!(ty, &first);
        }
        Err(_) => panic!("the first proposal must be canonical"),
    }
    match &out[1] {
        Err(d) => {
            assert_eq!(d.span, (0, 10));
            assert_eq!(d.kind, DiagnosticKind::Error);
            assert_eq!(d.message, "Expected (Integer, Integer), got (Symbol, Integer)");
            assert_eq!(d.labels.len(), 2);
            assert_eq!(d.labels[0].span, (0, 0));
            assert_eq!(d.labels[1].span, (0, 10));
        }
        Ok(_) => panic!("the second proposal must be diagnosed"),
    }
    let again = resolve_proposed_types(&rel("edge"), vec![first, second]);
    assert_eq!(again, out);
}

#[test]
fn agreeing_proposals_are_not_diagnosed() {
    let out = resolve_proposed_types(
        &rel("edge"),
        vec![tuple_type(0, &[Integer]), tuple_type(5, &[Integer]), tuple_type(9, &[Symbol])],
    );
    assert_eq!(out.len(), 2);
    assert!(out[0].is_ok());
    assert_eq!(out[1].as_ref().unwrap_err().span, (0, 9));
    assert!(resolve_proposed_types::<SpanKey>(&rel("edge"), Vec::new()).is_empty());
}

#[test]
fn conflicting_relation_still_types_other_rules() {
    // `a` has conflicting proposals; `b` has one.
    let a = resolve_proposed_types(
        &rel("a"),
        vec![tuple_type(0, &[Integer, Symbol]), tuple_type(20, &[Symbol])],
    );
    let b = resolve_proposed_types(&rel("b"), vec![tuple_type(40, &[Symbol])]);
    let a_type = a[0].as_ref().unwrap().1.clone();
    assert!(a[1].is_err());
    assert_eq!(b.len(), 1);
    assert!(b[0].is_ok());
    // A body atom `a(x, y)` still unifies with the canonical type of `a`.
    let pattern = Spanned { span: (1, 0), inner: Pattern::Tuple(vec![var(1, 0), var(2, 1)]) };
    let unified = pattern.unify(99u64, &a_type);
    assert_eq!(unified.len(), 2);
    let bound: Vec<(usize, Pattern<SpanKey, PrimitiveType>)> = unified
        .iter()
        .map(|r| {
            let (key, (v, ty)) = r.as_ref().unwrap();
            assert_eq!(*key, 99);
            (v.inner, ty.inner.clone())
        })
        .collect();
    assert_eq!(bound, vec![(0, Pattern::Leaf(Integer)), (1, Pattern::Leaf(Symbol))]);
}

#[test]
fn unify_reports_arity_and_literal_mismatches() {
    let target = tuple_type(0, &[Integer, Symbol]);
    let short = Spanned { span: (1, 0), inner: Pattern::Tuple(vec![var(1, 0)]) };
    let out = short.unify(1u64, &target);
    assert_eq!(out.len(), 1);
    let d = out[0].as_ref().unwrap_err();
    assert_eq!(d.span, (0, 0));
    assert_eq!(d.message, "Expected tuple of arity 1, got tuple of arity 2");
    let literal = Spanned {
        span: (1, 0),
        inner: Pattern::Tuple(vec![
            Spanned { span: (1, 1), inner: AnyTerm::Value(Symbol) },
            var(2, 0),
        ]),
    };
    let out = literal.unify(1u64, &target);
    assert_eq!(out.len(), 2);
    assert!(out[0].is_ok());
    let d = out[1].as_ref().unwrap_err();
    assert_eq!(d.span, (0, 1));
    assert_eq!(d.message, "Expected Symbol, got Integer");
}

#[test]
fn merge_keeps_first_binding_per_variable() {
    let int = |at: usize| Spanned { span: (2, at), inner: Pattern::Leaf(Integer) };
    let sym = |at: usize| Spanned { span: (2, at), inner: Pattern::Leaf(Symbol) };
    let vs = |at: usize, v: usize| Spanned { span: (3, at), inner: v };
    let out = merge_var_types(5, vec![(vs(0, 0), int(0)), (vs(1, 1), sym(1)), (vs(2, 0), int(2)), (vs(3, 0), sym(3))]);
    assert_eq!(out.len(), 2);
    let d = out[0].as_ref().unwrap_err();
    assert_eq!(d.span, (3, 3));
    assert_eq!(d.message, "Pattern expects Symbol but got Integer");
    let (key, map) = out[1].as_ref().unwrap();
    assert_eq!(*key, 5);
    assert_eq!(map, &vec![(0, int(0)), (1, sym(1))]);
    assert!(merge_var_types::<SpanKey>(5, Vec::new()).is_empty());
}

#[test]
fn head_pattern_takes_the_variable_types() {
    let vars = vec![
        (0usize, Spanned { span: (2, 0), inner: Pattern::Leaf(Integer) }),
        (1usize, Spanned { span: (2, 1), inner: Pattern::Leaf(Symbol) }),
    ];
    let head = Spanned { span: (4, 0), inner: Pattern::Tuple(vec![var(0, 1), var(1, 0)]) };
    let ty = head.flat_quantify(&vars).unwrap();
    assert_eq!(ty.span, (4, 0));
    assert_eq!(
        ty.inner,
        Pattern::Tuple(vec![Spanned { span: (1, 0), inner: Symbol }, Spanned { span: (1, 1), inner: Integer }])
    );
    let unbound = Spanned { span: (4, 0), inner: Pattern::Tuple(vec![var(0, 7)]) };
    assert!(unbound.flat_quantify(&vars).is_none());
}

#[test]
fn term_lookup_and_value_types() {
    let lookup = vec![(3usize, PrimitiveType::Symbol)];
    assert_eq!(AnyTerm::<usize, PrimitiveType>::Variable(3).flat_quantify(&lookup), Some(PrimitiveType::Symbol));
    assert_eq!(AnyTerm::<usize, PrimitiveType>::Variable(4).flat_quantify(&lookup), None);
    assert_eq!(AnyTerm::<usize, PrimitiveType>::Value(PrimitiveType::Integer).flat_quantify(&lookup), Some(PrimitiveType::Integer));
    assert_eq!(Value::Integer(4).ty(), PrimitiveType::Integer);
    assert_eq!(Value::Symbol("x".to_string()).ty(), PrimitiveType::Symbol);
    assert!(Spanned { span: 1u8, inner: None::<u8> }.flatten().is_none());
    assert_eq!(Spanned { span: 1u8, inner: Some(2u8) }.flatten(), Some(Spanned { span: 1u8, inner: 2u8 }));
}

#[test]
fn diagnostics_and_hints_move_spans() {
    let d = Diagnostic {
        span: 1u32,
        kind: DiagnosticKind::Warning,
        message: "m".to_string(),
        labels: vec![Spanned { span: 2u32, inner: "a".to_string() }, Spanned { span: 3u32, inner: "b".to_string() }],
    };
    assert_eq!(d.clone().span_set(), vec![1, 2, 3]);
    let moved = d.with_span("here");
    assert_eq!(moved.span, "here");
    assert_eq!(moved.kind, DiagnosticKind::Warning);
    let hint = InlayHint { span: 0u8, contents: ": Integer".to_string() }.with_span(9u16);
    assert_eq!(hint.span, 9u16);
    assert_eq!(hint.contents, ": Integer");
}

#[test]
fn results_wait_for_the_slowest_lane() {
    let mut c: Coordinator<u32> = Coordinator::new(3);
    assert_eq!(c.on_batch(), Action::Advance(1));
    assert_eq!(c.on_batch(), Action::Ignore);
    assert_eq!(c.on_report(0, 1, vec![10]), Action::Wait);
    assert_eq!(c.on_report(0, 1, vec![11]), Action::Ignore);
    assert_eq!(c.on_report(2, 0, vec![12]), Action::Ignore);
    assert!(c.take_results().is_none());
    assert_eq!(c.on_report(2, 1, vec![20, 21]), Action::Wait);
    assert!(c.take_results().is_none());
    assert_eq!(c.on_report(1, 1, vec![]), Action::Publish);
    assert_eq!(c.phase, Phase::ResultsCollected);
    assert_eq!(c.take_results(), Some(vec![10, 20, 21]));
    assert_eq!(c.phase, Phase::Idle);
    assert_eq!(c.on_batch(), Action::Advance(2));
}

#[test]
fn types_render_at_their_span() {
    let t = tuple_type(3, &[Integer, Symbol]);
    let s = t.to_spanned_string();
    assert_eq!(s.span, (0, 3));
    assert_eq!(s.inner, "(Integer, Symbol)");
    let leaf: Type<SpanKey> = Spanned { span: (0, 9), inner: Pattern::Leaf(Symbol) };
    assert_eq!(leaf.to_spanned_string().inner, "Symbol");
}

#[test]
fn relations_spread_over_lanes() {
    assert_eq!(lane_of(&rel("edge"), 3), 1);
    assert_eq!(lane_of(&rel("path"), 4), 0);
    assert_eq!(lane_of(&rel("a"), 1), 0);
}

#[test]
fn unify_tuple_against_primitive_names_the_type() {
    let target: Type<SpanKey> = Spanned { span: (0, 7), inner: Pattern::Leaf(Integer) };
    let pair = Spanned { span: (1, 0), inner: Pattern::Tuple(vec![var(1, 0), var(2, 1)]) };
    let out = pair.unify(1u64, &target);
    assert_eq!(out.len(), 1);
    let d = out[0].as_ref().unwrap_err();
    assert_eq!(d.span, (0, 7));
    assert_eq!(d.message, "Expected tuple of arity 2, got Integer");
}

#[test]
fn merged_results_follow_lane_order() {
    let mut c: Coordinator<u32> = Coordinator::new(2);
    assert_eq!(c.on_batch(), Action::Advance(1));
    assert_eq!(c.on_report(1, 1, vec![7, 8]), Action::Wait);
    assert_eq!(c.on_report(0, 1, vec![1]), Action::Publish);
    assert_eq!(c.take_results(), Some(vec![1, 7, 8]));
}
