use archimedes::frontend::{infer_types, item_hints, resolve_relation_types, IndexedItem};
use archimedes::items::{Atom, ConstraintKind, Constraint, Decision, ModuleItem, ModuleItems, Rule};
use archimedes::node::ResourceId;
use archimedes::syntax::{AnyTerm, Diagnostic, DiagnosticKind, Pattern, Spanned, Term};
use archimedes::value::PrimitiveType::{Integer, Symbol};
use archimedes::value::{PrimitiveType, Value};

const DOC: &str = "file:///rules.fm";

fn rel(name: &str) -> ResourceId {
    ResourceId::SourceSymbol(DOC.to_string(), name.to_string())
}

fn v(at: u32, name: &str) -> Spanned<u32, Term<String>> {
    Spanned { span: at, inner: AnyTerm::Variable(name.to_string()) }
}

fn integer(at: u32, x: i64) -> Spanned<u32, Term<String>> {
    Spanned { span: at, inner: AnyTerm::Value(Value::Integer(x)) }
}

fn sym(at: u32, x: &str) -> Spanned<u32, Term<String>> {
    Spanned { span: at, inner: AnyTerm::Value(Value::Symbol(x.to_string())) }
}

fn atom(at: u32, r: &str, terms: Vec<Spanned<u32, Term<String>>>) -> Spanned<u32, Atom<u32, ResourceId, Term<String>>> {
    Spanned {
        span: at,
        inner: Atom {
            relation: Spanned { span: at, inner: rel(r) },
            pattern: Spanned { span: at + 1, inner: Pattern::Tuple(terms) },
        },
    }
}

fn fact(at: u32, r: &str, terms: Vec<Spanned<u32, Term<String>>>) -> ModuleItem<u32, ResourceId, String> {
    ModuleItem::Rule(Rule { head: atom(at, r, terms), body: vec![] })
}

fn indexed(item: ModuleItem<u32, ResourceId, String>) -> IndexedItem<u32, ResourceId> {
    ModuleItem::index_variables((DOC.to_string(), item)).0
}

fn type_of(inf: &archimedes::frontend::Inference<u32>, r: &str) -> Option<Vec<PrimitiveType>> {
    inf.types.iter().find(|(id, _)| *id == rel(r)).map(|(_, t)| match &t.inner {
        Pattern::Tuple(els) => els.iter().map(|e| e.inner).collect(),
        Pattern::Leaf(p) => vec![*p],
    })
}

#[test]
fn indexing_numbers_variables_by_first_appearance() {
    // path(x, z) :- path(x, y), edge(y, z).
    let rule = Rule {
        head: atom(100, "path", vec![v(101, "x"), v(102, "z")]),
        body: vec![atom(10, "path", vec![v(11, "x"), v(12, "y")]), atom(20, "edge", vec![v(21, "y"), v(22, "z")])],
    };
    let (item, diagnostics) = ModuleItem::index_variables((DOC.to_string(), ModuleItem::Rule(rule)));
    assert!(diagnostics.is_empty());
    let names: Vec<&str> = item.variables.iter().map(|n| n.inner.as_str()).collect();
    assert_eq!(names, vec!["x", "y", "z"]);
    // head occurrences take over the spans
    assert_eq!(item.variables[0].span, 101);
    assert_eq!(item.variables[1].span, 12);
    assert_eq!(item.variables[2].span, 102);
    match item.inner {
        ModuleItem::Rule(r) => {
            assert_eq!(r.head.inner.pattern.inner, Pattern::Tuple(vec![
                Spanned { span: 101, inner: AnyTerm::Variable(0) },
                Spanned { span: 102, inner: AnyTerm::Variable(2) },
            ]));
        }
        _ => panic!("a rule stays a rule"),
    }
}

#[test]
fn head_only_variable_is_diagnosed() {
    let rule = Rule { head: atom(100, "p", vec![v(101, "w")]), body: vec![atom(10, "q", vec![v(11, "x")])] };
    let (_, diagnostics) = ModuleItem::index_variables((DOC.to_string(), ModuleItem::Decision(Decision(rule))));
    assert_eq!(diagnostics.len(), 1);
    assert_eq!(diagnostics[0].0, DOC);
    assert_eq!(diagnostics[0].1.span, 101);
    assert_eq!(diagnostics[0].1.message, "\"w\" does not appear within body");
    assert_eq!(diagnostics[0].1.kind, DiagnosticKind::Error);
}

#[test]
fn constraint_captures_are_indexed() {
    let c = Constraint {
        captures: vec![Spanned { span: 1, inner: "x".to_string() }],
        kind: Spanned { span: 2, inner: ConstraintKind::Uniform },
        body: vec![atom(10, "q", vec![v(11, "x")])],
    };
    let (item, diagnostics) = ModuleItem::index_variables((DOC.to_string(), ModuleItem::Constraint(c)));
    assert!(diagnostics.is_empty());
    match item.inner {
        ModuleItem::Constraint(c) => assert_eq!(c.captures, vec![Spanned { span: 1, inner: 0 }]),
        _ => panic!("a constraint stays a constraint"),
    }
}

#[test]
fn inference_types_closure_rules() {
    let items = vec![
        indexed(fact(0, "edge", vec![integer(1, 1), integer(2, 2)])),
        indexed(ModuleItem::Rule(Rule {
            head: atom(100, "path", vec![v(101, "x"), v(102, "y")]),
            body: vec![atom(10, "edge", vec![v(11, "x"), v(12, "y")])],
        })),
    ];
    let inf = infer_types(&items, 20);
    assert!(inf.converged);
    assert_eq!(type_of(&inf, "edge"), Some(vec![Integer, Integer]));
    assert_eq!(type_of(&inf, "path"), Some(vec![Integer, Integer]));
    assert!(inf.diagnostics.is_empty());
    let hints = items[1].type_hints(&inf.var_types.iter().find(|(i, _)| *i == 1).unwrap().1);
    assert_eq!(hints.len(), 2);
    assert_eq!(hints[0].contents, ": Integer");
    assert_eq!(hints[0].span, 101);
}

#[test]
fn conflicting_relation_keeps_a_type_and_others_are_unaffected() {
    let items = vec![
        indexed(fact(0, "a", vec![integer(1, 1)])),
        indexed(fact(5, "a", vec![sym(6, "s")])),
        indexed(fact(20, "b", vec![sym(21, "t"), integer(22, 3)])),
        indexed(ModuleItem::Rule(Rule {
            head: atom(100, "c", vec![v(101, "x")]),
            body: vec![atom(10, "a", vec![v(11, "x")])],
        })),
    ];
    let inf = infer_types(&items, 20);
    assert!(inf.converged);
    assert_eq!(type_of(&inf, "a"), Some(vec![Integer]));
    assert_eq!(type_of(&inf, "b"), Some(vec![Symbol, Integer]));
    assert_eq!(type_of(&inf, "c"), Some(vec![Integer]));
    let mismatches: Vec<&Diagnostic<u32>> = inf.diagnostics.iter().filter(|d| d.message.starts_with("Expected")).collect();
    assert_eq!(mismatches.len(), 1);
    assert_eq!(mismatches[0].span, 5);
    assert_eq!(mismatches[0].message, "Expected (Integer), got (Symbol)");
    let again = infer_types(&items, 20);
    assert_eq!(type_of(&again, "a"), Some(vec![Integer]));
    assert_eq!(again.diagnostics, inf.diagnostics);
}

#[test]
fn unresolved_variable_gets_unknown_hint() {
    let items = vec![indexed(ModuleItem::Rule(Rule {
        head: atom(100, "c", vec![v(101, "x")]),
        body: vec![atom(10, "missing", vec![v(11, "x")])],
    }))];
    let inf = infer_types(&items, 5);
    assert!(inf.types.is_empty());
    let hints = items[0].type_hints(&Vec::new());
    assert_eq!(hints[0].contents, ": {unknown}");
    let d = items[0].unknown_type_diagnostics(&Vec::new());
    assert_eq!(d.len(), 1);
    assert_eq!(d[0].message, "Unknown type");
    assert_eq!(d[0].span, 101);
}

#[test]
fn resolution_over_all_relations_keeps_first_per_relation() {
    let t = |at: u32, p: PrimitiveType| Spanned { span: at, inner: Pattern::Leaf(p) };
    let (types, diagnostics) = resolve_relation_types(&vec![
        (rel("a"), t(0, Integer)),
        (rel("b"), t(1, Symbol)),
        (rel("a"), t(2, Symbol)),
        (rel("a"), t(3, Integer)),
    ]);
    assert_eq!(types, vec![(rel("a"), t(0, Integer)), (rel("b"), t(1, Symbol))]);
    assert_eq!(diagnostics.len(), 1);
    assert_eq!(diagnostics[0].span, 2);
    assert_eq!(diagnostics[0].message, "Expected Integer, got Symbol");
}

#[test]
fn base_type_of_a_fact() {
    let r: Rule<u32, ResourceId, String> = Rule { head: atom(0, "e", vec![integer(1, 4), sym(2, "k")]), body: vec![] };
    let (relation, ty) = r.base_type().unwrap();
    assert_eq!(relation, rel("e"));
    assert_eq!(ty.span, 0);
    assert_eq!(ty.inner, Pattern::Tuple(vec![Spanned { span: 1, inner: Integer }, Spanned { span: 2, inner: Symbol }]));
    let not_fact: Rule<u32, ResourceId, String> = Rule { head: atom(0, "e", vec![v(1, "x")]), body: vec![] };
    assert!(not_fact.base_type().is_none());
}

#[test]
fn mapping_relations_and_variables() {
    let rule = Rule {
        head: atom(100, "p", vec![v(101, "x")]),
        body: vec![atom(10, "q", vec![v(11, "x"), integer(12, 7)])],
    };
    let renamed = rule.clone().map_relations(&|_s: u32, r: ResourceId| match r {
        ResourceId::SourceSymbol(_, name) => name.len(),
    });
    assert_eq!(renamed.head.inner.relation.inner, 1);
    assert_eq!(renamed.body[0].inner.relation.inner, 1);
    let flagged = rule.map_variables(&|head: bool, _s: u32, name: String| (head, name));
    assert_eq!(flagged.head.inner.pattern.inner, Pattern::Tuple(vec![Spanned { span: 101, inner: AnyTerm::Variable((true, "x".to_string())) }]));
    assert_eq!(
        flagged.body[0].inner.pattern.inner,
        Pattern::Tuple(vec![
            Spanned { span: 11, inner: AnyTerm::Variable((false, "x".to_string())) },
            Spanned { span: 12, inner: AnyTerm::Value(Value::Integer(7)) },
        ])
    );
}

#[test]
fn module_items_in_order() {
    let d = Diagnostic { span: 9u32, kind: DiagnosticKind::Note, message: "n".to_string(), labels: vec![] };
    let items: ModuleItems<u32, ResourceId, String> = ModuleItems {
        rules: vec![Rule { head: atom(0, "a", vec![integer(1, 1)]), body: vec![] }],
        decisions: vec![],
        constraints: vec![],
        diagnostics: vec![d.clone()],
    };
    let all = items.to_vec();
    assert_eq!(all.len(), 2);
    assert!(matches!(all[0], ModuleItem::Rule(_)));
    assert_eq!(ModuleItem::diagnostic((5u8, all[1].clone())), Some((5u8, d)));
    assert!(ModuleItem::rule((5u8, all[1].clone())).is_none());
    assert!(ModuleItem::rule((5u8, all[0].clone())).is_some());
}

#[test]
fn pattern_leaves_map_and_quantify() {
    let p: Spanned<u32, Pattern<u32, AnyTerm<usize, PrimitiveType>>> = Spanned {
        span: 0,
        inner: Pattern::Tuple(vec![
            Spanned { span: 1, inner: AnyTerm::Variable(0) },
            Spanned { span: 2, inner: AnyTerm::Value(Symbol) },
        ]),
    };
    let q = p.clone().quantify(&|_s: u32, _v: usize| Integer);
    assert_eq!(q.inner, Pattern::Tuple(vec![Spanned { span: 1, inner: Integer }, Spanned { span: 2, inner: Symbol }]));
    let m = p.clone().map_variables(&|s: u32, v: usize| v + s as usize);
    assert_eq!(m.inner, Pattern::Tuple(vec![
        Spanned { span: 1, inner: AnyTerm::Variable(1) },
        Spanned { span: 2, inner: AnyTerm::Value(Symbol) },
    ]));
    let none = p.clone().flat_map_leaves(&|_s: u32, t: AnyTerm<usize, PrimitiveType>| match t {
        AnyTerm::Variable(_) => None,
        AnyTerm::Value(x) => Some(x),
    });
    assert!(none.is_none());
    let leaves = p.map_leaves(&|s: u32, _t: AnyTerm<usize, PrimitiveType>| s);
    assert_eq!(leaves.inner, Pattern::Tuple(vec![Spanned { span: 1, inner: 1u32 }, Spanned { span: 2, inner: 2u32 }]));
    let mapped = Spanned { span: 3u8, inner: 4u8 }.map(|x| x * 2);
    assert_eq!(mapped, Spanned { span: 3u8, inner: 8u8 });
}

#[test]
fn variables_follow_first_occurrence_body_before_head() {
    // p(z, w) :- q(y, z), r(z, x).
    let rule = Rule {
        head: atom(100, "p", vec![v(101, "z"), v(102, "w")]),
        body: vec![atom(10, "q", vec![v(11, "y"), v(12, "z")]), atom(20, "r", vec![v(21, "z"), v(22, "x")])],
    };
    let (item, diagnostics) = ModuleItem::index_variables((DOC.to_string(), ModuleItem::Rule(rule)));
    let names: Vec<&str> = item.variables.iter().map(|n| n.inner.as_str()).collect();
    assert_eq!(names, vec!["y", "z", "x", "w"]);
    assert_eq!(item.variables[1].span, 101);
    assert_eq!(item.variables[3].span, 102);
    assert_eq!(diagnostics.len(), 1);
    assert_eq!(diagnostics[0].1.span, 102);
    assert_eq!(diagnostics[0].1.message, "\"w\" does not appear within body");
}

#[test]
fn diagnostic_items_index_to_themselves() {
    let d = Diagnostic { span: 3u32, kind: DiagnosticKind::Warning, message: "w".to_string(), labels: vec![] };
    let (item, diagnostics) = ModuleItem::<u32, ResourceId, String>::index_variables((DOC.to_string(), ModuleItem::Diagnostic(d.clone())));
    assert!(diagnostics.is_empty());
    assert!(item.variables.is_empty());
    assert_eq!(item.inner, ModuleItem::Diagnostic(d));
}

#[test]
fn conflicting_relation_types_variables_of_other_rules() {
    let items = vec![
        indexed(fact(0, "r", vec![integer(1, 1)])),
        indexed(fact(5, "r", vec![sym(6, "s"), sym(7, "t")])),
        indexed(ModuleItem::Rule(Rule {
            head: atom(100, "q", vec![v(101, "x")]),
            body: vec![atom(10, "r", vec![v(11, "x")])],
        })),
    ];
    let inf = infer_types(&items, 20);
    assert!(inf.converged);
    let mismatches = inf.diagnostics.iter().filter(|d| d.message.starts_with("Expected (")).count();
    assert_eq!(mismatches, 1);
    let vars = &inf.var_types.iter().find(|(i, _)| *i == 2).unwrap().1;
    let hints = items[2].type_hints(vars);
    assert_eq!(hints[0].span, 101);
    assert_eq!(hints[0].contents, ": Integer");
}

#[test]
fn hints_for_every_item() {
    let items = vec![
        indexed(fact(0, "edge", vec![integer(1, 1), integer(2, 2)])),
        indexed(ModuleItem::Rule(Rule {
            head: atom(100, "path", vec![v(101, "x"), v(102, "y")]),
            body: vec![atom(10, "edge", vec![v(11, "x"), v(12, "y")])],
        })),
        indexed(ModuleItem::Rule(Rule {
            head: atom(200, "q", vec![v(201, "z")]),
            body: vec![atom(20, "nowhere", vec![v(21, "z")])],
        })),
    ];
    let inf = infer_types(&items, 20);
    let hints = item_hints(&items, &inf.var_types);
    assert_eq!(hints.len(), 3);
    assert!(hints[0].is_empty());
    assert_eq!(hints[1].iter().map(|h| h.contents.as_str()).collect::<Vec<_>>(), vec![": Integer", ": Integer"]);
    assert_eq!(hints[2][0].contents, ": {unknown}");
    assert_eq!(hints[2][0].span, 201);
}

#[test]
fn repeated_variable_in_one_pattern_is_diagnosed() {
    // q(x) :- p(x, x).
    let rule = Rule { head: atom(100, "q", vec![v(101, "x")]), body: vec![atom(10, "p", vec![v(11, "x"), v(12, "x")])] };
    let (item, diagnostics) = ModuleItem::index_variables((DOC.to_string(), ModuleItem::Rule(rule)));
    assert_eq!(item.variables.len(), 1);
    assert_eq!(diagnostics.len(), 1);
    assert_eq!(diagnostics[0].1.span, 12);
    assert_eq!(diagnostics[0].1.message, "Cannot rebind \"x\" within same pattern");
    assert_eq!(diagnostics[0].1.kind, DiagnosticKind::Error);
}
