use archimedes::eval::{evaluate, evaluate_from, round, EvalState};
use archimedes::facts::FactBase;
use archimedes::node::{join, join_slice, project, store, Key, Node, ResourceId};
use archimedes::value::Value;

fn rel(name: &str) -> ResourceId {
    ResourceId::SourceSymbol("file:///rules.fm".to_string(), name.to_string())
}

fn int_tuple(xs: &[i64]) -> Vec<Value> {
    xs.iter().map(|x| Value::Integer(*x)).collect()
}

fn sym(s: &str) -> Value {
    Value::Symbol(s.to_string())
}

fn relation_contents(state: &EvalState, r: &ResourceId) -> Vec<Vec<Value>> {
    let mut out: Vec<Vec<Value>> = state
        .relations
        .iter()
        .filter(|(id, _)| id == r)
        .map(|(_, t)| t.clone())
        .collect();
    out.sort();
    out.dedup();
    out
}

/// The nodes of `path(x,y) :- edge(x,y)` and `path(x,z) :- path(x,y), edge(y,z)`.
fn closure_graph() -> Vec<(Key, Node)> {
    let load_edge = Node::LoadRelation { resource: rel("edge") };
    let load_path = Node::LoadRelation { resource: rel("path") };
    let (k_edge, load_edge) = Key::pair(load_edge);
    let (k_path, load_path) = Key::pair(load_path);
    let swap_path = Node::Project { src: k_path, map: vec![1, 0] };
    let (k_swap, swap_path) = Key::pair(swap_path);
    let extend = Node::Join { lhs: k_swap, rhs: k_edge, num: 1 };
    let (k_extend, extend) = Key::pair(extend);
    let store_base = Node::StoreRelation { src: k_edge, dst: rel("path"), map: vec![0, 1] };
    let store_step = Node::StoreRelation { src: k_extend, dst: rel("path"), map: vec![1, 2] };
    vec![
        (k_edge, load_edge),
        (k_path, load_path),
        (k_swap, swap_path),
        (k_extend, extend),
        Key::pair(store_base),
        Key::pair(store_step),
    ]
}

#[test]
fn join_matches_on_shared_prefix() {
    let k = Key { id: 7 };
    let lhs = vec![sym("a"), sym("b")];
    let rhs = vec![sym("a"), sym("c")];
    let ((dst, prefix), trail_l) = join_slice(((k, 1), lhs));
    let ((_, prefix_r), trail_r) = join_slice(((k, 1), rhs));
    assert_eq!(prefix, prefix_r);
    assert_eq!(trail_l, vec![sym("b")]);
    assert_eq!(trail_r, vec![sym("c")]);
    let (out_key, out) = join(((dst, prefix), (trail_l, trail_r)));
    assert_eq!(out_key, k);
    assert_eq!(out, vec![sym("a"), sym("b"), sym("c")]);
}

#[test]
fn join_node_emits_only_matching_pairs() {
    let load_l = Node::LoadRelation { resource: rel("l") };
    let load_r = Node::LoadRelation { resource: rel("r") };
    let (kl, load_l) = Key::pair(load_l);
    let (kr, load_r) = Key::pair(load_r);
    let j = Node::Join { lhs: kl, rhs: kr, num: 1 };
    let (kj, j) = Key::pair(j);
    let graph = vec![(kl, load_l), (kr, load_r), (kj, j)];
    let facts = vec![
        (rel("l"), vec![sym("a"), sym("b")]),
        (rel("r"), vec![sym("a"), sym("c")]),
        (rel("r"), vec![sym("x"), sym("d")]),
    ];
    let result = evaluate(&graph, &facts, 10);
    assert!(result.converged);
    let joined: Vec<Vec<Value>> = result
        .state
        .tuples
        .iter()
        .filter(|(k, _)| *k == kj)
        .map(|(_, t)| t.clone())
        .collect();
    assert_eq!(joined, vec![vec![sym("a"), sym("b"), sym("c")]]);
}

#[test]
fn project_and_store_rearrange_terms() {
    let k = Key { id: 1 };
    let (_, out) = project((k, (int_tuple(&[10, 20, 30]), vec![2, 0])));
    assert_eq!(out, int_tuple(&[30, 10]));
    let (dst, out) = store(((rel("p"), vec![1, 1]), int_tuple(&[4, 5])));
    assert_eq!(dst, rel("p"));
    assert_eq!(out, int_tuple(&[5, 5]));
}

#[test]
fn transitive_closure_reaches_fixed_point() {
    let graph = closure_graph();
    let facts = vec![(rel("edge"), int_tuple(&[1, 2])), (rel("edge"), int_tuple(&[2, 3]))];
    let result = evaluate(&graph, &facts, 100);
    assert!(result.converged);
    assert_eq!(
        relation_contents(&result.state, &rel("path")),
        vec![int_tuple(&[1, 2]), int_tuple(&[1, 3]), int_tuple(&[2, 3])]
    );
    let again = round(&graph, &facts, &result.state);
    assert!(again.same(&result.state));
    let rerun = evaluate_from(&graph, &facts, result.state, 100);
    assert!(rerun.converged);
    assert_eq!(rerun.rounds, 0);
}

#[test]
fn retraction_removes_derived_paths() {
    let graph = closure_graph();
    let mut base = FactBase::new();
    base.apply_all(&vec![
        (rel("edge"), int_tuple(&[1, 2]), true),
        (rel("edge"), int_tuple(&[2, 3]), true),
    ]);
    let before = evaluate(&graph, &base.visible_facts(), 100);
    assert!(before.converged);
    assert_eq!(relation_contents(&before.state, &rel("path")).len(), 3);
    base.apply((rel("edge"), int_tuple(&[2, 3]), false));
    assert_eq!(base.count(&rel("edge"), &int_tuple(&[2, 3])), 0);
    let after = evaluate(&graph, &base.visible_facts(), 100);
    assert!(after.converged);
    assert_eq!(relation_contents(&after.state, &rel("path")), vec![int_tuple(&[1, 2])]);
}

#[test]
fn additions_and_removals_cancel_within_a_batch() {
    let mut base = FactBase::new();
    base.apply_all(&vec![
        (rel("edge"), int_tuple(&[1, 2]), true),
        (rel("edge"), int_tuple(&[1, 2]), false),
        (rel("edge"), int_tuple(&[5, 6]), true),
        (rel("edge"), int_tuple(&[5, 6]), true),
    ]);
    assert_eq!(base.count(&rel("edge"), &int_tuple(&[1, 2])), 0);
    assert_eq!(base.count(&rel("edge"), &int_tuple(&[5, 6])), 2);
    assert_eq!(base.visible_facts(), vec![(rel("edge"), int_tuple(&[5, 6]))]);
}

#[test]
fn empty_graph_converges_at_once() {
    let result = evaluate(&Vec::new(), &Vec::new(), 5);
    assert!(result.converged);
    assert_eq!(result.rounds, 0);
    assert!(result.state.tuples.is_empty());
}

#[test]
fn round_limit_stops_unfinished_evaluation() {
    let graph = closure_graph();
    let facts = vec![(rel("edge"), int_tuple(&[1, 2])), (rel("edge"), int_tuple(&[2, 3]))];
    let result = evaluate(&graph, &facts, 1);
    assert!(!result.converged);
    assert_eq!(result.rounds, 1);
}

#[test]
fn node_keys_are_stable() {
    let a = Node::LoadRelation { resource: rel("edge") };
    let b = Node::LoadRelation { resource: rel("edge") };
    let c = Node::LoadRelation { resource: rel("path") };
    assert_eq!(Key::new(&a), Key::new(&b));
    assert_ne!(Key::new(&a), Key::new(&c));
}

#[test]
fn node_accessors_pick_their_variant() {
    let k = Key { id: 3 };
    let j = Node::Join { lhs: k, rhs: Key { id: 4 }, num: 2 };
    assert_eq!(j.clone().join_lhs(), Some((k, 2)));
    assert_eq!(j.clone().join_rhs(), Some((Key { id: 4 }, 2)));
    assert_eq!(j.clone().project_src(), None);
    let p = Node::Project { src: k, map: vec![1] };
    assert_eq!(p.clone().project_src(), Some(k));
    assert_eq!(p.project_map(), Some(vec![1]));
    let l = Node::LoadRelation { resource: rel("x") };
    assert_eq!(l.clone().load_relation(), Some(rel("x")));
    assert_eq!(l.store_relation(), None);
}
