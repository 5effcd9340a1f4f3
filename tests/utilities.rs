use archimedes::aggregate::{map_value, Aggregate};
use archimedes::facts::{ItemBase, TraceMap};
use archimedes::harness::lane_changes;
use archimedes::node::{key, swap, value, ResourceId};
use archimedes::value::Value;

fn fact(name: &str, x: i64) -> (ResourceId, Vec<Value>) {
    (ResourceId::SourceSymbol("doc".to_string(), name.to_string()), vec![Value::Integer(x)])
}

#[test]
fn trace_reports_only_net_changes() {
    let mut trace = TraceMap::new();
    let first = trace.update(&vec![fact("a", 1), fact("a", 2), fact("a", 1)]);
    assert_eq!(first.added, vec![fact("a", 1), fact("a", 2)]);
    assert!(first.removed.is_empty());
    let second = trace.update(&vec![fact("a", 2), fact("b", 3)]);
    assert_eq!(second.added, vec![fact("b", 3)]);
    assert_eq!(second.removed, vec![fact("a", 1)]);
    let third = trace.update(&vec![fact("b", 3), fact("a", 2)]);
    assert!(third.added.is_empty());
    assert!(third.removed.is_empty());
}

#[test]
fn aggregate_splits_errors_from_values() {
    let mut diagnostics: Aggregate<String> = Aggregate::new();
    let oks = diagnostics.with_errs(vec![Ok(1u8), Err("bad".to_string()), Ok(2u8), Err("worse".to_string())]);
    assert_eq!(oks, vec![1, 2]);
    assert_eq!(diagnostics.items, vec!["bad".to_string(), "worse".to_string()]);
    let lens = diagnostics.with_map_errs(vec![Err::<u8, usize>(7)], &|n: usize| format!("{n}"));
    assert!(lens.is_empty());
    assert_eq!(diagnostics.items.len(), 3);
    assert_eq!(diagnostics.items[2], "7");
    diagnostics.push(vec!["more".to_string()]);
    assert_eq!(diagnostics.items.len(), 4);
    let start = Aggregate::from_collection(vec![1u8]);
    assert_eq!(start.items, vec![1u8]);
}

#[test]
fn pair_helpers() {
    assert_eq!(key((1u8, "a")), 1u8);
    assert_eq!(value((1u8, "a")), "a");
    assert_eq!(swap((1u8, "a")), ("a", 1u8));
    assert_eq!(map_value(&|x: u8| if x > 2 { Some(x * 2) } else { None }, ("k", 3u8)), Some(("k", 6u8)));
    assert_eq!(map_value(&|x: u8| if x > 2 { Some(x * 2) } else { None }, ("k", 1u8)), None);
}

#[test]
fn lane_reports_only_its_share() {
    let mut trace = TraceMap::new();
    // "a" has length 1 and goes to lane 1 of 2; "bb" goes to lane 0.
    let first = lane_changes(&mut trace, &vec![fact("a", 1), fact("bb", 2)], 1, 2);
    assert_eq!(first, vec![(true, fact("a", 1))]);
    let second = lane_changes(&mut trace, &vec![fact("a", 3), fact("bb", 2)], 1, 2);
    assert_eq!(second, vec![(true, fact("a", 3)), (false, fact("a", 1))]);
}

#[test]
fn items_come_and_go_by_multiplicity() {
    let mut items: ItemBase<&str> = ItemBase::new();
    items.apply(1, "edge(1, 2).", true);
    items.apply(2, "path(x, y) :- edge(x, y).", true);
    items.apply(1, "edge(1, 2).", true);
    items.apply(1, "edge(1, 2).", false);
    assert_eq!(items.count(1), 1);
    assert_eq!(items.visible(), vec![0, 1]);
    items.apply(2, "path(x, y) :- edge(x, y).", false);
    assert_eq!(items.visible(), vec![0]);
    items.apply(1, "edge(1, 2).", false);
    assert!(items.visible().is_empty());
}
