use mempool_graph::graph::{copy_ids, find_id, Family, TxGraph};
use mempool_graph::membership::{is_member, PoolEntry};

fn id(text: &str) -> String {
    text.to_string()
}

fn kids(graph: &TxGraph, parent: &str) -> Option<Vec<String>> {
    graph.children_of(&id(parent)).cloned()
}

fn snapshot(ids: &[&str]) -> Vec<PoolEntry> {
    ids.iter().map(|text| PoolEntry::new(id(text), Some(1))).collect()
}

#[test]
fn new_graph_is_empty() {
    let graph = TxGraph::new();
    assert_eq!(graph.len(), 0);
    assert!(!graph.contains_key(&id("a")));
    assert_eq!(graph.children_of(&id("a")), None);
    assert_eq!(graph.position(&id("a")), None);
    assert!(graph.window(0, 10).is_empty());
}

#[test]
fn add_edge_creates_the_parent() {
    let mut graph = TxGraph::new();
    graph.add_edge(id("a"), id("b"));
    assert_eq!(graph.len(), 1);
    assert!(graph.contains_key(&id("a")));
    assert!(!graph.contains_key(&id("b")));
    assert_eq!(kids(&graph, "a"), Some(vec![id("b")]));
    assert_eq!(graph.parent_at(0), "a");
    assert_eq!(graph.children_at(0), &vec![id("b")]);
}

#[test]
fn add_edge_appends_to_a_known_parent() {
    let mut graph = TxGraph::new();
    graph.add_edge(id("a"), id("b"));
    graph.add_edge(id("x"), id("y"));
    graph.add_edge(id("a"), id("c"));
    assert_eq!(graph.len(), 2);
    assert_eq!(kids(&graph, "a"), Some(vec![id("b"), id("c")]));
    assert_eq!(kids(&graph, "x"), Some(vec![id("y")]));
    assert_eq!(graph.position(&id("a")), Some(0));
    assert_eq!(graph.position(&id("x")), Some(1));
}

#[test]
fn add_edge_twice_is_a_no_op() {
    let mut graph = TxGraph::new();
    graph.add_edge(id("a"), id("b"));
    graph.add_edge(id("a"), id("c"));
    let before = kids(&graph, "a").unwrap();
    graph.add_edge(id("a"), id("c"));
    graph.add_edge(id("a"), id("b"));
    assert_eq!(kids(&graph, "a").unwrap(), before);
    assert_eq!(kids(&graph, "a").unwrap().len(), 2);
    assert_eq!(graph.len(), 1);
}

#[test]
fn a_parent_may_be_its_own_child() {
    let mut graph = TxGraph::new();
    graph.add_edge(id("a"), id("a"));
    assert_eq!(kids(&graph, "a"), Some(vec![id("a")]));
}

#[test]
fn add_edges_inserts_in_order_and_once() {
    let mut graph = TxGraph::new();
    graph.add_edges(&id("a"), &vec![id("c"), id("b"), id("c"), id("d")]);
    assert_eq!(kids(&graph, "a"), Some(vec![id("c"), id("b"), id("d")]));
    graph.add_edges(&id("z"), &vec![]);
    assert!(!graph.contains_key(&id("z")));
    assert_eq!(graph.len(), 1);
}

#[test]
fn pruning_leaves_only_members_as_parents() {
    let mut graph = TxGraph::new();
    graph.add_edge(id("a"), id("b"));
    graph.add_edge(id("c"), id("d"));
    graph.add_edge(id("e"), id("f"));
    graph.add_edge(id("g"), id("h"));
    let members = snapshot(&["c", "g", "zz"]);
    graph.clean_transactions(&members);
    assert_eq!(graph.len(), 2);
    for index in 0..graph.len() {
        assert!(is_member(&members, graph.parent_at(index)));
    }
    assert_eq!(graph.parent_at(0), "c");
    assert_eq!(graph.parent_at(1), "g");
    assert_eq!(kids(&graph, "c"), Some(vec![id("d")]));
    assert_eq!(kids(&graph, "g"), Some(vec![id("h")]));
}

#[test]
fn pruning_does_not_look_at_children() {
    let mut graph = TxGraph::new();
    graph.add_edge(id("a"), id("gone"));
    graph.add_edge(id("a"), id("here"));
    let members = snapshot(&["a", "here"]);
    graph.clean_transactions(&members);
    assert_eq!(kids(&graph, "a"), Some(vec![id("gone"), id("here")]));
}

#[test]
fn pruning_with_an_empty_snapshot_empties_the_graph() {
    let mut graph = TxGraph::new();
    graph.add_edge(id("a"), id("b"));
    graph.add_edge(id("c"), id("d"));
    graph.clean_transactions(&Vec::new());
    assert_eq!(graph.len(), 0);
}

#[test]
fn pruning_with_all_members_changes_nothing() {
    let mut graph = TxGraph::new();
    graph.add_edge(id("a"), id("b"));
    graph.add_edge(id("c"), id("d"));
    graph.clean_transactions(&snapshot(&["c", "a"]));
    assert_eq!(graph.len(), 2);
    assert_eq!(graph.parent_at(0), "a");
    assert_eq!(graph.parent_at(1), "c");
}

#[test]
fn window_returns_the_rows_between_the_bounds() {
    let mut graph = TxGraph::new();
    graph.add_edge(id("a"), id("b"));
    graph.add_edge(id("c"), id("d"));
    graph.add_edge(id("e"), id("f"));
    let rows: Vec<Family> = graph.window(1, 2);
    assert_eq!(rows.len(), 2);
    assert_eq!(rows[0].parent, "c");
    assert_eq!(rows[0].children, vec![id("d")]);
    assert_eq!(rows[1].parent, "e");
    assert_eq!(graph.window(0, 0).len(), 1);
    assert_eq!(graph.window(2, usize::MAX).len(), 1);
    assert_eq!(graph.window(0, usize::MAX).len(), 3);
}

#[test]
fn window_is_empty_for_bounds_out_of_range_or_inverted() {
    let mut graph = TxGraph::new();
    graph.add_edge(id("a"), id("b"));
    assert!(graph.window(5, 10).is_empty());
    assert!(graph.window(1, 1).is_empty());
    let mut wider = TxGraph::new();
    wider.add_edge(id("a"), id("b"));
    wider.add_edge(id("c"), id("d"));
    assert!(wider.window(1, 0).is_empty());
}

#[test]
fn find_id_gives_the_first_position() {
    let list = vec![id("a"), id("b"), id("a")];
    assert_eq!(find_id(&list, &id("a")), Some(0));
    assert_eq!(find_id(&list, &id("b")), Some(1));
    assert_eq!(find_id(&list, &id("c")), None);
    assert_eq!(find_id(&Vec::new(), &id("a")), None);
}

#[test]
fn copy_ids_copies() {
    let list = vec![id("a"), id("b")];
    assert_eq!(copy_ids(&list), list);
    assert!(copy_ids(&Vec::new()).is_empty());
}
