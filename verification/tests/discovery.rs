use mempool_graph::discovery::{Discovery, DISCOVERY_CAP};
use mempool_graph::graph::TxGraph;
use mempool_graph::membership::PoolEntry;
use std::collections::HashMap;

fn id(text: &str) -> String {
    text.to_string()
}

fn entry(text: &str, count: i64) -> PoolEntry {
    PoolEntry::new(id(text), Some(count))
}

fn kids(graph: &TxGraph, parent: &str) -> Option<Vec<String>> {
    graph.children_of(&id(parent)).cloned()
}

/// A source that answers from a table and fails for what the table lacks.
fn source(table: &[(&str, &[&str])]) -> HashMap<String, Vec<String>> {
    table.iter().map(|(key, list)| (id(key), list.iter().map(|text| id(text)).collect())).collect()
}

/// Runs a discovery to its end and returns the queries that it made.
fn discover(
    discovery: &mut Discovery,
    graph: &mut TxGraph,
    answers: &HashMap<String, Vec<String>>,
) -> Vec<String> {
    let mut asked = Vec::new();
    while let Some(query) = discovery.next_query(graph) {
        let answer = answers.get(&query).cloned();
        asked.push(query);
        discovery.record_answer(graph, answer);
    }
    asked
}

fn family_scenario() -> HashMap<String, Vec<String>> {
    source(&[("A", &["C", "D"]), ("C", &["E"]), ("D", &[])])
}

#[test]
fn one_cycle_records_children_and_grandchildren() {
    let mut graph = TxGraph::new();
    let mut discovery = Discovery::new(vec![entry("A", 2), entry("B", 0)]);
    let asked = discover(&mut discovery, &mut graph, &family_scenario());
    assert_eq!(asked, vec![id("A"), id("C"), id("D")]);
    assert_eq!(graph.len(), 2);
    assert_eq!(kids(&graph, "A"), Some(vec![id("C"), id("D")]));
    assert_eq!(kids(&graph, "C"), Some(vec![id("E")]));
    assert!(!graph.contains_key(&id("B")));
    assert!(!graph.contains_key(&id("D")));
    assert!(!graph.contains_key(&id("E")));
    assert_eq!(discovery.processed(), 1);
}

#[test]
fn pruning_after_the_membership_changed_removes_the_old_parent() {
    let mut graph = TxGraph::new();
    let mut discovery = Discovery::new(vec![entry("A", 2), entry("B", 0)]);
    discover(&mut discovery, &mut graph, &family_scenario());
    assert!(graph.contains_key(&id("A")));
    assert!(graph.contains_key(&id("C")));
    graph.clean_transactions(&vec![entry("B", 0)]);
    assert!(!graph.contains_key(&id("A")));
    assert!(!graph.contains_key(&id("C")));
    assert_eq!(graph.len(), 0);
}

#[test]
fn pruning_keeps_children_that_left_the_pool_under_a_parent_that_stays() {
    let mut graph = TxGraph::new();
    let mut discovery = Discovery::new(vec![entry("A", 2), entry("B", 0)]);
    discover(&mut discovery, &mut graph, &family_scenario());
    let parents = discovery.finish(&mut graph);
    assert_eq!(parents, 1);
    assert_eq!(kids(&graph, "A"), Some(vec![id("C"), id("D")]));
    assert!(!graph.contains_key(&id("C")));
}

#[test]
fn a_child_stays_a_parent_while_it_is_a_member() {
    let mut graph = TxGraph::new();
    let members = vec![entry("A", 2), entry("B", 0), entry("C", 1), entry("D", 0), entry("E", 0)];
    let mut discovery = Discovery::new(members);
    discover(&mut discovery, &mut graph, &family_scenario());
    assert_eq!(discovery.finish(&mut graph), 2);
    assert_eq!(kids(&graph, "C"), Some(vec![id("E")]));
    graph.clean_transactions(&vec![entry("C", 1), entry("E", 0)]);
    assert!(!graph.contains_key(&id("A")));
    assert_eq!(kids(&graph, "C"), Some(vec![id("E")]));
}

#[test]
fn entries_without_descendants_are_not_queried() {
    let mut graph = TxGraph::new();
    let members = vec![
        entry("zero", 0),
        entry("negative", -1),
        PoolEntry::new(id("absent"), None),
    ];
    let mut discovery = Discovery::new(members);
    let answers = source(&[("zero", &["x"]), ("negative", &["x"]), ("absent", &["x"])]);
    assert!(discover(&mut discovery, &mut graph, &answers).is_empty());
    assert_eq!(graph.len(), 0);
    assert_eq!(discovery.processed(), 0);
}

#[test]
fn known_parents_are_not_queried() {
    let mut graph = TxGraph::new();
    graph.add_edge(id("A"), id("old"));
    graph.add_edge(id("C"), id("older"));
    let mut discovery = Discovery::new(vec![entry("A", 2), entry("P", 1)]);
    let answers = source(&[("A", &["new"]), ("P", &["C", "Q"]), ("C", &["E"]), ("Q", &["R"])]);
    let asked = discover(&mut discovery, &mut graph, &answers);
    assert_eq!(asked, vec![id("P"), id("Q")]);
    assert_eq!(kids(&graph, "A"), Some(vec![id("old")]));
    assert_eq!(kids(&graph, "C"), Some(vec![id("older")]));
    assert_eq!(kids(&graph, "P"), Some(vec![id("C"), id("Q")]));
    assert_eq!(kids(&graph, "Q"), Some(vec![id("R")]));
    assert_eq!(discovery.processed(), 1);
}

#[test]
fn a_parent_found_earlier_in_the_cycle_is_not_queried_again() {
    let mut graph = TxGraph::new();
    let mut discovery = Discovery::new(vec![entry("A", 1), entry("B", 1), entry("C", 1)]);
    let answers = source(&[("A", &["C"]), ("C", &["E"]), ("B", &["A", "C"])]);
    let asked = discover(&mut discovery, &mut graph, &answers);
    assert_eq!(asked, vec![id("A"), id("C"), id("B")]);
    assert_eq!(kids(&graph, "B"), Some(vec![id("A"), id("C")]));
    assert_eq!(discovery.processed(), 2);
}

#[test]
fn discovery_stops_after_two_hops() {
    let mut graph = TxGraph::new();
    let mut discovery = Discovery::new(vec![entry("A", 3)]);
    let answers = source(&[("A", &["B"]), ("B", &["C"]), ("C", &["D"]), ("D", &["E"])]);
    let asked = discover(&mut discovery, &mut graph, &answers);
    assert_eq!(asked, vec![id("A"), id("B")]);
    assert_eq!(kids(&graph, "A"), Some(vec![id("B")]));
    assert_eq!(kids(&graph, "B"), Some(vec![id("C")]));
    assert!(!graph.contains_key(&id("C")));
    assert!(!graph.contains_key(&id("D")));
    assert_eq!(graph.len(), 2);
}

#[test]
fn every_grandchild_of_a_new_child_is_recorded() {
    let mut graph = TxGraph::new();
    let mut discovery = Discovery::new(vec![entry("A", 4)]);
    let answers = source(&[("A", &["B"]), ("B", &["C", "D", "E"])]);
    discover(&mut discovery, &mut graph, &answers);
    assert_eq!(kids(&graph, "B"), Some(vec![id("C"), id("D"), id("E")]));
}

#[test]
fn a_failed_query_counts_as_no_descendants() {
    let mut graph = TxGraph::new();
    let mut discovery = Discovery::new(vec![entry("lost", 2), entry("A", 1)]);
    let answers = source(&[("A", &["B"])]);
    let asked = discover(&mut discovery, &mut graph, &answers);
    assert_eq!(asked, vec![id("lost"), id("A"), id("B")]);
    assert!(!graph.contains_key(&id("lost")));
    assert_eq!(kids(&graph, "A"), Some(vec![id("B")]));
    assert!(!graph.contains_key(&id("B")));
    assert_eq!(discovery.processed(), 2);
}

#[test]
fn the_cap_bounds_the_parents_of_one_cycle() {
    let mut graph = TxGraph::new();
    let mut members = Vec::new();
    let mut table = HashMap::new();
    for number in 0..1005 {
        let name = format!("p{}", number);
        table.insert(name.clone(), vec![format!("c{}", number)]);
        members.push(PoolEntry::new(name, Some(1)));
    }
    let mut discovery = Discovery::new(members);
    let asked = discover(&mut discovery, &mut graph, &table);
    assert_eq!(DISCOVERY_CAP, 1000);
    assert_eq!(discovery.processed(), 1000);
    assert_eq!(asked.iter().filter(|query| query.starts_with('p')).count(), 1000);
    assert_eq!(asked.len(), 2000);
    assert_eq!(graph.len(), 1000);
    assert!(graph.contains_key(&id("p999")));
    assert!(!graph.contains_key(&id("p1000")));
    assert_eq!(discovery.next_query(&graph), None);
}

#[test]
fn entries_beyond_the_cap_are_picked_up_by_the_next_cycle() {
    let mut graph = TxGraph::new();
    let names = ["a", "b", "c"];
    let answers = source(&[("a", &["x"]), ("b", &["x"]), ("c", &["x"]), ("x", &[])]);
    let members = || names.iter().map(|name| entry(name, 1)).collect::<Vec<PoolEntry>>();
    let mut first = Discovery::with_cap(members(), 2);
    assert_eq!(discover(&mut first, &mut graph, &answers), vec![id("a"), id("x"), id("b"), id("x")]);
    assert_eq!(first.finish(&mut graph), 2);
    let mut second = Discovery::with_cap(members(), 2);
    assert_eq!(discover(&mut second, &mut graph, &answers), vec![id("c"), id("x")]);
    assert_eq!(second.processed(), 1);
    assert_eq!(second.finish(&mut graph), 3);
}

#[test]
fn a_cap_of_zero_makes_no_query() {
    let mut graph = TxGraph::new();
    let mut discovery = Discovery::with_cap(vec![entry("A", 1)], 0);
    assert_eq!(discovery.next_query(&graph), None);
    assert_eq!(discovery.processed(), 0);
    discovery.record_answer(&mut graph, Some(vec![id("B")]));
    assert_eq!(graph.len(), 0);
}

#[test]
fn an_outstanding_query_is_repeated() {
    let mut graph = TxGraph::new();
    let mut discovery = Discovery::new(vec![entry("A", 1), entry("B", 1)]);
    assert_eq!(discovery.next_query(&graph), Some(id("A")));
    assert_eq!(discovery.next_query(&graph), Some(id("A")));
    assert_eq!(discovery.processed(), 1);
    discovery.record_answer(&mut graph, Some(vec![id("C")]));
    assert_eq!(discovery.next_query(&graph), Some(id("C")));
    assert_eq!(discovery.next_query(&graph), Some(id("C")));
    discovery.record_answer(&mut graph, None);
    assert_eq!(discovery.next_query(&graph), Some(id("B")));
}

#[test]
fn an_answer_without_a_query_is_dropped() {
    let mut graph = TxGraph::new();
    let mut discovery = Discovery::new(vec![entry("A", 1)]);
    discovery.record_answer(&mut graph, Some(vec![id("B")]));
    assert_eq!(graph.len(), 0);
    assert_eq!(discovery.next_query(&graph), Some(id("A")));
}

#[test]
fn a_cycle_without_a_snapshot_is_given_up() {
    assert!(Discovery::begin(None).is_none());
    let mut graph = TxGraph::new();
    let mut discovery = Discovery::begin(Some(vec![entry("A", 1)])).unwrap();
    assert_eq!(discovery.membership().len(), 1);
    assert_eq!(discovery.next_query(&graph), Some(id("A")));
    discovery.record_answer(&mut graph, Some(vec![id("B")]));
    assert_eq!(kids(&graph, "A"), Some(vec![id("B")]));
}

#[test]
fn an_empty_snapshot_ends_at_once_and_prunes_everything() {
    let mut graph = TxGraph::new();
    graph.add_edge(id("A"), id("B"));
    let mut discovery = Discovery::new(Vec::new());
    assert_eq!(discovery.next_query(&graph), None);
    assert_eq!(discovery.finish(&mut graph), 0);
}
