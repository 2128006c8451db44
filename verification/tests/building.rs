use copurchase::data_processing::{
    add_record, build_graph, build_node_info, count_items_by_category, data_to_graph,
    node_information, push_neighbour, reconcile, Graph, NodeInfo,
};
use copurchase::record::{parse_records, Record};
use copurchase::table::Table;

fn lines(text: &[&str]) -> Vec<String> {
    text.iter().map(|s| s.to_string()).collect()
}

fn strings(items: &[&str]) -> Vec<String> {
    items.iter().map(|s| s.to_string()).collect()
}

fn record(identifier: &str, title: &str, category: &str, related: &[&str]) -> Record {
    Record {
        identifier: identifier.to_string(),
        title: title.to_string(),
        category: category.to_string(),
        related: strings(related),
    }
}

fn neighbours(graph: &Graph, node: &str) -> Vec<String> {
    graph.get(node).unwrap().clone()
}

fn sorted_keys<T: Clone + Ord>(keys: Vec<T>) -> Vec<T> {
    let mut keys = keys;
    keys.sort();
    keys
}

fn lists(graph: &Graph, a: &str, b: &str) -> bool {
    match graph.get(a) {
        Some(list) => list.iter().any(|x| x == b),
        None => false,
    }
}

fn assert_symmetric(graph: &Graph) {
    for i in 0..graph.len() {
        let a = graph.key_at(i);
        for b in graph.value_at(i) {
            assert!(lists(graph, b, a), "{} lists {} but not the other way round", a, b);
        }
    }
}

#[test]
fn push_neighbour_creates_and_appends() {
    let mut graph: Graph = Table::new();
    push_neighbour(&mut graph, &"A".to_string(), "B".to_string());
    push_neighbour(&mut graph, &"A".to_string(), "C".to_string());
    push_neighbour(&mut graph, &"A".to_string(), "B".to_string());
    assert_eq!(graph.len(), 1);
    assert_eq!(neighbours(&graph, "A"), strings(&["B", "C", "B"]));
}

#[test]
fn a_new_identifier_lists_its_related_twice() {
    let mut graph: Graph = Table::new();
    add_record(&mut graph, &"A".to_string(), &strings(&["B", "C"]));
    assert_eq!(sorted_keys(graph.key_list()), strings(&["A", "B", "C"]));
    assert_eq!(neighbours(&graph, "A"), strings(&["B", "C", "B", "C"]));
    assert_eq!(neighbours(&graph, "B"), strings(&["A"]));
    assert_eq!(neighbours(&graph, "C"), strings(&["A"]));
}

#[test]
fn a_known_identifier_keeps_its_list_and_gains_its_related_once() {
    let mut graph: Graph = Table::new();
    add_record(&mut graph, &"A".to_string(), &strings(&["B"]));
    add_record(&mut graph, &"B".to_string(), &strings(&["C"]));
    assert_eq!(neighbours(&graph, "A"), strings(&["B", "B"]));
    assert_eq!(neighbours(&graph, "B"), strings(&["A", "C"]));
    assert_eq!(neighbours(&graph, "C"), strings(&["B"]));
    assert_symmetric(&graph);
}

#[test]
fn a_record_without_related_makes_an_empty_list() {
    let mut graph: Graph = Table::new();
    add_record(&mut graph, &"A".to_string(), &Vec::new());
    assert_eq!(graph.len(), 1);
    assert_eq!(neighbours(&graph, "A"), Vec::<String>::new());
    add_record(&mut graph, &"B".to_string(), &strings(&["A"]));
    add_record(&mut graph, &"A".to_string(), &Vec::new());
    assert_eq!(neighbours(&graph, "A"), strings(&["B"]));
}

#[test]
fn a_record_related_to_itself() {
    let mut graph: Graph = Table::new();
    add_record(&mut graph, &"A".to_string(), &strings(&["A"]));
    assert_eq!(neighbours(&graph, "A"), strings(&["A", "A"]));
    assert_symmetric(&graph);
}

#[test]
fn a_repeated_record_adds_its_edges_again() {
    let mut graph: Graph = Table::new();
    add_record(&mut graph, &"A".to_string(), &strings(&["B"]));
    add_record(&mut graph, &"A".to_string(), &strings(&["B"]));
    assert_eq!(neighbours(&graph, "A"), strings(&["B", "B", "B"]));
    assert_eq!(neighbours(&graph, "B"), strings(&["A", "A"]));
}

#[test]
fn built_graphs_are_symmetric() {
    let records = vec![
        record("A", "", "", &["B", "C"]),
        record("B", "", "", &["A", "D", "D"]),
        record("C", "", "", &[]),
        record("D", "", "", &["D", "A"]),
        record("A", "", "", &["E"]),
    ];
    let graph = build_graph(&records);
    assert_symmetric(&graph);
    assert_eq!(graph.len(), 5);
    assert_eq!(neighbours(&graph, "E"), strings(&["A"]));
}

#[test]
fn graph_from_lines() {
    let input = lines(&[
        "ASIN: A",
        "  title: a",
        "  group: Book",
        "  similar: 2  B  C",
        "",
        "ASIN: B",
        "  title: b",
        "  group: Music",
        "  similar: 1  A",
        "",
        "ASIN: Z",
        "  similar: 1  A",
    ]);
    let graph = data_to_graph(&input);
    assert_eq!(graph.len(), 3);
    assert_eq!(neighbours(&graph, "A"), strings(&["B", "C", "B", "C", "B"]));
    assert_eq!(neighbours(&graph, "B"), strings(&["A", "A"]));
    assert_eq!(neighbours(&graph, "C"), strings(&["A"]));
    assert!(graph.get("Z").is_none());
    assert_symmetric(&graph);

    let by_records = build_graph(&parse_records(&input));
    assert_eq!(sorted_keys(by_records.key_list()), sorted_keys(graph.key_list()));
    for key in graph.key_list() {
        assert_eq!(neighbours(&by_records, &key), neighbours(&graph, &key));
    }
}

#[test]
fn later_record_overwrites_node_information() {
    let records = vec![
        record("A", "old title", "Book", &[]),
        record("B", "b", "Music", &[]),
        record("A", "new title", "DVD", &[]),
    ];
    let node_info = build_node_info(&records);
    assert_eq!(node_info.len(), 2);
    assert_eq!(node_info.get("A"), Some(&("new title".to_string(), "DVD".to_string())));
    assert_eq!(node_info.get("B"), Some(&("b".to_string(), "Music".to_string())));
    assert_eq!(node_info.get("C"), None);
}

#[test]
fn node_information_from_lines() {
    let input = lines(&[
        "ASIN: A",
        "  title: first",
        "  group: Book",
        "",
        "ASIN: B",
        "  title: second",
        "",
        "ASIN: A",
        "  title: third",
        "  group: Toy",
        "",
        "ASIN: C",
        "  title: never closed",
    ]);
    let node_info = node_information(&input);
    assert_eq!(node_info.len(), 2);
    assert_eq!(node_info.get("A"), Some(&("third".to_string(), "Toy".to_string())));
    assert_eq!(node_info.get("B"), Some(&("second".to_string(), "Book".to_string())));
    assert_eq!(node_info.get("C"), None);
}

#[test]
fn item_counts_by_category() {
    let mut node_info: NodeInfo = Table::new();
    node_info.insert("A".to_string(), ("a".to_string(), "cat1".to_string()));
    node_info.insert("B".to_string(), ("b".to_string(), "cat2".to_string()));
    node_info.insert("C".to_string(), ("c".to_string(), "cat1".to_string()));
    let counts = count_items_by_category(&node_info);
    assert_eq!(counts.len(), 2);
    assert_eq!(counts.get("cat1"), Some(&2));
    assert_eq!(counts.get("cat2"), Some(&1));
    assert_eq!(counts.get("cat3"), None);
}

#[test]
fn item_counts_of_an_empty_table() {
    let node_info: NodeInfo = Table::new();
    assert_eq!(count_items_by_category(&node_info).len(), 0);
}

#[test]
fn reconcile_keeps_the_common_identifiers() {
    let mut graph: Graph = Table::new();
    graph.insert("A".to_string(), strings(&["B", "X"]));
    graph.insert("B".to_string(), strings(&["A"]));
    graph.insert("X".to_string(), strings(&["A"]));
    let mut node_info: NodeInfo = Table::new();
    node_info.insert("B".to_string(), ("b".to_string(), "Book".to_string()));
    node_info.insert("Y".to_string(), ("y".to_string(), "Toy".to_string()));
    node_info.insert("A".to_string(), ("a".to_string(), "Book".to_string()));

    let (new_graph, new_node_info) = reconcile(&graph, &node_info);
    assert_eq!(sorted_keys(new_graph.key_list()), strings(&["A", "B"]));
    assert_eq!(sorted_keys(new_node_info.key_list()), strings(&["A", "B"]));
    assert_eq!(neighbours(&new_graph, "A"), strings(&["B", "X"]));
    assert_eq!(neighbours(&new_graph, "B"), strings(&["A"]));
    assert_eq!(new_node_info.get("A"), Some(&("a".to_string(), "Book".to_string())));
    assert_eq!(new_node_info.get("B"), Some(&("b".to_string(), "Book".to_string())));
}

#[test]
fn reconciling_twice_changes_nothing() {
    let mut graph: Graph = Table::new();
    graph.insert("A".to_string(), strings(&["B", "X"]));
    graph.insert("X".to_string(), strings(&["A"]));
    graph.insert("B".to_string(), strings(&[]));
    let mut node_info: NodeInfo = Table::new();
    node_info.insert("A".to_string(), ("a".to_string(), "Book".to_string()));
    node_info.insert("Y".to_string(), ("y".to_string(), "Toy".to_string()));
    node_info.insert("B".to_string(), ("b".to_string(), "DVD".to_string()));

    let (once_graph, once_info) = reconcile(&graph, &node_info);
    let (twice_graph, twice_info) = reconcile(&once_graph, &once_info);
    assert_eq!(sorted_keys(twice_graph.key_list()), sorted_keys(once_graph.key_list()));
    assert_eq!(sorted_keys(twice_info.key_list()), sorted_keys(once_info.key_list()));
    for key in once_graph.key_list() {
        assert_eq!(twice_graph.get(&key), once_graph.get(&key));
        assert_eq!(twice_info.get(&key), once_info.get(&key));
    }
}

#[test]
fn table_keeps_insertion_order_and_overwrites_in_place() {
    let mut table: Table<usize> = Table::new();
    assert!(table.is_empty());
    table.insert("b".to_string(), 1);
    table.insert("a".to_string(), 2);
    table.insert("b".to_string(), 3);
    assert!(!table.is_empty());
    assert_eq!(table.len(), 2);
    assert_eq!(table.key_list(), strings(&["b", "a"]));
    assert_eq!(table.get("b"), Some(&3));
    assert_eq!(table.position("a"), Some(1));
    assert_eq!(table.position("c"), None);
    assert!(table.contains_key("a"));
    assert!(!table.contains_key(""));
    table.set_value_at(1, 7);
    assert_eq!(*table.value_at(1), 7);
    *table.value_at_mut(0) += 1;
    assert_eq!(table.get("b"), Some(&4));
}
