use copurchase::category::Ratio;
use copurchase::data_processing::{
    count_items_by_category, data_to_graph, node_information, reconcile, Graph, NodeInfo,
};
use copurchase::graph_analysis::{
    average_recommendation_per_category, category_purchasing_likelihood,
    category_recommendation_likelihood, compute_average_degree_centrality_all_nodes,
    compute_average_degree_centrality_for_nodes_with_neighbours,
};
use copurchase::table::Table;

fn strings(items: &[&str]) -> Vec<String> {
    items.iter().map(|s| s.to_string()).collect()
}

fn sample_graph() -> Graph {
    let mut graph: Graph = Table::new();
    graph.insert("A".to_string(), strings(&["B", "C"]));
    graph.insert("B".to_string(), strings(&["A", "C", "D"]));
    graph.insert("C".to_string(), strings(&["A", "B", "D"]));
    graph.insert("D".to_string(), strings(&["B", "C", "E"]));
    graph.insert("E".to_string(), strings(&["D"]));
    graph
}

fn sample_node_info() -> NodeInfo {
    let mut node_info: NodeInfo = Table::new();
    node_info.insert("A".to_string(), ("title".to_string(), "1".to_string()));
    node_info.insert("B".to_string(), ("title".to_string(), "2".to_string()));
    node_info.insert("C".to_string(), ("title".to_string(), "1".to_string()));
    node_info.insert("D".to_string(), ("title".to_string(), "3".to_string()));
    node_info.insert("E".to_string(), ("title".to_string(), "3".to_string()));
    node_info
}

fn ratio(numerator: u128, denominator: u128) -> Ratio {
    Ratio { numerator, denominator }
}

fn quotient(ratio: &Ratio) -> f64 {
    if ratio.has_quotient() {
        ratio.numerator as f64 / ratio.denominator as f64
    } else {
        0.0
    }
}

#[test]
fn test_compute_average_degree_centrality_all_nodes() {
    let centrality = compute_average_degree_centrality_all_nodes(&sample_graph(), &sample_node_info());
    assert_eq!(centrality.len(), 3);
    assert_eq!(centrality.get("1"), Some(&ratio(5, 2)));
    assert_eq!(centrality.get("2"), Some(&ratio(3, 1)));
    assert_eq!(centrality.get("3"), Some(&ratio(4, 2)));
    assert_eq!(quotient(centrality.get("1").unwrap()), 2.5);
    assert_eq!(quotient(centrality.get("2").unwrap()), 3.0);
    assert_eq!(quotient(centrality.get("3").unwrap()), 2.0);
}

#[test]
fn test_category_purchasing_likelihood() {
    let likelihood = category_purchasing_likelihood(&sample_graph(), &sample_node_info());
    assert_eq!(likelihood.len(), 3);
    assert_eq!(likelihood.get("1"), Some(&ratio(2, 5)));
    assert_eq!(likelihood.get("2"), Some(&ratio(0, 3)));
    assert_eq!(likelihood.get("3"), Some(&ratio(2, 4)));
    assert_eq!(quotient(likelihood.get("1").unwrap()), 0.4);
    assert_eq!(quotient(likelihood.get("2").unwrap()), 0.0);
    assert_eq!(quotient(likelihood.get("3").unwrap()), 0.5);
}

#[test]
fn edge_weighted_and_node_weighted_likelihoods_differ() {
    let graph = sample_graph();
    let node_info = sample_node_info();
    let by_edge = category_purchasing_likelihood(&graph, &node_info);
    let by_node = category_recommendation_likelihood(&graph, &node_info);
    assert_eq!(by_node.len(), 2);
    assert_eq!(by_node.get("1"), Some(&ratio(2, 2)));
    assert_eq!(by_node.get("2"), None);
    assert_eq!(by_node.get("3"), Some(&ratio(2, 2)));
    assert_ne!(quotient(by_edge.get("1").unwrap()), quotient(by_node.get("1").unwrap()));
    assert_ne!(quotient(by_edge.get("3").unwrap()), quotient(by_node.get("3").unwrap()));
}

#[test]
fn a_node_with_several_neighbours_of_its_category_counts_once() {
    let mut graph: Graph = Table::new();
    graph.insert("A".to_string(), strings(&["B", "C", "B"]));
    graph.insert("B".to_string(), strings(&["X"]));
    graph.insert("C".to_string(), strings(&[]));
    let mut node_info: NodeInfo = Table::new();
    node_info.insert("A".to_string(), ("a".to_string(), "Book".to_string()));
    node_info.insert("B".to_string(), ("b".to_string(), "Book".to_string()));
    node_info.insert("C".to_string(), ("c".to_string(), "Book".to_string()));
    let by_node = category_recommendation_likelihood(&graph, &node_info);
    assert_eq!(by_node.get("Book"), Some(&ratio(1, 3)));
    let by_edge = category_purchasing_likelihood(&graph, &node_info);
    assert_eq!(by_edge.get("Book"), Some(&ratio(3, 4)));
}

#[test]
fn average_degree_counts_raw_list_lengths() {
    let mut graph: Graph = Table::new();
    graph.insert("A".to_string(), strings(&["B", "B", "nobody"]));
    graph.insert("B".to_string(), strings(&[]));
    graph.insert("stranger".to_string(), strings(&["A", "B"]));
    let mut node_info: NodeInfo = Table::new();
    node_info.insert("A".to_string(), ("a".to_string(), "Book".to_string()));
    node_info.insert("B".to_string(), ("b".to_string(), "Book".to_string()));
    node_info.insert("C".to_string(), ("c".to_string(), "Toy".to_string()));

    let all = compute_average_degree_centrality_all_nodes(&graph, &node_info);
    assert_eq!(all.len(), 1);
    assert_eq!(all.get("Book"), Some(&ratio(3, 2)));
    assert_eq!(all.get("Toy"), None);

    let connected = compute_average_degree_centrality_for_nodes_with_neighbours(&graph, &node_info);
    assert_eq!(connected.len(), 1);
    assert_eq!(connected.get("Book"), Some(&ratio(3, 1)));
}

#[test]
fn nodes_without_neighbours_are_skipped_on_request() {
    let mut graph = sample_graph();
    graph.insert("F".to_string(), strings(&[]));
    graph.insert("G".to_string(), strings(&[]));
    let mut node_info = sample_node_info();
    node_info.insert("F".to_string(), ("title".to_string(), "1".to_string()));
    node_info.insert("G".to_string(), ("title".to_string(), "4".to_string()));

    let all = compute_average_degree_centrality_all_nodes(&graph, &node_info);
    assert_eq!(all.get("1"), Some(&ratio(5, 3)));
    assert_eq!(all.get("4"), Some(&ratio(0, 1)));

    let connected = compute_average_degree_centrality_for_nodes_with_neighbours(&graph, &node_info);
    assert_eq!(connected.len(), 3);
    assert_eq!(connected.get("1"), Some(&ratio(5, 2)));
    assert_eq!(connected.get("2"), Some(&ratio(3, 1)));
    assert_eq!(connected.get("3"), Some(&ratio(4, 2)));
    assert_eq!(connected.get("4"), None);
}

#[test]
fn every_category_has_a_purchasing_likelihood() {
    let mut graph: Graph = Table::new();
    graph.insert("A".to_string(), strings(&[]));
    graph.insert("stranger".to_string(), strings(&["A"]));
    let mut node_info: NodeInfo = Table::new();
    node_info.insert("A".to_string(), ("a".to_string(), "Book".to_string()));
    node_info.insert("B".to_string(), ("b".to_string(), "Toy".to_string()));
    let likelihood = category_purchasing_likelihood(&graph, &node_info);
    assert_eq!(likelihood.len(), 2);
    assert_eq!(likelihood.get("Book"), Some(&ratio(0, 0)));
    assert_eq!(likelihood.get("Toy"), Some(&ratio(0, 0)));
    assert!(!likelihood.get("Toy").unwrap().has_quotient());
    assert_eq!(quotient(likelihood.get("Toy").unwrap()), 0.0);
    assert_eq!(category_recommendation_likelihood(&graph, &node_info).len(), 0);
}

#[test]
fn cross_category_averages() {
    let averages = average_recommendation_per_category(&sample_graph(), &sample_node_info());
    assert_eq!(averages.len(), 3);

    let from_1 = averages.get("1").unwrap();
    assert_eq!(from_1.len(), 3);
    assert_eq!(from_1.get("1"), Some(&ratio(2, 2)));
    assert_eq!(from_1.get("2"), Some(&ratio(2, 2)));
    assert_eq!(from_1.get("3"), Some(&ratio(1, 2)));

    let from_2 = averages.get("2").unwrap();
    assert_eq!(from_2.len(), 2);
    assert_eq!(from_2.get("1"), Some(&ratio(2, 1)));
    assert_eq!(from_2.get("2"), None);
    assert_eq!(from_2.get("3"), Some(&ratio(1, 1)));

    let from_3 = averages.get("3").unwrap();
    assert_eq!(from_3.len(), 3);
    assert_eq!(from_3.get("1"), Some(&ratio(1, 2)));
    assert_eq!(from_3.get("2"), Some(&ratio(1, 2)));
    assert_eq!(from_3.get("3"), Some(&ratio(2, 2)));
    assert_eq!(quotient(from_3.get("1").unwrap()), 0.5);
}

#[test]
fn cross_category_averages_leave_out_what_has_no_node() {
    let mut graph: Graph = Table::new();
    graph.insert("A".to_string(), strings(&["nobody"]));
    graph.insert("stranger".to_string(), strings(&["A"]));
    let mut node_info: NodeInfo = Table::new();
    node_info.insert("A".to_string(), ("a".to_string(), "Book".to_string()));
    node_info.insert("B".to_string(), ("b".to_string(), "Toy".to_string()));
    let averages = average_recommendation_per_category(&graph, &node_info);
    assert_eq!(averages.len(), 1);
    assert_eq!(averages.get("Book").unwrap().len(), 0);
    assert!(averages.get("Toy").is_none());
}

#[test]
fn statistics_of_nothing_are_empty() {
    let graph: Graph = Table::new();
    let node_info: NodeInfo = Table::new();
    assert_eq!(compute_average_degree_centrality_all_nodes(&graph, &node_info).len(), 0);
    assert_eq!(
        compute_average_degree_centrality_for_nodes_with_neighbours(&graph, &node_info).len(),
        0
    );
    assert_eq!(category_purchasing_likelihood(&graph, &node_info).len(), 0);
    assert_eq!(category_recommendation_likelihood(&graph, &node_info).len(), 0);
    assert_eq!(average_recommendation_per_category(&graph, &node_info).len(), 0);
}

#[test]
fn from_lines_to_statistics() {
    let text = [
        "# two books and a record",
        "",
        "Id:   1",
        "ASIN: B1",
        "  title: First book",
        "  group: Book",
        "  similar: 2  B2  M1",
        "",
        "Id:   2",
        "ASIN: B2",
        "  title: Second book",
        "  group: Book",
        "  similar: 1  B1",
        "",
        "Id:   3",
        "ASIN: M1",
        "  title: A record",
        "  group: Music",
        "  similar: 1  X9",
        "",
    ];
    let lines: Vec<String> = text.iter().map(|s| s.to_string()).collect();
    let graph = data_to_graph(&lines);
    let node_info = node_information(&lines);

    assert_eq!(graph.get("B1"), Some(&strings(&["B2", "M1", "B2", "M1", "B2"])));
    assert_eq!(graph.get("B2"), Some(&strings(&["B1", "B1"])));
    assert_eq!(graph.get("M1"), Some(&strings(&["B1", "X9"])));
    assert_eq!(graph.get("X9"), Some(&strings(&["M1"])));

    let counts = count_items_by_category(&node_info);
    assert_eq!(counts.get("Book"), Some(&2));
    assert_eq!(counts.get("Music"), Some(&1));

    let (new_graph, new_node_info) = reconcile(&graph, &node_info);
    assert_eq!(new_graph.len(), 3);
    assert!(new_graph.get("X9").is_none());

    let degrees = compute_average_degree_centrality_all_nodes(&new_graph, &new_node_info);
    assert_eq!(degrees.get("Book"), Some(&ratio(7, 2)));
    assert_eq!(degrees.get("Music"), Some(&ratio(2, 1)));
    let raw_degrees = compute_average_degree_centrality_all_nodes(&graph, &node_info);
    assert_eq!(raw_degrees.get("Book"), degrees.get("Book"));
    assert_eq!(raw_degrees.get("Music"), degrees.get("Music"));

    let likelihood = category_purchasing_likelihood(&graph, &node_info);
    assert_eq!(likelihood.get("Book"), Some(&ratio(5, 7)));
    assert_eq!(likelihood.get("Music"), Some(&ratio(0, 2)));

    let averages = average_recommendation_per_category(&graph, &node_info);
    assert_eq!(averages.get("Book").unwrap().get("Book"), Some(&ratio(5, 2)));
    assert_eq!(averages.get("Book").unwrap().get("Music"), Some(&ratio(2, 2)));
    assert_eq!(averages.get("Music").unwrap().get("Book"), Some(&ratio(1, 1)));
    assert_eq!(averages.get("Music").unwrap().get("Music"), None);
}
