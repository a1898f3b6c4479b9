use drft::analyses::bridges::Bridges;
use drft::analyses::connected_components::ConnectedComponents;
use drft::analyses::degree::Degree;
use drft::analyses::impact_radius::ImpactRadius;
use drft::analyses::scc::StronglyConnectedComponents;
use drft::analyses::transitive_reduction::TransitiveReduction;
use drft::analyses::all_analysis_names;
use drft::analyses::edge_classification::{DiskFacts, EdgeClassification, EdgeStatus};
use drft::graph::{Edge, Graph, Node, NodeType};
use drft::analyses::change_propagation::ChangePropagation;
use drft::metrics::metric_counts;

fn make_node(path: &str) -> Node {
    Node { path: path.into(), node_type: Some(NodeType::File), included: true, hash: None }
}

fn external_node(path: &str) -> Node {
    Node { path: path.into(), node_type: Some(NodeType::Uri), included: false, hash: None }
}

fn make_edge(source: &str, target: &str) -> Edge {
    Edge { source: source.into(), target: target.into(), link: None, parser: "markdown".into(), lines: vec![] }
}

fn graph_of(nodes: &[&str], edges: &[(&str, &str)]) -> Graph {
    let mut graph = Graph::new();
    for n in nodes {
        graph.add_node(make_node(n));
    }
    for (s, t) in edges {
        graph.add_edge(make_edge(s, t));
    }
    graph
}

// Bridges

#[test]
fn bridges_linear_chain() {
    let graph = graph_of(&["a.md", "b.md", "c.md"], &[("a.md", "b.md"), ("b.md", "c.md")]);
    let result = Bridges.run(&graph);
    assert_eq!(result.bridges.len(), 2);
    assert_eq!(result.cut_vertices, vec!["b.md"]);
}

#[test]
fn cycle_has_no_bridges() {
    let graph = graph_of(&["a.md", "b.md", "c.md"], &[("a.md", "b.md"), ("b.md", "c.md"), ("c.md", "a.md")]);
    let result = Bridges.run(&graph);
    assert!(result.bridges.is_empty());
    assert!(result.cut_vertices.is_empty());
}

#[test]
fn star_graph() {
    let graph = graph_of(
        &["center.md", "a.md", "b.md", "c.md"],
        &[("center.md", "a.md"), ("center.md", "b.md"), ("center.md", "c.md")],
    );
    let result = Bridges.run(&graph);
    assert_eq!(result.cut_vertices, vec!["center.md"]);
    assert_eq!(result.bridges.len(), 3);
}

#[test]
fn bridges_empty_graph() {
    let graph = Graph::new();
    let result = Bridges.run(&graph);
    assert!(result.cut_vertices.is_empty());
    assert!(result.bridges.is_empty());
}

#[test]
fn bridges_single_node() {
    let graph = graph_of(&["a.md"], &[]);
    let result = Bridges.run(&graph);
    assert!(result.cut_vertices.is_empty());
    assert!(result.bridges.is_empty());
}

#[test]
fn cycle_with_tail() {
    let graph = graph_of(
        &["a.md", "b.md", "c.md", "d.md"],
        &[("a.md", "b.md"), ("b.md", "c.md"), ("c.md", "a.md"), ("c.md", "d.md")],
    );
    let result = Bridges.run(&graph);
    assert_eq!(result.bridges.len(), 1);
    assert_eq!(result.bridges[0].source, "c.md");
    assert_eq!(result.bridges[0].target, "d.md");
    assert!(result.cut_vertices.contains(&"c.md".to_string()));
}

#[test]
fn a_doubled_link_is_still_one_bridge() {
    // a → b and b → a read as one undirected link; removing it disconnects.
    let graph = graph_of(&["a.md", "b.md"], &[("a.md", "b.md"), ("b.md", "a.md")]);
    let result = Bridges.run(&graph);
    assert_eq!(result.bridges.len(), 1);
    assert_eq!(result.bridges[0].source, "a.md");
    assert_eq!(result.bridges[0].target, "b.md");
    assert!(result.cut_vertices.is_empty());
}

// Connected components

#[test]
fn single_component() {
    let graph = graph_of(&["a.md", "b.md", "c.md"], &[("a.md", "b.md"), ("b.md", "c.md")]);
    let result = ConnectedComponents.run(&graph);
    assert_eq!(result.component_count, 1);
    assert_eq!(result.components[0].members.len(), 3);
}

#[test]
fn two_components() {
    let graph = graph_of(&["a.md", "b.md", "c.md", "d.md"], &[("a.md", "b.md"), ("c.md", "d.md")]);
    let result = ConnectedComponents.run(&graph);
    assert_eq!(result.component_count, 2);
    assert_eq!(result.components[0].members.len(), 2);
    assert_eq!(result.components[1].members.len(), 2);
}

#[test]
fn isolated_node() {
    let graph = graph_of(&["a.md", "b.md", "c.md"], &[("a.md", "b.md")]);
    let result = ConnectedComponents.run(&graph);
    assert_eq!(result.component_count, 2);
    assert_eq!(result.components[0].members, vec!["a.md", "b.md"]);
    assert_eq!(result.components[1].members, vec!["c.md"]);
}

#[test]
fn excludes_external_nodes() {
    let mut graph = Graph::new();
    graph.add_node(make_node("a.md"));
    graph.add_node(external_node("https://example.com"));
    graph.add_edge(make_edge("a.md", "https://example.com"));
    let result = ConnectedComponents.run(&graph);
    assert_eq!(result.component_count, 1);
    assert_eq!(result.components[0].members, vec!["a.md"]);
}

#[test]
fn connected_components_empty_graph() {
    let graph = Graph::new();
    let result = ConnectedComponents.run(&graph);
    assert_eq!(result.component_count, 0);
    assert!(result.components.is_empty());
}

#[test]
fn undirected_connectivity() {
    let graph = graph_of(&["a.md", "b.md", "c.md"], &[("a.md", "b.md"), ("c.md", "b.md")]);
    let result = ConnectedComponents.run(&graph);
    assert_eq!(result.component_count, 1);
    assert_eq!(result.components[0].members.len(), 3);
}

#[test]
fn sorted_by_size_descending() {
    let graph = graph_of(&["a.md", "b.md", "c.md", "d.md", "e.md"], &[("a.md", "b.md"), ("a.md", "c.md")]);
    let result = ConnectedComponents.run(&graph);
    assert_eq!(result.component_count, 3);
    assert_eq!(result.components[0].members.len(), 3);
    assert_eq!(result.components[1].members.len(), 1);
    assert_eq!(result.components[2].members.len(), 1);
}

// Degree

#[test]
fn degree_empty_graph() {
    let graph = Graph::new();
    let result = Degree.run(&graph);
    assert!(result.nodes.is_empty());
}

#[test]
fn degree_single_node() {
    let graph = graph_of(&["a.md"], &[]);
    let result = Degree.run(&graph);
    assert_eq!(result.nodes.len(), 1);
    assert_eq!(result.nodes[0].node, "a.md");
    assert_eq!(result.nodes[0].in_degree, 0);
    assert_eq!(result.nodes[0].out_degree, 0);
}

#[test]
fn degree_diamond_graph() {
    let graph = graph_of(
        &["a.md", "b.md", "c.md", "d.md"],
        &[("a.md", "b.md"), ("a.md", "c.md"), ("b.md", "d.md"), ("c.md", "d.md")],
    );
    let result = Degree.run(&graph);
    assert_eq!(result.nodes.len(), 4);
    let a = result.nodes.iter().find(|n| n.node == "a.md").unwrap();
    assert_eq!(a.in_degree, 0);
    assert_eq!(a.out_degree, 2);
    let d = result.nodes.iter().find(|n| n.node == "d.md").unwrap();
    assert_eq!(d.in_degree, 2);
    assert_eq!(d.out_degree, 0);
}

#[test]
fn self_loop() {
    let graph = graph_of(&["a.md"], &[("a.md", "a.md")]);
    let result = Degree.run(&graph);
    assert_eq!(result.nodes[0].in_degree, 1);
    assert_eq!(result.nodes[0].out_degree, 1);
}

#[test]
fn excludes_synthetic_nodes() {
    let mut graph = Graph::new();
    graph.add_node(make_node("a.md"));
    graph.add_node(external_node("https://example.com"));
    graph.add_edge(make_edge("a.md", "https://example.com"));
    let result = Degree.run(&graph);
    assert_eq!(result.nodes.len(), 1);
    assert_eq!(result.nodes[0].node, "a.md");
    assert_eq!(result.nodes[0].out_degree, 0);
}

#[test]
fn sorted_by_path() {
    let graph = graph_of(&["c.md", "a.md", "b.md"], &[]);
    let result = Degree.run(&graph);
    let paths: Vec<&str> = result.nodes.iter().map(|n| n.node.as_str()).collect();
    assert_eq!(paths, vec!["a.md", "b.md", "c.md"]);
}

// Impact radius

#[test]
fn impact_radius_empty_graph() {
    let graph = Graph::new();
    let result = ImpactRadius.run(&graph);
    assert!(result.nodes.is_empty());
}

#[test]
fn single_node_no_edges() {
    let graph = graph_of(&["a.md"], &[]);
    let result = ImpactRadius.run(&graph);
    assert_eq!(result.nodes.len(), 1);
    assert_eq!(result.nodes[0].radius, 0);
    assert_eq!(result.nodes[0].direct_dependents, 0);
    assert_eq!(result.nodes[0].max_depth, 0);
}

#[test]
fn impact_radius_linear_chain() {
    let graph = graph_of(
        &["a.md", "b.md", "c.md", "d.md"],
        &[("a.md", "b.md"), ("b.md", "c.md"), ("c.md", "d.md")],
    );
    let result = ImpactRadius.run(&graph);
    let get = |name: &str| result.nodes.iter().find(|n| n.node == name).unwrap();
    assert_eq!(get("d.md").radius, 3);
    assert_eq!(get("d.md").direct_dependents, 1);
    assert_eq!(get("d.md").max_depth, 3);
    assert_eq!(get("c.md").radius, 2);
    assert_eq!(get("c.md").direct_dependents, 1);
    assert_eq!(get("c.md").max_depth, 2);
    assert_eq!(get("b.md").radius, 1);
    assert_eq!(get("b.md").direct_dependents, 1);
    assert_eq!(get("b.md").max_depth, 1);
    assert_eq!(get("a.md").radius, 0);
    assert_eq!(get("a.md").direct_dependents, 0);
    assert_eq!(get("a.md").max_depth, 0);
}

#[test]
fn impact_radius_diamond_graph() {
    let graph = graph_of(
        &["a.md", "b.md", "c.md", "d.md"],
        &[("a.md", "b.md"), ("a.md", "c.md"), ("b.md", "d.md"), ("c.md", "d.md")],
    );
    let result = ImpactRadius.run(&graph);
    let get = |name: &str| result.nodes.iter().find(|n| n.node == name).unwrap();
    assert_eq!(get("d.md").radius, 3);
    assert_eq!(get("d.md").direct_dependents, 2);
    assert_eq!(get("d.md").max_depth, 2);
    assert_eq!(get("b.md").radius, 1);
    assert_eq!(get("b.md").direct_dependents, 1);
    assert_eq!(get("a.md").radius, 0);
}

#[test]
fn cycle() {
    let graph = graph_of(&["a.md", "b.md", "c.md"], &[("a.md", "b.md"), ("b.md", "c.md"), ("c.md", "a.md")]);
    let result = ImpactRadius.run(&graph);
    let get = |name: &str| result.nodes.iter().find(|n| n.node == name).unwrap();
    assert_eq!(get("a.md").radius, 2);
    assert_eq!(get("b.md").radius, 2);
    assert_eq!(get("c.md").radius, 2);
}

#[test]
fn external_edges_dont_create_nodes() {
    let graph = graph_of(&["a.md"], &[("a.md", "https://example.com")]);
    let result = ImpactRadius.run(&graph);
    assert_eq!(result.nodes.len(), 1);
    assert_eq!(result.nodes[0].radius, 0);
}

// Strongly connected components

#[test]
fn dag_has_no_nontrivial_sccs() {
    let graph = graph_of(&["a.md", "b.md", "c.md"], &[("a.md", "b.md"), ("b.md", "c.md")]);
    let result = StronglyConnectedComponents.run(&graph);
    assert_eq!(result.scc_count, 3);
    assert_eq!(result.nontrivial_count, 0);
    assert!(result.sccs.is_empty());
}

#[test]
fn simple_cycle() {
    let graph = graph_of(&["a.md", "b.md", "c.md"], &[("a.md", "b.md"), ("b.md", "c.md"), ("c.md", "a.md")]);
    let result = StronglyConnectedComponents.run(&graph);
    assert_eq!(result.nontrivial_count, 1);
    assert_eq!(result.sccs.len(), 1);
    assert_eq!(result.sccs[0].members, vec!["a.md", "b.md", "c.md"]);
}

#[test]
fn two_separate_cycles() {
    let graph = graph_of(
        &["a.md", "b.md", "c.md", "d.md"],
        &[("a.md", "b.md"), ("b.md", "a.md"), ("c.md", "d.md"), ("d.md", "c.md")],
    );
    let result = StronglyConnectedComponents.run(&graph);
    assert_eq!(result.nontrivial_count, 2);
    assert_eq!(result.sccs.len(), 2);
}

#[test]
fn mixed_cyclic_and_acyclic() {
    let graph = graph_of(&["a.md", "b.md", "c.md"], &[("a.md", "b.md"), ("b.md", "c.md"), ("c.md", "b.md")]);
    let result = StronglyConnectedComponents.run(&graph);
    assert_eq!(result.nontrivial_count, 1);
    assert_eq!(result.sccs[0].members, vec!["b.md", "c.md"]);
    assert!(result.node_scc.iter().any(|(n, _)| n == "a.md"));
}

#[test]
fn self_loop_is_nontrivial() {
    let graph = graph_of(&["a.md"], &[("a.md", "a.md")]);
    let result = StronglyConnectedComponents.run(&graph);
    assert_eq!(result.nontrivial_count, 1);
    assert_eq!(result.sccs[0].members, vec!["a.md"]);
}

#[test]
fn scc_empty_graph() {
    let graph = Graph::new();
    let result = StronglyConnectedComponents.run(&graph);
    assert_eq!(result.scc_count, 0);
    assert_eq!(result.nontrivial_count, 0);
}

#[test]
fn every_node_has_scc_id() {
    let graph = graph_of(&["a.md", "b.md", "c.md"], &[("a.md", "b.md"), ("b.md", "c.md")]);
    let result = StronglyConnectedComponents.run(&graph);
    for name in ["a.md", "b.md", "c.md"] {
        assert!(result.node_scc.iter().any(|(n, _)| n == name));
    }
}

#[test]
fn members_of_one_component_share_its_number() {
    let graph = graph_of(
        &["a.md", "b.md", "c.md", "d.md"],
        &[("a.md", "b.md"), ("b.md", "a.md"), ("c.md", "d.md")],
    );
    let result = StronglyConnectedComponents.run(&graph);
    assert_eq!(result.scc_count, 3);
    let ids: Vec<usize> = result.node_scc.iter().map(|(_, id)| *id).collect();
    assert_eq!(ids, vec![1, 1, 2, 3]);
}

// Transitive reduction

#[test]
fn diamond_redundancy() {
    let graph = graph_of(&["a.md", "b.md", "c.md"], &[("a.md", "b.md"), ("b.md", "c.md"), ("a.md", "c.md")]);
    let result = TransitiveReduction.run(&graph);
    assert_eq!(result.redundant_edges.len(), 1);
    assert_eq!(result.redundant_edges[0].source, "a.md");
    assert_eq!(result.redundant_edges[0].target, "c.md");
    assert_eq!(result.redundant_edges[0].via, "b.md");
}

#[test]
fn no_redundancy() {
    let graph = graph_of(&["a.md", "b.md", "c.md"], &[("a.md", "b.md"), ("b.md", "c.md")]);
    let result = TransitiveReduction.run(&graph);
    assert!(result.redundant_edges.is_empty());
}

#[test]
fn multiple_redundancies() {
    let graph = graph_of(
        &["a.md", "b.md", "c.md", "d.md"],
        &[("a.md", "b.md"), ("b.md", "c.md"), ("b.md", "d.md"), ("a.md", "c.md"), ("a.md", "d.md")],
    );
    let result = TransitiveReduction.run(&graph);
    assert_eq!(result.redundant_edges.len(), 2);
    let targets: Vec<&str> = result.redundant_edges.iter().map(|r| r.target.as_str()).collect();
    assert!(targets.contains(&"c.md"));
    assert!(targets.contains(&"d.md"));
}

#[test]
fn longer_chain() {
    let graph = graph_of(
        &["a.md", "b.md", "c.md", "d.md"],
        &[("a.md", "b.md"), ("b.md", "c.md"), ("c.md", "d.md"), ("a.md", "d.md")],
    );
    let result = TransitiveReduction.run(&graph);
    assert_eq!(result.redundant_edges.len(), 1);
    assert_eq!(result.redundant_edges[0].source, "a.md");
    assert_eq!(result.redundant_edges[0].target, "d.md");
    assert_eq!(result.redundant_edges[0].via, "b.md");
}

#[test]
fn self_loop_not_flagged() {
    let graph = graph_of(&["a.md"], &[("a.md", "a.md")]);
    let result = TransitiveReduction.run(&graph);
    assert!(result.redundant_edges.is_empty());
}

#[test]
fn disconnected_components() {
    let graph = graph_of(&["a.md", "b.md", "c.md", "d.md"], &[("a.md", "b.md"), ("c.md", "d.md")]);
    let result = TransitiveReduction.run(&graph);
    assert!(result.redundant_edges.is_empty());
}

#[test]
fn edge_to_missing_node_skipped() {
    let graph = graph_of(&["a.md", "b.md"], &[("a.md", "b.md"), ("a.md", "missing.md")]);
    let result = TransitiveReduction.run(&graph);
    assert!(result.redundant_edges.is_empty());
}

#[test]
fn analysis_names_are_sorted_and_complete() {
    let names = all_analysis_names();
    assert_eq!(names.len(), 11);
    let mut sorted = names.clone();
    sorted.sort();
    assert_eq!(names, sorted);
    assert!(names.contains(&"scc") && names.contains(&"bridges"));
}

// Depth

use drft::analyses::depth::Depth;

#[test]
fn depth_linear_chain() {
    let graph = graph_of(&["a.md", "b.md", "c.md"], &[("a.md", "b.md"), ("b.md", "c.md")]);
    let result = Depth.run(&graph);
    assert_eq!(result.max_depth, 2);
    let a = result.nodes.iter().find(|n| n.node == "a.md").unwrap();
    assert_eq!(a.depth, 0);
    assert!(!a.in_cycle);
    let c = result.nodes.iter().find(|n| n.node == "c.md").unwrap();
    assert_eq!(c.depth, 2);
}

#[test]
fn diamond() {
    let graph = graph_of(
        &["a.md", "b.md", "c.md", "d.md"],
        &[("a.md", "b.md"), ("a.md", "c.md"), ("b.md", "d.md"), ("c.md", "d.md")],
    );
    let result = Depth.run(&graph);
    let d = result.nodes.iter().find(|n| n.node == "d.md").unwrap();
    assert_eq!(d.depth, 2);
}

#[test]
fn cycle_gets_depth_and_flag() {
    let graph = graph_of(&["a.md", "b.md", "c.md"], &[("a.md", "b.md"), ("b.md", "c.md"), ("c.md", "b.md")]);
    let result = Depth.run(&graph);
    let a = result.nodes.iter().find(|n| n.node == "a.md").unwrap();
    assert_eq!(a.depth, 0);
    assert!(!a.in_cycle);
    let b = result.nodes.iter().find(|n| n.node == "b.md").unwrap();
    assert!(b.in_cycle);
    assert_eq!(b.depth, 1);
    let c = result.nodes.iter().find(|n| n.node == "c.md").unwrap();
    assert!(c.in_cycle);
    assert_eq!(c.depth, 1);
}

#[test]
fn entirely_cyclic() {
    let graph = graph_of(&["a.md", "b.md", "c.md"], &[("a.md", "b.md"), ("b.md", "c.md"), ("c.md", "a.md")]);
    let result = Depth.run(&graph);
    for nd in &result.nodes {
        assert_eq!(nd.depth, 0);
        assert!(nd.in_cycle);
    }
}

#[test]
fn depth_empty_graph() {
    let graph = Graph::new();
    let result = Depth.run(&graph);
    assert_eq!(result.max_depth, 0);
    assert!(result.nodes.is_empty());
}

#[test]
fn multiple_roots() {
    let graph = graph_of(&["a.md", "b.md", "c.md"], &[("a.md", "c.md"), ("b.md", "c.md")]);
    let result = Depth.run(&graph);
    let a = result.nodes.iter().find(|n| n.node == "a.md").unwrap();
    let b = result.nodes.iter().find(|n| n.node == "b.md").unwrap();
    let c = result.nodes.iter().find(|n| n.node == "c.md").unwrap();
    assert_eq!(a.depth, 0);
    assert_eq!(b.depth, 0);
    assert_eq!(c.depth, 1);
}

#[test]
fn depth_orders_shallowest_first_then_by_path() {
    // a → c, b → c, c → d: d is deepest; a and b tie at the top.
    let graph = graph_of(&["a.md", "b.md", "c.md", "d.md"], &[("a.md", "c.md"), ("b.md", "c.md"), ("c.md", "d.md")]);
    let result = Depth.run(&graph);
    let order: Vec<(&str, usize)> = result.nodes.iter().map(|n| (n.node.as_str(), n.depth)).collect();
    assert_eq!(order, vec![("a.md", 0), ("b.md", 0), ("c.md", 1), ("d.md", 2)]);
    assert_eq!(result.max_depth, 2);
}

// Graph statistics

use drft::analyses::graph_stats::GraphStats;

fn density(s: &drft::analyses::graph_stats::PathStats) -> f64 {
    if s.node_count <= 1 { 0.0 } else { s.edge_count as f64 / (s.node_count * (s.node_count - 1)) as f64 }
}

fn average(s: &drft::analyses::graph_stats::PathStats) -> Option<f64> {
    s.total_path_length.map(|t| if s.pair_count > 0 { t as f64 / s.pair_count as f64 } else { 0.0 })
}

#[test]
fn graph_stats_empty_graph() {
    let graph = Graph::new();
    let result = GraphStats.run(&graph);
    assert_eq!(result.node_count, 0);
    assert_eq!(result.edge_count, 0);
    assert_eq!(density(&result), 0.0);
    assert_eq!(result.diameter, Some(0));
}

#[test]
fn graph_stats_single_node() {
    let graph = graph_of(&["a.md"], &[]);
    let result = GraphStats.run(&graph);
    assert_eq!(result.node_count, 1);
    assert_eq!(density(&result), 0.0);
    assert_eq!(result.diameter, Some(0));
}

#[test]
fn graph_stats_linear_chain() {
    let graph = graph_of(&["a.md", "b.md", "c.md"], &[("a.md", "b.md"), ("b.md", "c.md")]);
    let result = GraphStats.run(&graph);
    assert_eq!(result.node_count, 3);
    assert_eq!(result.edge_count, 2);
    assert!((density(&result) - 1.0 / 3.0).abs() < 1e-10);
    assert_eq!(result.diameter, None);
}

#[test]
fn complete_bidirectional() {
    let graph = graph_of(
        &["a.md", "b.md", "c.md"],
        &[("a.md", "b.md"), ("b.md", "a.md"), ("b.md", "c.md"), ("c.md", "b.md"), ("a.md", "c.md"), ("c.md", "a.md")],
    );
    let result = GraphStats.run(&graph);
    assert_eq!(result.node_count, 3);
    assert_eq!(result.edge_count, 6);
    assert!((density(&result) - 1.0).abs() < 1e-10);
    assert_eq!(result.diameter, Some(1));
    assert_eq!(average(&result), Some(1.0));
}

#[test]
fn cycle_has_diameter() {
    let graph = graph_of(&["a.md", "b.md", "c.md"], &[("a.md", "b.md"), ("b.md", "c.md"), ("c.md", "a.md")]);
    let result = GraphStats.run(&graph);
    assert_eq!(result.diameter, Some(2));
    assert!((average(&result).unwrap() - 1.5).abs() < 1e-10);
    assert_eq!(result.total_path_length, Some(9));
    assert_eq!(result.pair_count, 6);
}

// ---------------------------------------------------------------------------
// Edge classification

fn on_disk(is_dir: bool, is_symlink: bool, exists: bool) -> DiskFacts {
    DiskFacts { is_dir, is_symlink, exists, link_to: "unknown".into() }
}

#[test]
fn classifies_valid_edge() {
    let mut graph = Graph::new();
    graph.add_node(make_node("a.md"));
    graph.add_node(make_node("b.md"));
    graph.add_edge(make_edge("a.md", "b.md"));
    let result = EdgeClassification.run(&graph, &vec![on_disk(false, false, true)]);
    assert_eq!(result.edges.len(), 1);
    assert!(matches!(result.edges[0].status, EdgeStatus::Valid));
}

#[test]
fn classifies_broken_edge() {
    let mut graph = Graph::new();
    graph.add_node(make_node("a.md"));
    graph.add_edge(make_edge("a.md", "gone.md"));
    let result = EdgeClassification.run(&graph, &vec![on_disk(false, false, false)]);
    assert!(matches!(result.edges[0].status, EdgeStatus::Broken));
}

#[test]
fn classifies_external_edge() {
    let mut graph = Graph::new();
    graph.add_node(make_node("a.md"));
    graph.add_node(external_node("https://example.com"));
    graph.add_edge(make_edge("a.md", "https://example.com"));
    let result = EdgeClassification.run(&graph, &vec![on_disk(false, false, false)]);
    assert!(matches!(result.edges[0].status, EdgeStatus::External));
}

#[test]
fn classifies_directory_target() {
    let mut graph = Graph::new();
    graph.add_node(make_node("a.md"));
    graph.add_edge(make_edge("a.md", "guides"));
    let result = EdgeClassification.run(&graph, &vec![on_disk(true, false, true)]);
    assert!(matches!(result.edges[0].status, EdgeStatus::DirectoryTarget));
}

#[test]
fn classifies_frontier_as_valid() {
    let mut graph = Graph::new();
    graph.add_node(make_node("a.md"));
    graph.add_node(Node { path: "child/".into(), node_type: Some(NodeType::Directory), included: false, hash: None });
    graph.add_edge(make_edge("a.md", "child/"));
    let result = EdgeClassification.run(&graph, &vec![on_disk(false, false, false)]);
    assert!(matches!(result.edges[0].status, EdgeStatus::Valid));
}

#[test]
fn an_excluded_file_and_a_symlink_are_told_apart() {
    let mut graph = Graph::new();
    graph.add_node(make_node("a.md"));
    graph.add_node(make_node("linked.md"));
    graph.add_edge(make_edge("a.md", "skipped.md"));
    graph.add_edge(make_edge("a.md", "link"));
    graph.add_edge(make_edge("a.md", "linked.md"));
    let pointing = DiskFacts { is_dir: false, is_symlink: true, exists: true, link_to: "real.md".into() };
    let result = EdgeClassification.run(&graph, &vec![on_disk(false, false, true), pointing.clone(), pointing]);
    assert!(matches!(result.edges[0].status, EdgeStatus::Excluded));
    assert!(matches!(&result.edges[1].status, EdgeStatus::SymlinkTarget { resolved } if resolved == "real.md"));
    assert!(matches!(&result.edges[2].status, EdgeStatus::SymlinkTarget { resolved } if resolved == "real.md"));
    assert_eq!(EdgeClassification.name(), "edge-classification");
}

// Metric counts

#[test]
fn metric_counts_gather_each_analysis() {
    // a -> b -> c, a -> c (redundant), d alone, plus a link out to a URI.
    let mut graph = graph_of(&["a.md", "b.md", "c.md", "d.md"], &[("a.md", "b.md"), ("b.md", "c.md"), ("a.md", "c.md")]);
    graph.add_node(external_node("https://example.com"));
    graph.add_edge(make_edge("a.md", "https://example.com"));
    let degree = Degree.run(&graph);
    let scc = StronglyConnectedComponents.run(&graph);
    let components = ConnectedComponents.run(&graph);
    let bridges = Bridges.run(&graph);
    let reduction = TransitiveReduction.run(&graph);
    let propagation = ChangePropagation.run(&graph, None);
    let counts = metric_counts(&degree, &scc, &components, &bridges, &reduction, &propagation, &graph);
    assert_eq!(counts.included_nodes, 4);
    assert_eq!(counts.orphans, 2);
    assert_eq!(counts.islands, 1);
    assert_eq!(counts.component_count, 2);
    assert_eq!(counts.components, 2);
    assert_eq!(counts.internal_edges, 3);
    assert_eq!(counts.redundant_edges, 1);
    assert_eq!(counts.bridges, bridges.bridges.len());
    assert_eq!(counts.cut_nodes, bridges.cut_vertices.len());
    assert!(!counts.has_lockfile);
    assert_eq!(counts.directly_changed, 0);
    assert_eq!(counts.transitively_stale, 0);
    assert_eq!(counts.cycles, 0);
}
