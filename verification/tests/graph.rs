//! Graphs.

use uwu_wiki::graph::model::{Edge, Graph, GraphError, GraphNode, NodeId, NodeKind};
use uwu_wiki::graph::store::GraphStore;

fn sample_graph() -> Graph {
    let mut g = Graph::new("g1");
    g.add_node(GraphNode::new("a", NodeKind::Start, "开始")).unwrap();
    g.add_node(GraphNode::new("b", NodeKind::Decision, "判断")).unwrap();
    g.add_node(GraphNode::new("c", NodeKind::Process, "处理")).unwrap();
    g.add_node(GraphNode::new("d", NodeKind::End, "结束")).unwrap();
    g.add_edge(Edge::new(NodeId("a".into()), NodeId("b".into()))).unwrap();
    g.add_edge(Edge::new(NodeId("b".into()), NodeId("c".into()))).unwrap();
    g.add_edge(Edge::new(NodeId("c".into()), NodeId("d".into()))).unwrap();
    g
}

fn tagged_graph() -> Graph {
    let mut g = Graph::new("g2");
    let mut n1 = GraphNode::new("x", NodeKind::Process, "登录");
    n1.tags.push("auth".into());
    let mut n2 = GraphNode::new("y", NodeKind::Decision, "校验");
    n2.tags.push("auth".into());
    g.add_node(n1).unwrap();
    g.add_node(n2).unwrap();
    g.add_edge(Edge::new(NodeId("x".into()), NodeId("y".into()))).unwrap();
    g
}

#[test]
fn graph_add_and_remove_node() {
    let mut g = Graph::new("g");
    g.add_node(GraphNode::new("n1", NodeKind::Process, "task")).unwrap();
    assert_eq!(g.node_count(), 1);
    g.remove_node(&NodeId("n1".into())).unwrap();
    assert_eq!(g.node_count(), 0);
}

#[test]
fn graph_duplicate_node_rejected() {
    let mut g = Graph::new("g");
    g.add_node(GraphNode::new("n1", NodeKind::Process, "a")).unwrap();
    assert!(g.add_node(GraphNode::new("n1", NodeKind::Process, "b")).is_err());
}

#[test]
fn remove_node_cleans_edges() {
    let mut g = sample_graph();
    g.remove_node(&NodeId("b".into())).unwrap();
    assert!(g.edges.iter().all(|e| e.from.0 != "b" && e.to.0 != "b"));
    assert_eq!(g.edge_count(), 1);
}

#[test]
fn edge_crud() {
    let mut g = Graph::new("g");
    g.add_node(GraphNode::new("a", NodeKind::Start, "A")).unwrap();
    g.add_node(GraphNode::new("b", NodeKind::End, "B")).unwrap();
    g.add_edge(Edge::new(NodeId("a".into()), NodeId("b".into()))).unwrap();
    assert_eq!(g.edge_count(), 1);
    assert!(g.remove_edge(&NodeId("a".into()), &NodeId("b".into())));
    assert_eq!(g.edge_count(), 0);
}

#[test]
fn edge_to_missing_node_rejected() {
    let mut g = Graph::new("g");
    g.add_node(GraphNode::new("a", NodeKind::Start, "A")).unwrap();
    assert!(g.add_edge(Edge::new(NodeId("a".into()), NodeId("z".into()))).is_err());
}

#[test]
fn bfs_order() {
    let g = sample_graph();
    let order: Vec<&str> = g.bfs(&NodeId("a".into())).iter().map(|n| n.id.0.as_str()).collect();
    assert_eq!(order, vec!["a", "b", "c", "d"]);
}

#[test]
fn dfs_order() {
    let g = sample_graph();
    let order: Vec<&str> = g.dfs(&NodeId("a".into())).iter().map(|n| n.id.0.as_str()).collect();
    assert_eq!(order.len(), 4);
    assert_eq!(order[0], "a");
    assert_eq!(order[3], "d");
}

#[test]
fn topological_sort_linear_graph() {
    let g = sample_graph();
    let sorted = g.topological_sort().unwrap();
    let ids: Vec<&str> = sorted.iter().map(|n| n.id.0.as_str()).collect();
    assert_eq!(ids, vec!["a", "b", "c", "d"]);
}

#[test]
fn neighbors_one_hop() {
    let g = sample_graph();
    let ns = g.neighbors(&NodeId("b".into()));
    assert_eq!(ns.len(), 2);
}

#[test]
fn store_crud() {
    let mut store = GraphStore::new();
    store.create(sample_graph()).unwrap();
    assert_eq!(store.len(), 1);
    assert!(store.get("g1").is_some());
    assert!(store.delete("g1"));
    assert!(store.is_empty());
}

#[test]
fn store_tag_index() {
    let mut store = GraphStore::new();
    store.create(tagged_graph()).unwrap();

    let auth_nodes = store.by_tag("auth");
    assert_eq!(auth_nodes.len(), 2);
}

#[test]
fn store_type_index() {
    let mut store = GraphStore::new();
    store.create(sample_graph()).unwrap();

    let decisions = store.by_type(&NodeKind::Decision);
    assert_eq!(decisions.len(), 1);
    assert_eq!(decisions[0].id.0, "b");

    let processes = store.by_type(&NodeKind::Process);
    assert_eq!(processes.len(), 1);
}

#[test]
fn store_find_node_cross_graph() {
    let mut store = GraphStore::new();
    store.create(sample_graph()).unwrap();

    let node = store.find_node(&NodeId("c".into()));
    assert!(node.is_some());
    assert_eq!(node.unwrap().label, "处理");
}

#[test]
fn mermaid_export_contains_nodes_and_edges() {
    let g = sample_graph();
    let md = g.to_mermaid();
    assert!(md.starts_with("flowchart"));
    assert!(md.contains("a"));
    assert!(md.contains("-->"));
}

#[test]
fn plantuml_export_contains_tags() {
    let g = sample_graph();
    let puml = g.to_plantuml();
    assert!(puml.starts_with("@startuml"));
    assert!(puml.ends_with("@enduml\n"));
    assert!(puml.contains("-->"));
}

#[test]
fn tree_layout_covers_all_nodes() {
    let g = sample_graph();
    let slots = g.tree_slots(&NodeId("a".into()));
    assert_eq!(slots.len(), 4);
    let root = slots.iter().find(|s| s.id.0 == "a").unwrap();
    let leaf = slots.iter().find(|s| s.id.0 == "d").unwrap();
    assert!(root.depth < leaf.depth);
}

#[test]
fn layered_layout_positions_all_nodes() {
    let g = sample_graph();
    let slots = g.layered_slots();
    assert_eq!(slots.len(), 4);
    let layers: Vec<usize> = slots.iter().map(|s| s.layer).collect();
    assert_eq!(layers, vec![1, 2, 3, 4]);
}

#[test]
fn node_adapts_to_text_unit() {
    let g = sample_graph();
    let n = g.get_node(&NodeId("a".into())).unwrap();
    let unit = g.node_to_text_unit(n);
    assert_eq!(unit.text, "开始");
    assert_eq!(unit.id, "a");
}

#[test]
fn node_degree() {
    let g = sample_graph();
    let b = g.get_node(&NodeId("b".into())).unwrap();
    assert_eq!(b.in_degree(&g), 1);
    assert_eq!(b.out_degree(&g), 1);
}

#[test]
fn cycle_has_no_order() {
    let mut g = sample_graph();
    g.add_edge(Edge::new(NodeId("d".into()), NodeId("a".into()))).unwrap();
    assert_eq!(g.topological_sort().unwrap_err(), GraphError::CycleDetected);
    assert_eq!(g.layered_slots().len(), 4);
    let order: Vec<&str> = g.dfs(&NodeId("c".into())).iter().map(|n| n.id.0.as_str()).collect();
    assert_eq!(order, vec!["c", "d", "a", "b"]);
}

#[test]
fn graph_errors_say_why() {
    let mut g = sample_graph();
    let messages = [
        g.add_node(GraphNode::new("a", NodeKind::Note, "x")).unwrap_err().message(),
        g.remove_node(&NodeId("z".into())).unwrap_err().message(),
        GraphError::CycleDetected.message(),
    ];
    assert!(messages[0].contains("a"));
    assert!(messages[1].contains("z"));
    assert!(!messages[2].is_empty());
    let mut store = GraphStore::new();
    store.create(Graph::new("g")).unwrap();
    assert!(matches!(
        store.create(Graph::new("g")).unwrap_err(),
        GraphError::DuplicateGraph(_)
    ));
}

#[test]
fn store_keeps_its_indexes_in_step() {
    let mut store = GraphStore::new();
    store.create(tagged_graph()).unwrap();
    store.remove_node("g2", &NodeId("x".into())).unwrap();
    assert_eq!(store.by_tag("auth").len(), 1);
    assert!(store.by_type(&NodeKind::Process).is_empty());
    let mut z = GraphNode::new("z", NodeKind::Process, "z");
    z.tags.push("auth".into());
    store.add_node("g2", z).unwrap();
    assert_eq!(store.by_tag("auth").len(), 2);
    assert_eq!(store.nodes_of_graph("g2").len(), 2);
}

#[test]
fn labels_of_nodes_change() {
    let mut g = sample_graph();
    g.update_node(&NodeId("b".into()), "新").unwrap();
    assert_eq!(g.get_node(&NodeId("b".into())).unwrap().label, "新");
    let e = g.update_node(&NodeId("zz".into()), "新").unwrap_err();
    assert_eq!(e, GraphError::NotFound("node zz".to_string()));
}
