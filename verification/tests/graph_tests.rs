use proof_engine::node_graph::{Connection, ContextMenuItem, GraphTopology, PortKind};

#[test]
fn test_port_compatibility() {
    assert!(PortKind::Float.can_connect_to(PortKind::Float3));
    assert!(!PortKind::Texture2D.can_connect_to(PortKind::Float));
    assert!(PortKind::Any.can_connect_to(PortKind::Matrix4));
}

#[test]
fn test_graph_cycle_detection() {
    let mut g = GraphTopology::new();
    let n1 = g.add_node();
    let n2 = g.add_node();
    let _ = g.connect(n1, 0, n2, 0);
    assert!(g.would_create_cycle(n2, n1));
    assert!(!g.would_create_cycle(n1, n2));
}

#[test]
fn test_topo_sort() {
    let mut g = GraphTopology::new();
    let n1 = g.add_node();
    let n2 = g.add_node();
    let n3 = g.add_node();
    let _ = g.connect(n1, 0, n2, 0);
    let _ = g.connect(n2, 0, n3, 0);
    let order = g.topological_order();
    let pos1 = order.iter().position(|&x| x == n1).unwrap();
    let pos2 = order.iter().position(|&x| x == n2).unwrap();
    assert!(pos1 < pos2);
}

#[test]
fn port_kinds_connect_reflexively_and_promote() {
    assert!(PortKind::Texture2D.can_connect_to(PortKind::Texture2D));
    assert!(PortKind::Int.can_connect_to(PortKind::Float));
    assert!(!PortKind::Float.can_connect_to(PortKind::Int));
    assert!(PortKind::Color.can_connect_to(PortKind::Float4));
    assert!(PortKind::Flow.can_connect_to(PortKind::Any));
    assert_eq!(PortKind::Float3.label(), "vec3");
    assert_eq!(PortKind::Texture2D.label(), "Texture2D");
}

#[test]
fn graph_connect_errors() {
    let mut g = GraphTopology::new();
    let a = g.add_node();
    let b = g.add_node();
    assert!(g.connect(a, 0, 99, 0).is_err());
    assert!(g.connect(99, 0, a, 0).is_err());
    assert!(g.connect(a, 0, a, 0).is_err());
    let c1 = g.connect(a, 0, b, 0).unwrap();
    // a second feed into the same input replaces the first
    let c = g.add_node();
    let c2 = g.connect(c, 0, b, 0).unwrap();
    assert_ne!(c1, c2);
    assert_eq!(g.connections().len(), 1);
    assert_eq!(g.connections()[0], Connection::new(c2, c, 0, b, 0));
    // closing a cycle is refused, a parallel connection is not
    assert_eq!(g.connect(b, 1, c, 1), Err("connection would create cycle"));
    assert!(g.connect(c, 2, b, 2).is_ok());
    assert_eq!(g.connections().len(), 2);
    assert_eq!(g.connect(a, 0, 99, 0), Err("target node not found"));
    assert_eq!(g.connect(99, 0, a, 0), Err("source node not found"));
}

#[test]
fn graph_cycle_is_refused_and_graph_stays_acyclic() {
    let mut g = GraphTopology::new();
    let a = g.add_node();
    let b = g.add_node();
    let c = g.add_node();
    g.connect(a, 0, b, 0).unwrap();
    g.connect(b, 0, c, 0).unwrap();
    assert!(g.connect(c, 0, a, 0).is_err());
    let order = g.topological_order();
    assert_eq!(order, vec![a, b, c]);
}

#[test]
fn graph_remove_node_drops_its_connections() {
    let mut g = GraphTopology::new();
    let a = g.add_node();
    let b = g.add_node();
    let c = g.add_node();
    g.connect(a, 0, b, 0).unwrap();
    g.connect(b, 0, c, 0).unwrap();
    assert_eq!(g.upstream_nodes(b), vec![a]);
    assert_eq!(g.downstream_nodes(b), vec![c]);
    g.remove_node(b);
    assert!(!g.has_node(b));
    assert_eq!(g.node_ids(), &vec![a, c]);
    assert!(g.connections().is_empty());
    assert!(g.is_dirty());
    g.mark_clean();
    assert!(!g.is_dirty());
}

#[test]
fn graph_disconnect_removes_by_id() {
    let mut g = GraphTopology::new();
    let a = g.add_node();
    let b = g.add_node();
    let id = g.connect(a, 0, b, 0).unwrap();
    g.disconnect(id + 100);
    assert_eq!(g.connections().len(), 1);
    g.disconnect(id);
    assert!(g.connections().is_empty());
}

#[test]
fn context_menu_items() {
    let item = ContextMenuItem::action("Delete", "delete_node");
    assert_eq!(item.label, "Delete");
    assert_eq!(item.action, "delete_node");
    assert!(item.enabled);
    let sep = ContextMenuItem::separator();
    assert_eq!(sep.label, "---");
    assert!(!sep.enabled);
    let sub = ContextMenuItem::submenu("Add", vec![item, sep]);
    assert_eq!(sub.children.len(), 2);
    assert_eq!(sub.label, "Add");
}

#[test]
fn context_menu_depends_on_what_is_under_the_cursor() {
    let node_menu = proof_engine::node_graph::context_menu_items(true);
    let labels: Vec<&str> = node_menu.iter().map(|i| i.label.as_str()).collect();
    assert_eq!(labels, vec!["Delete", "Duplicate", "---", "Collapse", "Add Comment", "---", "Properties"]);
    assert_eq!(node_menu[0].action, "delete_selected");
    assert!(!node_menu[2].enabled);
    let canvas_menu = proof_engine::node_graph::context_menu_items(false);
    let labels: Vec<&str> = canvas_menu.iter().map(|i| i.label.as_str()).collect();
    assert_eq!(labels, vec!["Add Node", "---", "Select All", "Auto Layout", "---", "Paste"]);
    let adds: Vec<&str> = canvas_menu[0].children.iter().map(|i| i.action.as_str()).collect();
    assert_eq!(adds, vec!["add_add_node", "add_mul_node", "add_const_node"]);
    assert_eq!(canvas_menu[5].action, "paste");
}

#[test]
fn layers_follow_the_longest_chain() {
    let mut g = GraphTopology::new();
    let a = g.add_node();
    let b = g.add_node();
    let c = g.add_node();
    let d = g.add_node();
    let e = g.add_node();
    assert!(g.connect(a, 0, b, 0).is_ok());
    assert!(g.connect(b, 0, c, 0).is_ok());
    assert!(g.connect(a, 0, c, 1).is_ok());
    assert!(g.connect(d, 0, c, 2).is_ok());
    let ls = g.layers();
    assert_eq!(ls, vec![0, 1, 2, 0, 0]);
    let _ = e;
    assert_eq!(proof_engine::node_graph::rows_in_layers(&ls), vec![0, 0, 0, 1, 2]);
    assert!(GraphTopology::new().layers().is_empty());
}

#[test]
fn rows_count_earlier_entries_of_the_same_layer() {
    let rows = proof_engine::node_graph::rows_in_layers(&[2, 0, 2, 1, 0, 2]);
    assert_eq!(rows, vec![0, 0, 1, 0, 1, 2]);
}

#[test]
fn topological_order_follows_kahns_walk() {
    // no connections: every node is a source, and the work list is used
    // last in, first out
    let mut g = GraphTopology::new();
    let a = g.add_node();
    let b = g.add_node();
    let c = g.add_node();
    assert_eq!(g.topological_order(), vec![c, b, a]);
    // a diamond: a feeds b and c, both feed d
    let mut g = GraphTopology::new();
    let a = g.add_node();
    let b = g.add_node();
    let c = g.add_node();
    let d = g.add_node();
    g.connect(a, 0, b, 0).unwrap();
    g.connect(a, 1, c, 0).unwrap();
    g.connect(b, 0, d, 0).unwrap();
    g.connect(c, 0, d, 1).unwrap();
    assert_eq!(g.topological_order(), vec![a, c, b, d]);
}

#[test]
fn connect_would_succeed_matches_connect() {
    let mut g = GraphTopology::new();
    let a = g.add_node();
    let b = g.add_node();
    assert!(g.connect_would_succeed(a, b, 0));
    g.connect(a, 0, b, 0).unwrap();
    assert!(!g.connect_would_succeed(b, a, 0));
    assert!(g.connect(b, 0, a, 0).is_err());
    // rewiring b's own input port 0 from b itself drops a -> b first, but
    // b -> b is still a cycle
    assert!(!g.connect_would_succeed(b, b, 0));
    assert!(!g.connect_would_succeed(a, 99, 0));
    assert!(!g.connect_would_succeed(99, a, 0));
}
