use c_flowchart::graph::{ActivePath, FlowEdge, FlowNode, GraphBuilder};

fn path(node_id: &str, label: &str) -> ActivePath {
    ActivePath { node_id: node_id.to_string(), label: label.to_string() }
}

fn edge(id: &str, source: &str, target: &str, label: &str) -> FlowEdge {
    FlowEdge {
        id: id.to_string(),
        source: source.to_string(),
        target: target.to_string(),
        label: label.to_string(),
    }
}

#[test]
fn a_new_builder_is_empty() {
    let b = GraphBuilder::new();
    assert!(b.nodes.is_empty());
    assert!(b.edges.is_empty());
    assert!(b.extra_edges.is_empty());
    assert_eq!(b.id_counter, 0);
}

#[test]
fn ids_count_up() {
    let mut b = GraphBuilder::new();
    assert_eq!(b.next_id(), "node-0");
    assert_eq!(b.next_id(), "node-1");
    b.id_counter = 41;
    assert_eq!(b.next_id(), "node-41");
    assert_eq!(b.id_counter, 42);
    assert!(b.nodes.is_empty());
}

#[test]
fn no_id_is_handed_out_twice() {
    let mut b = GraphBuilder::new();
    let mut ids = vec![b.next_id()];
    ids.push(b.add_node("a".to_string(), "decision"));
    b.connect_paths(&[path("start", "")], "node-1");
    b.add_extra_edge("node-1", "node-0", "");
    b.jump_paths(&[path("node-1", "")], "node-0");
    ids.push(b.next_id());
    ids.push(b.add_node("".to_string(), "connector"));
    for i in 0..ids.len() {
        assert!(ids[i] != "start" && ids[i] != "end");
        for j in 0..i {
            assert_ne!(ids[i], ids[j]);
        }
    }
}

#[test]
fn conditions_lose_the_brackets_around_them() {
    let b = GraphBuilder::new();
    assert_eq!(b.clean_condition("(x > 0)"), "x > 0");
    assert_eq!(b.clean_condition(" ( (x) ) "), "x");
    assert_eq!(b.clean_condition("(f(x))"), "f(x");
    assert_eq!(b.clean_condition("\t(x)"), "\t(x");
    assert_eq!(b.clean_condition("()"), "");
}

#[test]
fn nodes_are_stored_under_the_next_id() {
    let mut b = GraphBuilder::new();
    assert_eq!(b.add_node("a".to_string(), "decision"), "node-0");
    assert_eq!(b.add_node("".to_string(), "connector"), "node-1");
    assert_eq!(
        b.nodes,
        vec![
            FlowNode {
                id: "node-0".to_string(),
                label: "a".to_string(),
                kind: "decision".to_string(),
            },
            FlowNode {
                id: "node-1".to_string(),
                label: "".to_string(),
                kind: "connector".to_string(),
            },
        ]
    );
    assert_eq!(b.id_counter, 2);
}

#[test]
fn paths_are_connected_in_order() {
    let mut b = GraphBuilder::new();
    b.connect_paths(&[], "node-0");
    assert!(b.edges.is_empty());
    b.connect_paths(&[path("start", ""), path("node-3", "Yes")], "node-7");
    assert_eq!(
        b.edges,
        vec![
            edge("e-start-node-7", "start", "node-7", ""),
            edge("e-node-3-node-7", "node-3", "node-7", "Yes"),
        ]
    );
    assert!(b.extra_edges.is_empty());
}

#[test]
fn jumps_are_numbered() {
    let mut b = GraphBuilder::new();
    b.add_extra_edge("node-1", "node-0", "");
    b.add_extra_edge("node-1", "node-0", "No");
    assert_eq!(
        b.extra_edges,
        vec![
            edge("x-node-1-node-0-0", "node-1", "node-0", ""),
            edge("x-node-1-node-0-1", "node-1", "node-0", "No"),
        ]
    );
    b.jump_paths(&[path("node-4", "Yes"), path("node-5", "")], "node-2");
    assert_eq!(b.extra_edges[2], edge("x-node-4-node-2-2", "node-4", "node-2", "Yes"));
    assert_eq!(b.extra_edges[3], edge("x-node-5-node-2-3", "node-5", "node-2", ""));
    assert!(b.edges.is_empty());
    assert!(b.nodes.is_empty());
}
