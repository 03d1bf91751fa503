use relay::cycle::has_cycle;
use relay::layout::{GraphLayout, LayoutChoice, LayoutConfig};
use relay::types::{EdgeType, GraphEdge, GraphNode, NodeType, RelayGraph};

fn edge(source_id: u32, target_id: u32) -> GraphEdge {
    GraphEdge { source_id, target_id, edge_type: EdgeType::Call, on_error_path: false }
}

fn graph(ids: &[u32], edges: &[(u32, u32)]) -> RelayGraph {
    RelayGraph {
        nodes: ids.iter().map(|&id| GraphNode::new(id, "n", NodeType::Function)).collect(),
        edges: edges.iter().map(|&(s, t)| edge(s, t)).collect(),
    }
}

#[test]
fn test_dag_layout() {
    let layout = GraphLayout::new();
    let mut graph = RelayGraph {
        nodes: vec![
            GraphNode::new(0, "main", NodeType::Function),
            GraphNode::new(1, "foo", NodeType::Function),
            GraphNode::new(2, "bar", NodeType::Function),
        ],
        edges: vec![
            GraphEdge { source_id: 0, target_id: 1, edge_type: EdgeType::Call, on_error_path: false },
            GraphEdge { source_id: 0, target_id: 2, edge_type: EdgeType::Call, on_error_path: false },
        ],
    };

    layout.layout_sugiyama(&mut graph);

    let n0 = graph.find_node(0).unwrap();
    let n1 = graph.find_node(1).unwrap();
    assert!(n0.x < n1.x, "Source should be left of target");
}

#[test]
fn test_cycle_detection() {
    let dag = RelayGraph {
        nodes: vec![GraphNode::new(0, "a", NodeType::Function), GraphNode::new(1, "b", NodeType::Function)],
        edges: vec![GraphEdge { source_id: 0, target_id: 1, edge_type: EdgeType::Call, on_error_path: false }],
    };
    assert!(!has_cycle(&dag));

    let cyclic = RelayGraph {
        nodes: vec![GraphNode::new(0, "a", NodeType::Function), GraphNode::new(1, "b", NodeType::Function)],
        edges: vec![
            GraphEdge { source_id: 0, target_id: 1, edge_type: EdgeType::Call, on_error_path: false },
            GraphEdge { source_id: 1, target_id: 0, edge_type: EdgeType::Call, on_error_path: false },
        ],
    };
    assert!(cyclic.nodes.len() == 2);
    assert!(has_cycle(&cyclic));
}

#[test]
fn cycle_found_in_longer_loop_and_self_loop() {
    assert!(has_cycle(&graph(&[0, 1, 2, 3], &[(0, 1), (1, 2), (2, 3), (3, 1)])));
    assert!(has_cycle(&graph(&[5], &[(5, 5)])));
    assert!(!has_cycle(&graph(&[0, 1, 2, 3], &[(0, 1), (0, 2), (1, 3), (2, 3)])));
    assert!(!has_cycle(&graph(&[], &[])));
}

#[test]
fn cycle_ignores_insertion_order() {
    let a = graph(&[0, 1, 2], &[(0, 1), (1, 2), (2, 0)]);
    let b = graph(&[2, 0, 1], &[(2, 0), (0, 1), (1, 2)]);
    assert_eq!(has_cycle(&a), has_cycle(&b));
    assert!(has_cycle(&a));
    let c = graph(&[0, 1, 2], &[(1, 2), (0, 1)]);
    let d = graph(&[2, 1, 0], &[(0, 1), (1, 2)]);
    assert_eq!(has_cycle(&c), has_cycle(&d));
    assert!(!has_cycle(&c));
}

#[test]
fn cycle_through_missing_node_is_ignored() {
    // Edges whose ends are not nodes are skipped.
    assert!(!has_cycle(&graph(&[0], &[(0, 9), (9, 0)])));
}

#[test]
fn layered_edges_climb_layers() {
    let layout = GraphLayout::new();
    let mut g = graph(&[0, 1, 2, 3, 4], &[(0, 1), (1, 2), (0, 2), (3, 2), (2, 4)]);
    layout.layout_sugiyama(&mut g);
    for e in g.edges.clone() {
        let s = g.find_node(e.source_id).unwrap().x;
        let t = g.find_node(e.target_id).unwrap().x;
        assert!(s < t);
    }
    // Longest path: 0 -> 1 -> 2 -> 4 puts node 4 in layer 3.
    assert_eq!(g.find_node(4).unwrap().x, 3 * 240);
    assert_eq!(g.find_node(3).unwrap().x, 0);
}

#[test]
fn scenario_single_error_node() {
    let layout = GraphLayout::new();
    let mut g = graph(&[0], &[]);
    assert_eq!(layout.auto_layout(&mut g), LayoutChoice::Layered);
    assert_eq!(g.nodes[0].x, 0);
    // One node in its layer: y = -(140 / 2).
    assert_eq!(g.nodes[0].y, -70);
}

#[test]
fn scenario_diamond_source() {
    let layout = GraphLayout::new();
    let mut g = graph(&[0, 1, 2], &[(0, 1), (0, 2)]);
    layout.layout_sugiyama(&mut g);
    let a = g.find_node(0).unwrap();
    let b = g.find_node(1).unwrap();
    let c = g.find_node(2).unwrap();
    assert_eq!(a.x, 0);
    assert_eq!(b.x, 240);
    assert_eq!(c.x, 240);
    // Two nodes stacked with step 100 + 40 around 0: -140 and 0.
    assert_eq!(b.y, -140);
    assert_eq!(c.y, 0);
    assert_eq!(a.y, -70);
}

#[test]
fn scenario_two_cycle_goes_force_directed() {
    let layout = GraphLayout::new();
    let mut g = graph(&[0, 1], &[(0, 1), (1, 0)]);
    assert!(has_cycle(&g));
    assert_eq!(layout.auto_layout(&mut g), LayoutChoice::ForceDirected);
    assert_eq!(g.nodes[0].x, 0);
    assert_eq!(g.nodes[1].x, 0);
}

#[test]
fn empty_graph_is_left_alone() {
    let layout = GraphLayout::new();
    let mut g = graph(&[], &[]);
    assert_eq!(layout.auto_layout(&mut g), LayoutChoice::Unchanged);
    layout.layout_sugiyama(&mut g);
    assert!(g.nodes.is_empty());
}

#[test]
fn barycenter_reorders_layer() {
    // Layer 0: 0, 1; layer 1: 2, 3 with 2 under 1 and 3 under 0.
    let layout = GraphLayout::new();
    let mut g = graph(&[0, 1, 2, 3], &[(1, 2), (0, 3)]);
    layout.layout_sugiyama(&mut g);
    let y2 = g.find_node(2).unwrap().y;
    let y3 = g.find_node(3).unwrap().y;
    let y0 = g.find_node(0).unwrap().y;
    let y1 = g.find_node(1).unwrap().y;
    // 3 follows 0 and 2 follows 1: no crossing.
    assert_eq!(y0 < y1, y3 < y2);
}

#[test]
fn custom_config_sets_spacing() {
    let config = LayoutConfig { node_w: 10, node_h: 4, gap_x: 5, gap_y: 2 };
    let layout = GraphLayout::with_config(config);
    let mut g = graph(&[7, 8, 9], &[(7, 8), (7, 9)]);
    layout.layout_sugiyama(&mut g);
    assert_eq!(g.find_node(8).unwrap().x, 15);
    assert_eq!(g.find_node(8).unwrap().y, -6);
    assert_eq!(g.find_node(9).unwrap().y, 0);
    assert_eq!(g.find_node(7).unwrap().y, -3);
}

#[test]
fn layout_keeps_everything_but_position() {
    let layout = GraphLayout::new();
    let mut g = graph(&[3, 4], &[(3, 4)]);
    g.nodes[1].expanded = true;
    g.nodes[1].width = 640;
    layout.layout_sugiyama(&mut g);
    assert_eq!(g.nodes[1].id, 4);
    assert!(g.nodes[1].expanded);
    assert_eq!(g.nodes[1].width, 640);
    assert_eq!(g.edges.len(), 1);
}

#[test]
fn find_node_mut_changes_one_node() {
    let mut g = graph(&[4, 8], &[(4, 8)]);
    match g.find_node_mut(8) {
        Some(n) => {
            n.expanded = true;
            n.height = 420;
        }
        None => panic!("node 8 is present"),
    }
    assert!(g.find_node_mut(5).is_none());
    assert!(g.nodes[1].expanded);
    assert_eq!(g.nodes[1].height, 420);
    assert!(!g.nodes[0].expanded);
    assert!(g.find_node(5).is_none());
}
