use relay::builder::{is_shown, DiscoveredRefs, GraphBuilder, SymbolRef};
use relay::cycle::has_cycle;
use relay::layout::{GraphLayout, LayoutChoice};
use relay::types::{EdgeType, ErrorInfo, NodeType};

fn error(file: &str, line: u32, column: u32, message: &str) -> ErrorInfo {
    ErrorInfo {
        file_path: file.to_string(),
        line,
        column,
        error_code: String::new(),
        message: message.to_string(),
    }
}

fn symbol(file: &str, line: u32, name: &str, edge_type: EdgeType) -> SymbolRef {
    SymbolRef {
        file: file.to_string(),
        line,
        column: 1,
        name: name.to_string(),
        node_type: NodeType::Function,
        edge_type,
    }
}

#[test]
fn scenario_single_error_no_references() {
    let mut b = GraphBuilder::new();
    let errors = vec![error("src/main.cpp", 42, 10, "use of undeclared identifier 'foo'")];
    let mut g = b.build_graph(&errors, &vec![]);
    assert_eq!(g.nodes.len(), 1);
    assert_eq!(g.edges.len(), 0);
    assert_eq!(g.nodes[0].file_path, "src/main.cpp");
    assert_eq!(g.nodes[0].line, 42);
    assert_eq!(g.nodes[0].column, 10);
    assert_eq!(g.nodes[0].symbol_name, "use of undeclared identifier 'foo'");
    assert_eq!(g.nodes[0].node_type, NodeType::ErrorSource);
    assert!(g.nodes[0].is_error);
    assert_eq!(GraphLayout::new().auto_layout(&mut g), LayoutChoice::Layered);
    assert_eq!(g.nodes[0].x, 0);
}

#[test]
fn scenario_direct_call_reference() {
    let mut b = GraphBuilder::new();
    let errors = vec![error("src/main.cpp", 42, 10, "bad call")];
    let refs = vec![DiscoveredRefs { direct: Some(symbol("src/util.cpp", 7, "helper", EdgeType::Call)), scope: vec![] }];
    let mut g = b.build_graph(&errors, &refs);
    assert_eq!(g.nodes.len(), 2);
    assert_eq!(g.edges.len(), 1);
    assert_eq!(g.edges[0].edge_type, EdgeType::Call);
    assert!(g.edges[0].on_error_path);
    assert_eq!(g.edges[0].source_id, g.nodes[0].id);
    assert_eq!(g.edges[0].target_id, g.nodes[1].id);
    assert!(!g.nodes[1].is_error);
    assert_eq!(g.nodes[1].symbol_name, "helper");
    GraphLayout::new().layout_sugiyama(&mut g);
    assert_eq!(g.nodes[0].x, 0);
    assert_eq!(g.nodes[1].x, 240);
}

#[test]
fn ids_come_from_one_counter_with_offset() {
    let mut b = GraphBuilder::new();
    let errors = vec![error("a.cpp", 1, 1, "e1"), error("b.cpp", 2, 1, "e2")];
    let refs = vec![
        DiscoveredRefs { direct: None, scope: vec![symbol("c.cpp", 3, "x", EdgeType::Reference)] },
        DiscoveredRefs { direct: None, scope: vec![symbol("d.cpp", 4, "y", EdgeType::Reference)] },
    ];
    let g = b.build_graph(&errors, &refs);
    let ids: Vec<u32> = g.nodes.iter().map(|n| n.id).collect();
    assert_eq!(ids, vec![0, 1, 1002, 1003]);
    assert_eq!(b.next_id, 1004);
    assert!(!g.edges[0].on_error_path);
}

#[test]
fn custom_offset() {
    let mut b = GraphBuilder::with_id_offset(5);
    let errors = vec![error("a.cpp", 1, 1, "e1")];
    let refs = vec![DiscoveredRefs { direct: Some(symbol("c.cpp", 3, "x", EdgeType::Call)), scope: vec![] }];
    let g = b.build_graph(&errors, &refs);
    assert_eq!(g.nodes[1].id, 6);
}

#[test]
fn same_location_is_one_node() {
    let mut b = GraphBuilder::new();
    let errors = vec![error("a.cpp", 10, 1, "e1")];
    let refs = vec![DiscoveredRefs {
        direct: Some(symbol("lib.h", 5, "f", EdgeType::Call)),
        scope: vec![
            symbol("lib.h", 5, "f", EdgeType::Reference),
            symbol("lib.h", 5, "g", EdgeType::Reference),
            symbol("lib.h", 6, "h", EdgeType::Include),
        ],
    }];
    let g = b.build_graph(&errors, &refs);
    assert_eq!(g.nodes.len(), 3);
    assert_eq!(g.edges.len(), 2);
    assert!(g.edges[0].on_error_path);
    assert_eq!(g.edges[1].edge_type, EdgeType::Include);
    for i in 0..g.nodes.len() {
        for j in 0..g.nodes.len() {
            if i != j {
                assert!(g.nodes[i].file_path != g.nodes[j].file_path || g.nodes[i].line != g.nodes[j].line);
            }
        }
    }
}

#[test]
fn reference_to_other_error_reuses_its_node() {
    let mut b = GraphBuilder::new();
    let errors = vec![error("a.cpp", 10, 1, "e1"), error("b.cpp", 20, 1, "e2")];
    let refs = vec![
        DiscoveredRefs { direct: None, scope: vec![symbol("b.cpp", 20, "g", EdgeType::Call)] },
        DiscoveredRefs { direct: None, scope: vec![symbol("a.cpp", 10, "f", EdgeType::Call)] },
    ];
    let g = b.build_graph(&errors, &refs);
    assert_eq!(g.nodes.len(), 2);
    // 0 -> 1 exists, so 1 -> 0 is not added.
    assert_eq!(g.edges.len(), 1);
    assert_eq!((g.edges[0].source_id, g.edges[0].target_id), (0, 1));
    assert!(!has_cycle(&g));
}

#[test]
fn unusable_references_are_dropped() {
    let mut b = GraphBuilder::new();
    let errors = vec![error("a.cpp", 10, 1, "e1")];
    let refs = vec![DiscoveredRefs {
        direct: Some(symbol("a.cpp", 10, "self", EdgeType::Reference)),
        scope: vec![symbol("x.cpp", 0, "noline", EdgeType::Reference), symbol("", 3, "nofile", EdgeType::Reference)],
    }];
    let g = b.build_graph(&errors, &refs);
    assert_eq!(g.nodes.len(), 1);
    assert_eq!(g.edges.len(), 0);
    assert_eq!(b.next_id, 1001);
}

#[test]
fn empty_batch_gives_empty_graph() {
    let mut b = GraphBuilder::new();
    let g = b.build_graph(&vec![], &vec![]);
    assert!(g.nodes.is_empty());
    assert!(g.edges.is_empty());
}

#[test]
fn no_duplicate_unordered_edges() {
    let mut b = GraphBuilder::new();
    let errors = vec![error("a.cpp", 1, 1, "e1"), error("b.cpp", 2, 1, "e2")];
    let refs = vec![
        DiscoveredRefs {
            direct: Some(symbol("b.cpp", 2, "x", EdgeType::Call)),
            scope: vec![symbol("b.cpp", 2, "x", EdgeType::Call), symbol("c.cpp", 3, "y", EdgeType::Call)],
        },
        DiscoveredRefs {
            direct: Some(symbol("a.cpp", 1, "z", EdgeType::Call)),
            scope: vec![symbol("c.cpp", 3, "y", EdgeType::Reference)],
        },
    ];
    let g = b.build_graph(&errors, &refs);
    assert_eq!(g.nodes.len(), 3);
    for i in 0..g.edges.len() {
        for j in (i + 1)..g.edges.len() {
            let (a, c) = (&g.edges[i], &g.edges[j]);
            assert!(
                !((a.source_id == c.source_id && a.target_id == c.target_id)
                    || (a.source_id == c.target_id && a.target_id == c.source_id))
            );
        }
    }
    assert_eq!(g.edges.len(), 3);
}

#[test]
fn edges_carry_relation_flag_and_origin() {
    let mut b = GraphBuilder::new();
    let errors = vec![error("a.cpp", 1, 1, "e1"), error("b.cpp", 2, 1, "e2")];
    let refs = vec![
        DiscoveredRefs { direct: None, scope: vec![symbol("base.h", 3, "Base", EdgeType::Inherit)] },
        DiscoveredRefs {
            direct: Some(symbol("inc.h", 1, "inc", EdgeType::Include)),
            scope: vec![symbol("f.cpp", 9, "f", EdgeType::Call)],
        },
    ];
    let g = b.build_graph(&errors, &refs);
    let summary: Vec<(u32, u32, EdgeType, bool)> =
        g.edges.iter().map(|e| (e.source_id, e.target_id, e.edge_type, e.on_error_path)).collect();
    assert_eq!(
        summary,
        vec![
            (0, 1002, EdgeType::Inherit, false),
            (1, 1003, EdgeType::Include, true),
            (1, 1004, EdgeType::Call, false),
        ]
    );
    assert_eq!(g.nodes[2].node_type, NodeType::Function);
    assert_eq!(g.nodes[2].column, 1);
    assert_eq!(g.nodes[2].symbol_name, "Base");
    assert_eq!(b.next_id, 1005);
}

#[test]
fn self_reference_in_scope_adds_nothing() {
    let mut b = GraphBuilder::new();
    let errors = vec![error("a.cpp", 10, 1, "e1")];
    let refs = vec![DiscoveredRefs {
        direct: Some(symbol("x.cpp", 2, "x", EdgeType::Call)),
        scope: vec![symbol("a.cpp", 10, "me", EdgeType::Call)],
    }];
    let g = b.build_graph(&errors, &refs);
    assert_eq!(g.nodes.len(), 2);
    assert_eq!(g.edges.len(), 1);
    for e in &g.edges {
        assert_ne!(e.source_id, e.target_id);
        assert_ne!(e.target_id, 0);
    }
}

#[test]
fn system_and_unnamed_references_are_not_shown() {
    assert!(is_shown(&symbol("src/a.cpp", 1, "f", EdgeType::Call)));
    assert!(!is_shown(&symbol("/usr/include/stdio.h", 1, "printf", EdgeType::Call)));
    assert!(!is_shown(&symbol("src/a.cpp", 1, "", EdgeType::Call)));
    assert!(is_shown(&symbol("/usr", 1, "f", EdgeType::Call)));
    assert!(is_shown(&symbol("/usrx/a.h", 1, "f", EdgeType::Call)));
}
