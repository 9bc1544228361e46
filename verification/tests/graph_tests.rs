use refgraph::assembler::GraphAssembler;
use refgraph::codec::Identifier;
use refgraph::pipeline::{build_graph, to_edge_table, RecordData};

fn record(name: &str, content: &str) -> RecordData {
    RecordData { name: name.to_string(), content: content.as_bytes().to_vec() }
}

#[test]
fn ensure_node_is_idempotent() {
    let mut g = GraphAssembler::new();
    let a = Identifier { value: 5 };
    let first = g.ensure_node(a);
    let second = g.ensure_node(a);
    assert_eq!(first, second);
    assert_eq!(g.node_count(), 1);
}

#[test]
fn add_record_creates_destinations_on_demand() {
    let mut g = GraphAssembler::new();
    let src = Identifier { value: 1 };
    let dsts = vec![Identifier { value: 2 }, Identifier { value: 3 }];
    g.add_record(src, &dsts);
    assert_eq!(g.node_count(), 3);
    assert_eq!(g.edge_count(), 2);
    let evs = g.edge_value_list();
    assert_eq!(evs, vec![(1, 2), (1, 3)]);
}

#[test]
fn parallel_edges_from_separate_records_are_kept() {
    let mut g = GraphAssembler::new();
    let src = Identifier { value: 1 };
    let dsts = vec![Identifier { value: 2 }];
    g.add_record(src, &dsts);
    g.add_record(src, &dsts);
    assert_eq!(g.node_count(), 2);
    assert_eq!(g.edge_count(), 2);
}

#[test]
fn independent_assemblers_do_not_share_state() {
    let mut g1 = GraphAssembler::new();
    let mut g2 = GraphAssembler::new();
    g1.add_record(Identifier { value: 1 }, &vec![Identifier { value: 2 }]);
    g2.add_record(Identifier { value: 3 }, &vec![]);
    assert_eq!(g1.node_count(), 2);
    assert_eq!(g2.node_count(), 1);
    assert_eq!(g2.edge_count(), 0);
}

#[test]
fn graph_matches_streamed_table() {
    let records = vec![
        record("A000001.seq", "refs A000002 and A000001 and A999999"),
        record("A000002.seq", "back to A000001"),
    ];
    let g = build_graph(&records);
    let graph_rows = to_edge_table(&g);
    let streamed = refgraph::pipeline::edge_table(&records);
    assert_eq!(graph_rows.len(), streamed.len());
    for row in &graph_rows {
        assert!(streamed.contains(row));
    }
}

#[test]
fn graph_nodes_are_the_decodable_names() {
    let records = vec![
        record("A000001.seq", "A000002"),
        record("A000002.seq", ""),
        record("junk.txt", "A000001"),
    ];
    let g = build_graph(&records);
    assert_eq!(g.node_count(), 2);
    let values = g.node_values();
    assert!(values.contains(&1));
    assert!(values.contains(&2));
}

#[test]
fn graph_description_renders_nodes_and_edges() {
    let records = vec![record("A000001.seq", "A000002"), record("A000002.seq", "")];
    let g = build_graph(&records);
    let dot = g.to_graph_description();
    assert!(dot.contains("digraph"));
    assert!(dot.contains("->"));
    assert!(dot.contains("1"));
    assert!(dot.contains("2"));
    // An empty graph renders differently: the rendering reflects its input.
    let empty = GraphAssembler::new();
    let empty_dot = empty.to_graph_description();
    assert!(!empty_dot.contains("->"));
    assert_ne!(dot, empty_dot);
}
