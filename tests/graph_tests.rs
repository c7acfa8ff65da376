use graphz::edge::{Edge, EdgeDataError, EdgeRecordBatch};
use graphz::graph::{Graph, GraphError};
use graphz::node::{Node, NodeDataError, NodeRecordBatch};
use graphz::table::{ColumnData, DataType, Field, RecordBatch, TableError};
use graphz::types::{NodeId, Scalar};
use graphz::{a_search, breath_first_search, depth_first_search, dijkstra_search};

fn w(x: f64) -> Scalar {
    Scalar { bits: x.to_bits() }
}

fn edge(s: NodeId, t: NodeId) -> Edge {
    Edge::builder().source_id(s).target_id(t).build().unwrap()
}

fn wedge(s: NodeId, t: NodeId, x: f64) -> Edge {
    Edge::builder().source_id(s).target_id(t).weight(w(x)).build().unwrap()
}

fn weighted_chain() -> Graph {
    let edges = vec![
        wedge(1, 2, 1.0),
        wedge(2, 3, 2.0),
        wedge(3, 4, 3.0),
        wedge(4, 5, 4.0),
        wedge(5, 6, 5.0),
    ];
    Graph::builder().edges(edges).build().unwrap()
}

fn plain_chain(k: NodeId) -> Graph {
    let edges: Vec<Edge> = (1..=k).map(|i| edge(i, i + 1)).collect();
    Graph::builder().edges(edges).build().unwrap()
}

#[test]
fn test_a_search() {
    let graph = weighted_chain();
    let path = a_search(&graph, 1, 4);
    assert_eq!(path, Some(vec![1, 2, 3, 4]));
}

#[test]
fn test_a_search_no_path() {
    let edges = vec![wedge(1, 2, 1.0), wedge(2, 3, 2.0), wedge(3, 4, 3.0)];
    let graph = Graph::builder().edges(edges).build().unwrap();
    let path = a_search(&graph, 1, 5);
    assert_eq!(path, None);
}

#[test]
fn breath_first_search_test_bfs() {
    let graph = plain_chain(5);
    let path = breath_first_search(&graph, 1, 3);
    assert_eq!(path, Some(vec![1, 2, 3]));
}

#[test]
fn depth_first_search_test_bfs() {
    let graph = plain_chain(5);
    let path = depth_first_search(&graph, 1, 3);
    assert_eq!(path, Some(vec![1, 2, 3]));
}

#[test]
fn test_dijkstra_search() {
    let graph = weighted_chain();
    let path = dijkstra_search(&graph, 1, 4);
    assert_eq!(path, Some(vec![1, 2, 3, 4]));
}

#[test]
fn test_no_path() {
    let edges = vec![wedge(1, 2, 1.0), wedge(2, 3, 2.0), wedge(3, 4, 3.0)];
    let graph = Graph::builder().edges(edges).build().unwrap();
    let path = dijkstra_search(&graph, 1, 5);
    assert_eq!(path, None);
}

#[test]
fn test_graph_with_weight() {
    let graph = weighted_chain();
    assert_eq!(graph.num_nodes(), 6);
    let num_edges = graph.num_edges();
    assert_eq!(num_edges, 5);
    for idx in 0..num_edges {
        assert_eq!(graph.source_id(idx).unwrap(), (idx + 1) as NodeId);
    }
    for idx in 0..num_edges {
        assert_eq!(graph.target_id(idx).unwrap(), (idx + 2) as NodeId);
    }
    for idx in 0..num_edges {
        assert_eq!(graph.weight(idx).unwrap(), Some(w((idx + 1) as f64)));
    }
}

#[test]
fn test_graph() {
    let graph = plain_chain(5);
    assert_eq!(graph.num_nodes(), 6);
    let num_edges = graph.num_edges();
    assert_eq!(num_edges, 5);
    for idx in 0..num_edges {
        assert_eq!(graph.source_id(idx).unwrap(), (idx + 1) as NodeId);
    }
    for idx in 0..num_edges {
        assert_eq!(graph.target_id(idx).unwrap(), (idx + 2) as NodeId);
    }
}

fn complete_edges() -> Vec<Edge> {
    vec![
        edge(0, 1),
        edge(0, 2),
        edge(0, 3),
        edge(0, 4),
        edge(1, 2),
        edge(1, 3),
        edge(1, 4),
        edge(2, 3),
        edge(2, 4),
        edge(3, 4),
    ]
}

#[test]
fn test_is_complete() {
    let graph = Graph::builder().edges(complete_edges()).build().unwrap();
    assert_eq!(graph.num_nodes(), 5);
    assert!(graph.is_complete());
}

#[test]
fn test_is_connected() {
    let edges = vec![edge(0, 1), edge(1, 2), edge(2, 3), edge(3, 4), edge(4, 5)];
    let graph = Graph::builder().edges(edges).build().unwrap();
    assert!(graph.is_connected());
}

#[test]
fn test_is_acyclic() {
    let edges = vec![edge(1, 2), edge(2, 3), edge(3, 4), edge(4, 5)];
    let graph = Graph::builder().edges(edges).build().unwrap();
    assert!(graph.is_acyclic());
    let edges_with_cycle = vec![edge(1, 2), edge(2, 3), edge(3, 4), edge(4, 5), edge(5, 1)];
    let graph_with_cycle = Graph::builder().edges(edges_with_cycle).build().unwrap();
    assert!(!graph_with_cycle.is_acyclic());
}

#[test]
fn chain_every_search_returns_the_chain() {
    let k: NodeId = 6;
    let graph = plain_chain(k);
    for j in 1..=k {
        let expected: Vec<NodeId> = (1..=j).collect();
        assert_eq!(breath_first_search(&graph, 1, j), Some(expected.clone()));
        assert_eq!(depth_first_search(&graph, 1, j), Some(expected.clone()));
        assert_eq!(dijkstra_search(&graph, 1, j), Some(expected.clone()));
        assert_eq!(a_search(&graph, 1, j), Some(expected));
    }
}

#[test]
fn unreachable_end_gives_no_path_everywhere() {
    let edges = vec![edge(1, 2), edge(3, 4), edge(4, 3)];
    let graph = Graph::builder().edges(edges).build().unwrap();
    assert_eq!(breath_first_search(&graph, 1, 4), None);
    assert_eq!(depth_first_search(&graph, 1, 4), None);
    assert_eq!(dijkstra_search(&graph, 1, 4), None);
    assert_eq!(a_search(&graph, 1, 4), None);
    assert_eq!(breath_first_search(&graph, 2, 1), None);
}

#[test]
fn start_equal_to_end_is_a_one_node_path() {
    let graph = plain_chain(2);
    assert_eq!(breath_first_search(&graph, 9, 9), Some(vec![9]));
    assert_eq!(depth_first_search(&graph, 2, 2), Some(vec![2]));
    assert_eq!(dijkstra_search(&graph, 3, 3), Some(vec![3]));
    assert_eq!(a_search(&graph, 1, 1), Some(vec![1]));
}

#[test]
fn dijkstra_unweighted_missing_node() {
    let edges = vec![edge(1, 2), edge(2, 3), edge(3, 4)];
    let graph = Graph::builder().edges(edges).build().unwrap();
    assert_eq!(dijkstra_search(&graph, 1, 5), None);
    assert_eq!(dijkstra_search(&graph, 1, 4), Some(vec![1, 2, 3, 4]));
}

#[test]
fn cost_searches_prefer_the_cheaper_route() {
    let edges = vec![wedge(1, 2, 10.0), wedge(1, 3, 1.0), wedge(3, 2, 1.0)];
    let graph = Graph::builder().edges(edges).build().unwrap();
    assert_eq!(dijkstra_search(&graph, 1, 2), Some(vec![1, 3, 2]));
    assert_eq!(a_search(&graph, 1, 2), Some(vec![1, 3, 2]));
    assert_eq!(breath_first_search(&graph, 1, 2), Some(vec![1, 2]));
}

#[test]
fn bfs_finds_fewest_edges() {
    let edges = vec![edge(1, 2), edge(2, 3), edge(3, 4), edge(1, 4)];
    let graph = Graph::builder().edges(edges).build().unwrap();
    assert_eq!(breath_first_search(&graph, 1, 4), Some(vec![1, 4]));
    assert_eq!(depth_first_search(&graph, 1, 4), Some(vec![1, 4]));
}

#[test]
fn dfs_follows_last_pushed_first() {
    let edges = vec![edge(1, 2), edge(1, 3), edge(2, 4), edge(3, 4)];
    let graph = Graph::builder().edges(edges).build().unwrap();
    assert_eq!(depth_first_search(&graph, 1, 4), Some(vec![1, 3, 4]));
    assert_eq!(breath_first_search(&graph, 1, 4), Some(vec![1, 2, 4]));
}

#[test]
fn complete_graph_missing_an_edge_is_not_complete() {
    let mut edges = complete_edges();
    edges.remove(3);
    let graph = Graph::builder().edges(edges).build().unwrap();
    assert!(!graph.is_complete());
}

#[test]
fn single_node_graph_is_not_complete() {
    let node = Node::builder().id(1).build().unwrap();
    let graph = Graph::builder().edges(vec![]).nodes(vec![node]).build().unwrap();
    assert_eq!(graph.num_nodes(), 1);
    assert_eq!(graph.num_edges(), 0);
    assert!(!graph.is_complete());
}

#[test]
fn connected_six_node_path() {
    let graph = plain_chain(5);
    assert_eq!(graph.num_nodes(), 6);
    assert!(graph.is_connected());
}

#[test]
fn connectivity_looks_at_least_and_greatest_only() {
    let nodes: Vec<Node> = [1, 2, 3].iter().map(|&i| Node::builder().id(i).build().unwrap()).collect();
    let graph = Graph::builder().edges(vec![edge(1, 3)]).nodes(nodes).build().unwrap();
    assert!(graph.is_connected());
    let graph = Graph::builder().edges(vec![edge(3, 1)]).build().unwrap();
    assert!(!graph.is_connected());
    let empty = Graph::builder().edges(vec![]).build().unwrap();
    assert!(!empty.is_connected());
}

#[test]
fn self_loop_is_a_cycle() {
    let graph = Graph::builder().edges(vec![edge(1, 2), edge(2, 2)]).build().unwrap();
    assert!(!graph.is_acyclic());
}

#[test]
fn derived_nodes_in_first_seen_order() {
    let graph = Graph::builder().edges(vec![edge(3, 1), edge(1, 2), edge(2, 3)]).build().unwrap();
    let ids: Vec<NodeId> = (0..graph.num_nodes()).map(|i| graph.node_id(i).unwrap()).collect();
    assert_eq!(ids, vec![3, 1, 2]);
    assert!(matches!(graph.node_id(3), Err(NodeDataError::IndexOutOfBounds)));
}

#[test]
fn builder_without_edges_is_empty_graph() {
    assert!(matches!(Graph::builder().build(), Err(GraphError::EmptyGraph { .. })));
    assert!(Edge::builder().source_id(1).build().is_err());
    assert!(Node::builder().build().is_err());
}

#[test]
fn node_rows_round_trip() {
    let nodes = vec![
        Node::builder().id(7).weight(w(1.5)).position(w(-2.25)).build().unwrap(),
        Node::builder().id(9).build().unwrap(),
    ];
    let table = NodeRecordBatch::from_nodes(&nodes);
    assert_eq!(table.num_nodes(), 2);
    assert_eq!(table.node(0).unwrap(), nodes[0]);
    assert_eq!(table.node_id(1).unwrap(), 9);
    assert_eq!(table.weight(1).unwrap(), Some(w(0.0)));
    assert_eq!(table.position(1).unwrap(), Some(w(0.0)));
    let back = table.nodes().unwrap();
    assert_eq!(back[1], Node { id: 9, weight: Some(w(0.0)), position: Some(w(0.0)) });
    assert!(matches!(table.node(2), Err(NodeDataError::IndexOutOfBounds)));
}

#[test]
fn edge_rows_round_trip() {
    let edges = vec![wedge(1, 2, 0.75), edge(2, 3)];
    let table = EdgeRecordBatch::from_edges(&edges);
    assert_eq!(table.num_edges(), 2);
    assert_eq!(table.edge(0).unwrap(), edges[0]);
    assert_eq!(table.edge(1).unwrap(), Edge { source_id: 2, target_id: 3, weight: Some(w(0.0)) });
    assert_eq!(table.edges().unwrap().len(), 2);
    assert_eq!(table.neighbors(1).unwrap(), vec![2]);
    assert_eq!(table.neighbors_with_weights(2).unwrap(), vec![(3, w(0.0))]);
    assert!(matches!(table.edge(2), Err(EdgeDataError::IndexOutOfBounds)));
}

#[test]
fn add_edges_appends_and_keeps_rows() {
    let mut table = EdgeRecordBatch::from_edges(&vec![wedge(1, 2, 2.0), edge(2, 3)]);
    table.add_edges(&vec![wedge(3, 4, 5.0), edge(4, 1)]).unwrap();
    assert_eq!(table.num_edges(), 4);
    assert_eq!(table.edge(0).unwrap(), wedge(1, 2, 2.0));
    assert_eq!(table.edge(1).unwrap(), Edge { source_id: 2, target_id: 3, weight: Some(w(0.0)) });
    assert_eq!(table.edge(2).unwrap(), wedge(3, 4, 5.0));
    assert_eq!(table.target_id(3).unwrap(), 1);
    assert_eq!(table.weight(3).unwrap(), Some(w(0.0)));
}

fn field(name: &str, data_type: DataType, nullable: bool) -> Field {
    Field::new(name, data_type, nullable)
}

#[test]
fn missing_and_mistyped_columns() {
    let fields = vec![field("source", DataType::UInt32, false), field("weight", DataType::UInt32, true)];
    let columns = vec![ColumnData::UInt32(vec![1, 2]), ColumnData::UInt32(vec![5, 6])];
    let batch = RecordBatch::try_new(fields, columns).unwrap();
    let mut table = EdgeRecordBatch::from_record_batch(batch);
    assert_eq!(table.source_id(1).unwrap(), 2);
    assert!(matches!(table.target_id(0), Err(EdgeDataError::ColumnNotFound)));
    match table.weight(0) {
        Err(EdgeDataError::ColumnTypeMismatch { data_type }) => assert_eq!(data_type, "UInt32"),
        _ => panic!("expected a type mismatch"),
    }
    assert!(table.neighbors(1).is_err());
    assert!(matches!(table.add_edges(&vec![edge(1, 2)]), Err(EdgeDataError::ColumnNotFound)));
    assert_eq!(table.num_edges(), 2);
}

#[test]
fn add_edges_fails_on_extra_column() {
    let fields = vec![
        field("source", DataType::UInt32, false),
        field("target", DataType::UInt32, false),
        field("weight", DataType::Float64, true),
        field("label", DataType::Other { name: "Utf8".to_string() }, true),
    ];
    let columns = vec![
        ColumnData::UInt32(vec![1]),
        ColumnData::UInt32(vec![2]),
        ColumnData::Float64(vec![None]),
        ColumnData::Other { data_type: "Utf8".to_string(), len: 1 },
    ];
    let batch = RecordBatch::try_new(fields, columns).unwrap();
    let mut table = EdgeRecordBatch::from_record_batch(batch);
    let r = table.add_edges(&vec![edge(2, 3)]);
    assert!(matches!(r, Err(EdgeDataError::FailedToAddEdges { source: TableError::ColumnCountMismatch })));
    assert_eq!(table.num_edges(), 1);
}

#[test]
fn table_construction_errors() {
    let f = || vec![field("node", DataType::UInt32, false)];
    assert_eq!(RecordBatch::try_new(f(), vec![]).err(), Some(TableError::NoColumns));
    assert_eq!(
        RecordBatch::try_new(f(), vec![ColumnData::Float64(vec![])]).err(),
        Some(TableError::TypeMismatch { index: 0 })
    );
    let two = vec![field("a", DataType::Float64, false), field("b", DataType::Float64, true)];
    assert_eq!(
        RecordBatch::try_new(two, vec![ColumnData::Float64(vec![None]), ColumnData::Float64(vec![])]).err(),
        Some(TableError::NullInNonNullable { index: 0 })
    );
    let two = vec![field("a", DataType::UInt32, false), field("b", DataType::UInt32, false)];
    assert_eq!(
        RecordBatch::try_new(two, vec![ColumnData::UInt32(vec![1]), ColumnData::UInt32(vec![])]).err(),
        Some(TableError::LengthMismatch { index: 1 })
    );
}

#[test]
fn schema_checks_on_graph_construction() {
    let nodes = NodeRecordBatch::from_nodes(&vec![Node::builder().id(1).build().unwrap()]);
    let edges = EdgeRecordBatch::from_edges(&vec![edge(1, 1)]);
    let bad_edges = EdgeRecordBatch::from_record_batch(
        RecordBatch::try_new(vec![field("source", DataType::UInt32, false)], vec![ColumnData::UInt32(vec![1])])
            .unwrap(),
    );
    let bad_nodes = NodeRecordBatch::from_record_batch(
        RecordBatch::try_new(vec![field("node", DataType::UInt32, true)], vec![ColumnData::UInt32(vec![1])])
            .unwrap(),
    );
    assert!(matches!(
        Graph::from_arrow_record_batches(bad_nodes, bad_edges),
        Err(GraphError::InvalidNodeSchema)
    ));
    let bad_edges = EdgeRecordBatch::from_record_batch(
        RecordBatch::try_new(vec![field("source", DataType::UInt32, false)], vec![ColumnData::UInt32(vec![1])])
            .unwrap(),
    );
    assert!(matches!(Graph::from_arrow_record_batches(nodes, bad_edges), Err(GraphError::InvalidEdgeSchema)));
    let nodes = NodeRecordBatch::from_nodes(&vec![Node::builder().id(1).build().unwrap()]);
    let graph = Graph::from_arrow_record_batches(nodes, edges).unwrap();
    assert_eq!(graph.neighbors(1).unwrap(), vec![1]);
    assert_eq!(graph.edge_record_batch().num_rows(), 1);
}

#[test]
fn weight_costs_truncate_and_saturate() {
    assert_eq!(w(3.0).cost(), 3);
    assert_eq!(w(2.7).cost(), 2);
    assert_eq!(w(0.5).cost(), 0);
    assert_eq!(w(-1.0).cost(), 0);
    assert_eq!(w(f64::NAN).cost(), 0);
    assert_eq!(w(1e20).cost(), u32::MAX);
    assert_eq!(w(f64::INFINITY).cost(), u32::MAX);
    assert_eq!(w(4294967295.0).cost(), u32::MAX);
    assert_eq!(w(4294967294.9).cost(), 4294967294);
    assert_eq!(Scalar::zero(), w(0.0));
}

#[test]
fn saturated_costs_still_find_paths() {
    let edges = vec![wedge(1, 2, 1e30), wedge(2, 3, 1e30)];
    let graph = Graph::builder().edges(edges).build().unwrap();
    assert_eq!(dijkstra_search(&graph, 1, 3), Some(vec![1, 2, 3]));
    assert_eq!(a_search(&graph, 1, 3), Some(vec![1, 2, 3]));
}

#[test]
fn schema_names_and_types() {
    let s = NodeRecordBatch::schema();
    assert_eq!(s[0].name, "node");
    assert_eq!(s[2].name, "position");
    let e = EdgeRecordBatch::schema();
    assert_eq!(e[1].name, "target");
    assert_eq!(e[2].data_type.name(), "Float64");
    assert!(e[2].nullable && !e[0].nullable);
}

#[test]
fn least_cost_route_over_fewest_edges() {
    let edges = vec![wedge(1, 2, 5.0), wedge(2, 3, 5.0), wedge(1, 3, 20.0)];
    let graph = Graph::builder().edges(edges).build().unwrap();
    assert_eq!(dijkstra_search(&graph, 1, 3), Some(vec![1, 2, 3]));
    assert_eq!(a_search(&graph, 1, 3), Some(vec![1, 2, 3]));
    assert_eq!(breath_first_search(&graph, 1, 3), Some(vec![1, 3]));
}

#[test]
fn fractional_weights_are_truncated() {
    let edges = vec![wedge(1, 2, 0.9), wedge(2, 3, 0.9), wedge(1, 3, 1.5)];
    let graph = Graph::builder().edges(edges).build().unwrap();
    assert_eq!(dijkstra_search(&graph, 1, 3), Some(vec![1, 2, 3]));
}

#[test]
fn acyclic_check_reports_meeting_walks() {
    let edges = vec![edge(1, 2), edge(1, 3), edge(2, 4), edge(3, 4)];
    let graph = Graph::builder().edges(edges).build().unwrap();
    assert!(!graph.is_acyclic());
    let forest = Graph::builder().edges(vec![edge(1, 2), edge(3, 2)]).build().unwrap();
    assert!(forest.is_acyclic());
}

#[test]
fn dfs_explores_last_pushed_neighbor_first() {
    let edges = vec![edge(1, 4), edge(1, 2), edge(2, 3), edge(3, 4)];
    let graph = Graph::builder().edges(edges).build().unwrap();
    assert_eq!(depth_first_search(&graph, 1, 4), Some(vec![1, 2, 3, 4]));
}

#[test]
fn bfs_takes_first_queued_shortest_path() {
    let edges = vec![edge(1, 2), edge(1, 3), edge(2, 4), edge(3, 4)];
    let graph = Graph::builder().edges(edges).build().unwrap();
    assert_eq!(breath_first_search(&graph, 1, 4), Some(vec![1, 2, 4]));
}

#[test]
fn out_tree_is_acyclic() {
    let edges = vec![edge(1, 2), edge(1, 3), edge(3, 4), edge(3, 5), edge(6, 7)];
    let graph = Graph::builder().edges(edges).build().unwrap();
    assert!(graph.is_acyclic());
}

#[test]
fn add_edges_reports_missing_or_mistyped_columns() {
    let fields = vec![
        Field::new("source", DataType::UInt32, false),
        Field::new("target", DataType::Float64, false),
        Field::new("weight", DataType::Float64, true),
    ];
    let columns = vec![
        ColumnData::UInt32(vec![1]),
        ColumnData::Float64(vec![Some(w(2.0))]),
        ColumnData::Float64(vec![None]),
    ];
    let mut table = EdgeRecordBatch::from_record_batch(RecordBatch::try_new(fields, columns).unwrap());
    match table.add_edges(&vec![edge(2, 3)]) {
        Err(EdgeDataError::ColumnTypeMismatch { data_type }) => assert_eq!(data_type, "Float64"),
        _ => panic!("expected a type mismatch"),
    }
    assert_eq!(table.num_edges(), 1);
}
