use graph_store::Graph;

fn f(x: f32) -> u32 {
    x.to_bits()
}

fn seven(vals: [f32; 7]) -> Vec<u32> {
    vals.iter().map(|v| f(*v)).collect()
}

/// `[nodeCount=1, edgeCount=0, node 1 at (0,0), radius 5, red]`.
fn one_node_buffer() -> Vec<u32> {
    let mut buf = vec![f(1.0), f(0.0)];
    buf.extend(seven([1.0, 0.0, 0.0, 5.0, 1.0, 0.0, 0.0]));
    buf
}

fn scenario_store() -> Graph {
    let mut g = Graph::new(&one_node_buffer());
    assert!(g.add_node(2, f(10.0), f(0.0), f(5.0), &[f(0.0), f(1.0), f(0.0)]));
    assert!(g.add_edge(100, 1, 2, f(2.0), &[f(0.0), f(0.0), f(1.0)]));
    g
}

#[test]
fn decode_counts() {
    let g = Graph::new(&one_node_buffer());
    assert_eq!(g.node_count(), 1);
    assert_eq!(g.edge_count(), 0);
    assert_eq!(g.get_total_elements(), 1);
}

#[test]
fn packed_buffer_layout() {
    let g = scenario_store();
    let expected: Vec<u32> = [
        0.0, 0.0, 0.0, 5.0, 1.0, 0.0, 0.0, // node 1, tag 0
        0.0, 10.0, 0.0, 5.0, 0.0, 1.0, 0.0, // node 2, tag 0
        1.0, 0.0, 0.0, 10.0, 0.0, 2.0, 0.0, 0.0, 1.0, // edge 100, tag 1
    ]
    .iter()
    .map(|v| f(*v))
    .collect();
    assert_eq!(g.get_buffer(), expected);
}

#[test]
fn remove_node_cascades() {
    let mut g = scenario_store();
    assert!(g.remove_node(1));
    assert_eq!(g.edge_count(), 0);
    assert_eq!(g.node_count(), 1);
}

#[test]
fn remove_node_absent() {
    let mut g = scenario_store();
    assert!(!g.remove_node(42));
    assert_eq!(g.node_count(), 2);
}

#[test]
fn remove_node_drops_only_touching_edges() {
    let mut g = scenario_store();
    assert!(g.add_node(3, f(1.0), f(2.0), f(3.0), &[f(0.5), f(0.5), f(0.5)]));
    assert!(g.add_edge(101, 2, 3, f(1.0), &[f(1.0), f(1.0), f(1.0)]));
    assert!(g.remove_node(1));
    assert_eq!(g.edge_count(), 1);
    let edges = g.get_edges();
    assert_eq!(edges[0], f(101.0));
    assert_eq!(edges[1], f(2.0));
    assert_eq!(edges[2], f(3.0));
}

#[test]
fn remove_absent_node_still_drops_its_edges() {
    let mut g = scenario_store();
    // Edge 200 dangles toward the missing node 42.
    assert!(g.add_edge(200, 1, 42, f(1.0), &[f(1.0), f(1.0), f(1.0)]));
    // No node 42 exists, so the call reports false, but every edge touching
    // 42 is removed all the same.
    assert!(!g.remove_node(42));
    assert_eq!(g.node_count(), 2);
    assert_eq!(g.edge_count(), 1);
    assert_eq!(g.get_edges()[0], f(100.0));
}

#[test]
fn replace_truncated_edge_records() {
    let mut g = scenario_store();
    // One full node record, two declared edges, data for one.
    let mut data = vec![f(1.0), f(2.0)];
    data.extend(seven([1.0, 0.0, 0.0, 5.0, 1.0, 0.0, 0.0]));
    data.extend(seven([100.0, 1.0, 1.0, 2.0, 0.0, 0.0, 1.0]));
    data.push(f(101.0));
    g.set_graph(&data);
    assert_eq!(g.node_count(), 1);
    assert_eq!(g.edge_count(), 1);
    assert_eq!(g.get_edges(), seven([100.0, 1.0, 1.0, 2.0, 0.0, 0.0, 1.0]));
}

#[test]
fn update_node_absent() {
    let mut g = scenario_store();
    assert!(!g.update_node(99, f(1.0), f(1.0), f(1.0), &[f(0.0), f(0.0), f(0.0)]));
    assert_eq!(g.node_count(), 2);
}

#[test]
fn update_node_in_place() {
    let mut g = scenario_store();
    assert!(g.update_node(2, f(7.0), f(8.0), f(9.0), &[f(0.25), f(0.5), f(0.75)]));
    let nodes = g.get_nodes();
    // The second record changed, the first did not.
    assert_eq!(&nodes[0..7], &seven([1.0, 0.0, 0.0, 5.0, 1.0, 0.0, 0.0])[..]);
    assert_eq!(&nodes[7..14], &seven([2.0, 7.0, 8.0, 9.0, 0.25, 0.5, 0.75])[..]);
}

#[test]
fn replace_truncated_buffer() {
    let mut g = scenario_store();
    // Declares 5 node records but holds data for only 2 full ones.
    let mut data = vec![f(5.0), f(0.0)];
    data.extend(seven([1.0, 0.0, 0.0, 5.0, 1.0, 0.0, 0.0]));
    data.extend(seven([2.0, 10.0, 0.0, 5.0, 0.0, 1.0, 0.0]));
    data.push(f(3.0));
    data.push(f(4.0));
    g.set_graph(&data);
    assert_eq!(g.node_count(), 2);
    assert_eq!(g.edge_count(), 0);
}

#[test]
fn replace_resets_everything() {
    let mut g = scenario_store();
    let mut data = vec![f(1.0), f(1.0)];
    data.extend(seven([9.0, 1.0, 2.0, 3.0, 0.0, 0.0, 0.0]));
    data.extend(seven([500.0, 9.0, 9.0, 4.0, 1.0, 1.0, 1.0]));
    g.set_graph(&data);
    assert_eq!(g.node_count(), 1);
    assert_eq!(g.edge_count(), 1);
    assert_eq!(g.get_nodes(), seven([9.0, 1.0, 2.0, 3.0, 0.0, 0.0, 0.0]));
    assert_eq!(g.get_edges(), seven([500.0, 9.0, 9.0, 4.0, 1.0, 1.0, 1.0]));
}

#[test]
fn replace_short_buffer_empties_store() {
    let mut g = scenario_store();
    g.set_graph(&[f(1.0)]);
    assert_eq!(g.node_count(), 0);
    assert_eq!(g.edge_count(), 0);
    assert_eq!(g.get_buffer(), Vec::<u32>::new());
}

#[test]
fn replace_truncates_fractional_count() {
    let mut g = scenario_store();
    // A declared count of 2.9 truncates to 2 records.
    let mut data = vec![f(2.9), f(0.0)];
    data.extend(seven([1.0, 0.0, 0.0, 1.0, 0.0, 0.0, 0.0]));
    data.extend(seven([2.0, 0.0, 0.0, 1.0, 0.0, 0.0, 0.0]));
    g.set_graph(&data);
    assert_eq!(g.node_count(), 2);
}

#[test]
fn duplicate_node_rejected() {
    let mut g = scenario_store();
    let before = g.get_nodes();
    assert!(!g.add_node(1, f(99.0), f(99.0), f(99.0), &[f(1.0), f(1.0), f(1.0)]));
    assert_eq!(g.node_count(), 2);
    assert_eq!(g.get_nodes(), before);
}

#[test]
fn duplicate_edge_rejected() {
    let mut g = scenario_store();
    let before = g.get_edges();
    assert!(!g.add_edge(100, 2, 1, f(9.0), &[f(1.0), f(1.0), f(1.0)]));
    assert_eq!(g.edge_count(), 1);
    assert_eq!(g.get_edges(), before);
}

#[test]
fn edge_to_missing_endpoint_is_kept_but_not_rendered() {
    let mut g = scenario_store();
    // Endpoint 42 does not exist: the edge is stored...
    assert!(g.add_edge(200, 1, 42, f(1.0), &[f(1.0), f(1.0), f(1.0)]));
    assert_eq!(g.edge_count(), 2);
    // ...but the packed buffer carries only the resolvable edge.
    let buffer = g.get_buffer();
    assert_eq!(buffer.len(), 7 + 7 + 9);
    // After removing node 2, edge 100 is gone and nothing renders past node 1.
    assert!(g.remove_node(2));
    assert_eq!(g.edge_count(), 1);
    let buffer = g.get_buffer();
    assert_eq!(buffer, seven([0.0, 0.0, 0.0, 5.0, 1.0, 0.0, 0.0]));
}

#[test]
fn update_edge_in_place() {
    let mut g = scenario_store();
    assert!(g.update_edge(100, f(4.5), &[f(0.1), f(0.2), f(0.3)]));
    assert_eq!(g.get_edges(), seven([100.0, 1.0, 2.0, 4.5, 0.1, 0.2, 0.3]));
    assert!(!g.update_edge(777, f(1.0), &[f(0.0), f(0.0), f(0.0)]));
}

#[test]
fn remove_edge_by_id() {
    let mut g = scenario_store();
    assert!(!g.remove_edge(9));
    assert_eq!(g.edge_count(), 1);
    assert!(g.remove_edge(100));
    assert_eq!(g.edge_count(), 0);
    assert!(!g.remove_edge(100));
}

#[test]
fn buffer_info_uses_node_stride() {
    let g = scenario_store();
    let (nodes_offset, edges_offset, edge_count) = g.get_buffer_info();
    assert_eq!(nodes_offset, 0);
    assert_eq!(edges_offset, 14);
    assert_eq!(edge_count, 1);
    assert_eq!(g.get_edges_offset(), 14);
    assert_eq!(g.get_total_elements(), 3);
}

#[test]
fn round_trip_through_initial_buffer() {
    let g = scenario_store();
    // Rebuild the initial-format buffer from the store's own records.
    let mut buf = vec![f(g.node_count() as f32), f(g.edge_count() as f32)];
    buf.extend(g.get_nodes());
    buf.extend(g.get_edges());
    let g2 = Graph::new(&buf);
    assert_eq!(g2.node_count(), g.node_count());
    assert_eq!(g2.edge_count(), g.edge_count());
    assert_eq!(g2.get_nodes(), g.get_nodes());
    assert_eq!(g2.get_edges(), g.get_edges());
    assert_eq!(g2.get_buffer(), g.get_buffer());
}

#[test]
fn large_ids_survive_wire() {
    // 3e9 exceeds 2^24 but is exactly representable; 2^24 - 1 is the
    // largest id that every integer below it survives losslessly.
    let mut g = Graph::new(&[f(0.0), f(0.0)]);
    assert!(g.add_node(0xffffff, f(0.0), f(0.0), f(1.0), &[f(0.0), f(0.0), f(0.0)]));
    assert!(g.add_node(3_000_000_000, f(1.0), f(1.0), f(1.0), &[f(0.0), f(0.0), f(0.0)]));
    let nodes = g.get_nodes();
    assert_eq!(nodes[0], (0xffffffu32 as f32).to_bits());
    assert_eq!(nodes[7], (3_000_000_000u32 as f32).to_bits());
    assert!(g.remove_node(3_000_000_000));
    assert_eq!(g.node_count(), 1);
}
