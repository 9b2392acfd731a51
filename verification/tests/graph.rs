use lizstate::mapgen::graph_representation::Branch;
use petgraph::graph::NodeIndex;
use petgraph::Incoming;
use petgraph::Outgoing;
use petgraph::visit::EdgeRef;
use petgraph::visit::IntoNodeReferences;

fn assert_valid(branch: &Branch) {
    // The source as given by the branch has no incoming edges.
    assert!(branch.graph.node_weight(branch.source.0).is_some());
    assert_eq!(
        branch
            .graph
            .neighbors_directed(branch.source.0, Incoming)
            .count(),
        0
    );

    // All nodes have at most one flowing edge
    for node in branch.graph.node_indices() {
        let flowing = branch
            .graph
            .edges_directed(node, Outgoing)
            .filter(|e| e.weight().has_flow)
            .count();
        assert!(flowing <= 1);
    }

    // All nodes with two edges (one not flowing) has one that's flowing
    for node in branch.graph.node_indices() {
        if branch
            .graph
            .edges_directed(node, Outgoing)
            .any(|e| !e.weight().has_flow)
        {
            assert!(
                branch
                    .graph
                    .edges_directed(node, Outgoing)
                    .any(|e| e.weight().has_flow)
            );
        }
    }

    // All non-source non-sink nodes have flow-in = flow-out + flow-absorbed
    for (index, room) in branch.graph.node_references() {
        if index == branch.source.0 || index == branch.sink {
            continue;
        }

        let flow_in = branch
            .graph
            .edges_directed(index, Incoming)
            .map(|e| e.weight().flow_seen)
            .sum::<u8>();

        let flow_out = room.flow_absorbed
            + branch
                .graph
                .edges_directed(index, Outgoing)
                .map(|e| e.weight().flow_seen)
                .sum::<u8>();

        assert_eq!(flow_in, flow_out);
    }
}

fn numbers(nodes: &[NodeIndex<u8>]) -> Vec<usize> {
    nodes.iter().map(|n| n.index()).collect()
}

#[test]
fn test_new() {
    let branch = Branch::new();
    assert_valid(&branch);
    assert_eq!(branch.graph.edge_count(), 0);
}

#[test]
fn test_extend() {
    let mut branch = Branch::new();
    branch.extend_source();
    assert_valid(&branch);
    assert_eq!(branch.graph.edge_count(), 1);
}

#[test]
fn test_extend_join_and_fork() {
    let mut branch = Branch::new();
    branch.extend_join_and_fork(5, 5);
    assert_valid(&branch);
    assert_eq!(branch.graph.edge_count(), 5 + 5 + 1);
}

#[test]
fn branch_default_is_one_room() {
    let branch = Branch::default();
    assert_valid(&branch);
    assert_eq!(branch.graph.node_count(), 1);
    assert_eq!(branch.source.0, branch.sink);
    assert_eq!(numbers(&branch.get_river_nodes()), vec![0]);
}

#[test]
fn river_of_extended_source() {
    let mut branch = Branch::new();
    branch.extend_source();
    branch.extend_source();
    assert_eq!(branch.graph.node_count(), 3);
    assert_eq!(branch.source.0.index(), 2);
    assert_eq!(branch.sink.index(), 0);
    assert_eq!(numbers(&branch.get_river_nodes()), vec![2, 1, 0]);
}

#[test]
fn river_follows_the_wet_side_of_a_polygon() {
    let mut branch = Branch::new();
    branch.extend_join_and_fork(3, 2);
    assert_valid(&branch);
    // Rooms: the join 0, the wet side 1 and 2, the dry side 3, the fork 4, the spacer 5.
    assert_eq!(branch.graph.node_count(), 6);
    assert_eq!(branch.graph.edge_count(), 6);
    assert_eq!(branch.source.0.index(), 5);
    assert_eq!(numbers(&branch.get_river_nodes()), vec![5, 4, 2, 1, 0]);
    assert!(!branch.graph[NodeIndex::new(3)].has_flow);
    assert!(branch.graph[NodeIndex::new(2)].has_flow);
}

#[test]
fn polygon_of_single_sides() {
    let mut branch = Branch::new();
    branch.extend_join_and_fork(1, 1);
    assert_valid(&branch);
    // The fork leads straight to the join twice.
    assert_eq!(branch.graph.node_count(), 3);
    assert_eq!(branch.graph.edge_count(), 3);
    assert_eq!(numbers(&branch.get_river_nodes()), vec![2, 1, 0]);
}

#[test]
fn new_child_of_sink_extends_the_river() {
    let mut branch = Branch::new();
    let sink = branch.sink;
    let child = branch.add_new_child(sink).unwrap();
    assert_eq!(child.index(), 1);
    assert_eq!(branch.sink, child);
    assert!(branch.graph[child].has_flow);
    assert_valid(&branch);
    assert_eq!(numbers(&branch.get_river_nodes()), vec![0, 1]);
}

#[test]
fn new_child_elsewhere_is_a_dead_end() {
    let mut branch = Branch::new();
    branch.extend_source();
    let source = branch.source.0;
    let child = branch.add_new_child(source).unwrap();
    assert_eq!(child.index(), 2);
    assert_eq!(branch.sink.index(), 0);
    assert!(!branch.graph[child].has_flow);
    let hall = branch.graph.find_edge(source, child).unwrap();
    assert!(!branch.graph[hall].has_flow);
    assert_valid(&branch);
    assert_eq!(numbers(&branch.get_river_nodes()), vec![1, 0]);
    // Two halls out already: no third.
    assert_eq!(branch.add_new_child(source), None);
    assert_eq!(branch.graph.node_count(), 3);
}

#[test]
fn new_parent_of_source_moves_the_source() {
    let mut branch = Branch::new();
    let source = branch.source.0;
    let parent = branch.add_new_parent(source).unwrap();
    assert_eq!(parent.index(), 1);
    assert_eq!(branch.source.0, parent);
    assert!(branch.graph[parent].has_flow);
    assert_valid(&branch);
    assert_eq!(numbers(&branch.get_river_nodes()), vec![1, 0]);
}

#[test]
fn new_parent_elsewhere_is_a_tributary() {
    let mut branch = Branch::new();
    branch.extend_source();
    let sink = branch.sink;
    let parent = branch.add_new_parent(sink).unwrap();
    assert_eq!(parent.index(), 2);
    assert_eq!(branch.source.0.index(), 1);
    assert!(!branch.graph[parent].has_flow);
    let hall = branch.graph.find_edge(parent, sink).unwrap();
    assert!(branch.graph[hall].has_flow);
    assert_valid(&branch);
    assert_eq!(numbers(&branch.get_river_nodes()), vec![1, 0]);
    // Two halls in already: no third.
    assert_eq!(branch.add_new_parent(sink), None);
    assert_eq!(branch.graph.node_count(), 3);
}
