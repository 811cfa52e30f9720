use atmospherics_simulation::flow::{
    does_common_edge_exist, EdgeDirectionality, FlowQueryError, FlowSimulationError,
    FlowTopology,
};
use atmospherics_simulation::fluid_properties::InvalidFluidId;

#[test]
fn test_does_common_edge_exist() {
    assert!(does_common_edge_exist(&[1, 2, 3], &[1, 2, 3]));
    assert!(does_common_edge_exist(&[1, 2, 3], &[2, 3]));
    assert!(does_common_edge_exist(&[1, 2, 3], &[1, 3]));
    assert!(does_common_edge_exist(&[1, 2], &[1, 2, 3]));

    assert!(!does_common_edge_exist(&[1, 2, 3], &[4, 5]));
}

#[test]
fn common_edge_empty_lists() {
    assert!(!does_common_edge_exist(&[], &[1, 2]));
    assert!(!does_common_edge_exist(&[1, 2], &[]));
    assert!(!does_common_edge_exist(&[], &[]));
}

#[test]
fn common_edge_interleaved_lists() {
    assert!(!does_common_edge_exist(&[1, 3, 5], &[2, 4, 6]));
    assert!(does_common_edge_exist(&[1, 3, 5, 7], &[2, 4, 5, 6]));
    assert!(does_common_edge_exist(&[0], &[0]));
}

#[test]
fn directed_pairs_of_each_directionality() {
    assert_eq!(EdgeDirectionality::Uni.directed_pairs(1, 2), vec![(1, 2)]);
    assert_eq!(EdgeDirectionality::Bi.directed_pairs(1, 2), vec![(1, 2), (2, 1)]);
}

#[test]
fn errors_convert_into_simulation_error() {
    let error: FlowSimulationError<u32, &str> = FlowQueryError("missing").into();
    assert!(matches!(error, FlowSimulationError::QueryError(FlowQueryError("missing"))));

    let error: FlowSimulationError<u32, ()> = InvalidFluidId(7, 2).into();
    assert!(matches!(error, FlowSimulationError::InvalidFluidId(InvalidFluidId(7, 2))));
}

#[test]
fn topology_lists_edges_by_volume() {
    let mut topology = FlowTopology::new();
    assert_eq!(topology.add_volume(), 0);
    assert_eq!(topology.add_volume(), 1);
    assert_eq!(topology.add_volume(), 2);
    assert_eq!(topology.volume_count(), 3);

    assert_eq!(topology.add_flow_edge(0, 1), 0);
    assert_eq!(topology.add_flow_edge(1, 0), 1);
    assert_eq!(topology.add_flow_edge(1, 2), 2);
    topology.add_diffusion_edge(0, 1);

    assert_eq!(topology.flow_edge_count(), 3);
    assert_eq!(topology.flow_edge(2), (1, 2));
    assert_eq!(topology.send_edges(0), &[0]);
    assert_eq!(topology.send_edges(1), &[1, 2]);
    assert_eq!(topology.send_edges(2), &[] as &[usize]);
    assert_eq!(topology.receive_edges(0), &[1]);
    assert_eq!(topology.receive_edges(1), &[0]);
    assert_eq!(topology.receive_edges(2), &[2]);
    assert_eq!(topology.diffusion_edges(), &[(0, 1)]);

    // A flow edge goes from 1 to 2 exactly when 1's send list and 2's
    // receive list share an edge.
    assert!(does_common_edge_exist(topology.send_edges(1), topology.receive_edges(2)));
    assert!(!does_common_edge_exist(topology.send_edges(2), topology.receive_edges(1)));
}

#[test]
fn clearing_flow_edges_keeps_volumes_and_diffusion() {
    let mut topology = FlowTopology::new();
    topology.add_volume();
    topology.add_volume();
    topology.add_flow_edge(0, 1);
    topology.add_diffusion_edge(1, 0);

    topology.clear_flow_edges();

    assert_eq!(topology.volume_count(), 2);
    assert_eq!(topology.flow_edge_count(), 0);
    assert_eq!(topology.send_edges(0), &[] as &[usize]);
    assert_eq!(topology.receive_edges(1), &[] as &[usize]);
    assert_eq!(topology.diffusion_edges(), &[(1, 0)]);

    assert_eq!(topology.add_flow_edge(1, 0), 0);
    assert_eq!(topology.send_edges(1), &[0]);
}
