use zk_torch_2::crypto::polycommit::kzh2::{get_degree_from_maximum_supported_degree, pad_at_start};
use zk_torch_2::dag::builder::DagBuilder;
use zk_torch_2::dag::llama::pair_swap_perm_matrix;
use zk_torch_2::dag::predict::predicted_class;
use zk_torch_2::dag::{AliasId, Node, Role};
use zk_torch_2::util::field::Fe;

fn node(id: usize, nonneg: bool, inputs: Vec<usize>, outputs: Vec<usize>) -> Node {
    Node { id, nonneg, inputs, outputs }
}

/// input e0 -> n0 -> e1; (e1, e2) -> n1 -> e3; e3 -> n2 (range check) -> e4
fn small_graph() -> DagBuilder {
    DagBuilder {
        nodes: vec![
            node(0, false, vec![0], vec![1]),
            node(1, false, vec![1, 2], vec![3]),
            node(2, true, vec![3], vec![4]),
        ],
        num_edges: 5,
        edge_roles: vec![Role::Input, Role::Output, Role::Constant, Role::Output, Role::Auxiliary],
        range: vec![2],
        two_pow: vec![],
    }
}

#[test]
fn compile_orders_and_connects() {
    let dag = small_graph().compile();
    assert_eq!(dag.topo, vec![0, 1, 2]);
    assert_eq!(dag.consumers, vec![vec![0], vec![1], vec![1], vec![2], vec![]]);
    assert_eq!(dag.producers, vec![None, Some(0), None, Some(1), Some(2)]);
    assert_eq!(dag.input_ports, vec![0]);
    assert_eq!(dag.output_ports, vec![4, 3]);
    assert_eq!(dag.alias_to_edge, vec![0, 1, 2, 3]);
    assert_eq!(dag.alias_to_consumer, vec![0, 1, 1, 2]);
    assert_eq!(dag.alias_input_slot, vec![0, 0, 1, 0]);
    assert_eq!(dag.edge_aliases[1], vec![AliasId(1)]);
    assert_eq!(dag.alias_info(AliasId(2)), (2, 1, 1));
    assert_eq!(dag.num_edges(), 5);
}

#[test]
fn compile_follows_dependencies_not_node_order() {
    // n0 reads what n1 writes
    let b = DagBuilder {
        nodes: vec![node(0, false, vec![1], vec![2]), node(1, false, vec![0], vec![1])],
        num_edges: 3,
        edge_roles: vec![Role::Input, Role::Output, Role::Output],
        range: vec![],
        two_pow: vec![],
    };
    let dag = b.compile();
    assert_eq!(dag.topo, vec![1, 0]);
}

#[test]
fn backward_marking_finds_dependencies() {
    let dag = small_graph().compile();
    let (edges, nodes) = dag.backward_mark_needed(&[3]);
    assert_eq!(edges, vec![true, true, true, true, false]);
    assert_eq!(nodes, vec![true, true, false]);
    let (edges, nodes) = dag.backward_mark_needed(&[0]);
    assert_eq!(edges, vec![true, false, false, false, false]);
    assert_eq!(nodes, vec![false, false, false]);
}

#[test]
fn needed_out_aliases_follow_needed_readers() {
    let dag = small_graph().compile();
    let (_, need_node) = dag.backward_mark_needed(&[3]);
    let out = dag.collect_needed_out_aliases(&need_node);
    assert_eq!(out, vec![vec![(1, AliasId(1))], vec![], vec![]]);
}

#[test]
fn pair_swap_matrix_swaps_neighbours() {
    let m = pair_swap_perm_matrix(4);
    let got: Vec<u64> = m.iter().map(|f| f.canonical()).collect();
    assert_eq!(got, vec![0, 1, 0, 0, 1, 0, 0, 0, 0, 0, 0, 1, 0, 0, 1, 0]);
}

#[test]
fn pad_at_start_prepends_zeros() {
    let x = [Fe::from_u64(7), Fe::from_u64(8)];
    let p = pad_at_start(&x, 4);
    let got: Vec<u64> = p.iter().map(|f| f.canonical()).collect();
    assert_eq!(got, vec![0, 0, 7, 8]);
    assert_eq!(pad_at_start(&x, 1).len(), 2);
}

#[test]
fn degrees_split_evenly() {
    assert_eq!(get_degree_from_maximum_supported_degree(10), (5, 5));
    assert_eq!(get_degree_from_maximum_supported_degree(7), (3, 4));
}

#[test]
fn empty_graph_compiles() {
    let dag = DagBuilder::new().compile();
    assert!(dag.topo.is_empty());
    assert!(dag.input_ports.is_empty());
    assert!(dag.output_ports.is_empty());
    assert_eq!(dag.num_edges(), 0);
}

#[test]
fn predicted_class_is_the_first_largest_signed_value() {
    let out: Vec<Fe> = [-7i128, 3, -1, 3, 2].iter().map(|v| Fe::from_i128(*v)).collect();
    // a negative value encodes near p but compares as negative
    assert_eq!(predicted_class(&out, 5), 1);
    assert_eq!(predicted_class(&out, 3), 1);
    assert_eq!(predicted_class(&out, 1), 0);
    assert_eq!(predicted_class(&out, 0), 0);
    let neg: Vec<Fe> = [-9i128, -2, -5].iter().map(|v| Fe::from_i128(*v)).collect();
    assert_eq!(predicted_class(&neg, 3), 1);
}
