use synth_core::dsp::graph::topological_sort;

#[test]
fn sort_chain_keeps_order() {
    let nodes = vec![vec![1], vec![2], vec![]];
    assert_eq!(topological_sort(&nodes), Some(vec![0, 1, 2]));
}

#[test]
fn sort_takes_last_ready_node_first() {
    // 0 and 1 have no predecessors; 1 is pushed last and so emitted first,
    // and 2 becomes ready once 0 is emitted.
    let nodes = vec![vec![2], vec![], vec![]];
    assert_eq!(topological_sort(&nodes), Some(vec![1, 0, 2]));
}

#[test]
fn sort_diamond() {
    let nodes = vec![vec![1, 2], vec![3], vec![3], vec![]];
    assert_eq!(topological_sort(&nodes), Some(vec![0, 1, 2, 3]));
}

#[test]
fn sort_rejects_cycle() {
    let nodes = vec![vec![1], vec![2], vec![0]];
    assert_eq!(topological_sort(&nodes), None);
}

#[test]
fn sort_rejects_self_loop() {
    let nodes = vec![vec![], vec![1]];
    assert_eq!(topological_sort(&nodes), None);
}

#[test]
fn sort_empty_graph() {
    let nodes: Vec<Vec<usize>> = vec![];
    assert_eq!(topological_sort(&nodes), Some(vec![]));
}
