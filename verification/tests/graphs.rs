use di_engine::graph::schedule;

#[test]
fn a_chain_is_scheduled_from_its_end() {
    let adj = vec![vec![1], vec![2], vec![]];
    let found = schedule(&adj).unwrap();
    assert_eq!(found.order, vec![2, 1, 0]);
    assert_eq!(found.rank, vec![2, 1, 0]);
}

#[test]
fn every_node_comes_after_its_successors() {
    let adj = vec![vec![3, 1], vec![3], vec![0, 4], vec![], vec![1]];
    let found = schedule(&adj).unwrap();
    assert_eq!(found.order, vec![3, 1, 0, 4, 2]);
    for (node, successors) in adj.iter().enumerate() {
        for successor in successors {
            assert!(found.rank[*successor] < found.rank[node]);
        }
    }
    for (position, node) in found.order.iter().enumerate() {
        assert_eq!(found.rank[*node], position);
    }
}

#[test]
fn a_cycle_is_returned_as_it_runs() {
    let adj = vec![vec![1], vec![2], vec![3], vec![1]];
    match schedule(&adj) {
        Err(cycle) => assert_eq!(cycle, vec![1, 2, 3]),
        Ok(_) => panic!("the cycle was not found"),
    }
}

#[test]
fn a_loop_at_one_node_is_a_cycle() {
    let adj = vec![vec![], vec![1]];
    match schedule(&adj) {
        Err(cycle) => assert_eq!(cycle, vec![1]),
        Ok(_) => panic!("the cycle was not found"),
    }
}

#[test]
fn the_empty_graph_has_the_empty_schedule() {
    let adj: Vec<Vec<usize>> = Vec::new();
    let found = schedule(&adj).unwrap();
    assert!(found.order.is_empty());
    assert!(found.rank.is_empty());
}

#[test]
fn a_doubled_edge_is_no_cycle() {
    let adj = vec![vec![1, 1], vec![]];
    let found = schedule(&adj).unwrap();
    assert_eq!(found.order, vec![1, 0]);
}
