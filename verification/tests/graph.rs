use modrun::graph::freeze_layers;

#[test]
fn layers_follow_longest_dependency_path() {
    let deps = vec![vec![], vec![0], vec![0, 1], vec![]];
    let may_start = vec![true, true, true, true];
    let layers = freeze_layers(&deps, &may_start).unwrap();
    assert_eq!(layers, vec![vec![0, 3], vec![1], vec![2]]);
}

#[test]
fn a_cycle_is_reported() {
    let deps = vec![vec![1], vec![0], vec![]];
    let may_start = vec![true, true, true];
    let cycle = freeze_layers(&deps, &may_start).unwrap_err();
    assert!(cycle.len() >= 2);
    assert_eq!(cycle.first(), cycle.last());
}

#[test]
fn reported_cycle_starts_at_first_allowed_node_and_follows_cyclic_dependencies() {
    let deps = vec![vec![1], vec![0], vec![3], vec![2]];
    assert_eq!(freeze_layers(&deps, &vec![true, true, true, true]), Err(vec![0, 1, 0]));
    assert_eq!(freeze_layers(&deps, &vec![false, false, true, true]), Err(vec![2, 3, 2]));
    assert_eq!(freeze_layers(&deps, &vec![false, false, false, false]), Err(vec![0, 1, 0]));
    // Node 4 is placed; node 0 reaches the cycle 1 -> 2 -> 1 through its second dependency.
    let tail = vec![vec![4, 1], vec![2], vec![1], vec![1], vec![]];
    assert_eq!(freeze_layers(&tail, &vec![true, true, true, true, true]), Err(vec![1, 2, 1]));
}
