use lau_information_theory::agent::initial_cluster_assignment;

#[test]
fn test_initial_clusters_round_robin() {
    assert_eq!(initial_cluster_assignment(5, 2), vec![0, 1, 0, 1, 0]);
    assert_eq!(initial_cluster_assignment(3, 4), vec![0, 1, 2]);
}

#[test]
fn test_initial_clusters_empty_source() {
    assert_eq!(initial_cluster_assignment(0, 0), Vec::<usize>::new());
    assert_eq!(initial_cluster_assignment(0, 3), Vec::<usize>::new());
}
