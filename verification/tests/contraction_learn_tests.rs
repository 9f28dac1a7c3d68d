use minikanren_1bit_chirho::contraction_learn::TensorNetworkChirho;

#[test]
fn test_tensor_network_chirho() {
    let mut network_chirho = TensorNetworkChirho::new_chirho();

    let t0_chirho = network_chirho.add_tensor_chirho();
    let t1_chirho = network_chirho.add_tensor_chirho();
    let t2_chirho = network_chirho.add_tensor_chirho();

    network_chirho.add_edge_chirho(t0_chirho, t1_chirho, 10);
    network_chirho.add_edge_chirho(t1_chirho, t2_chirho, 20);

    assert_eq!(network_chirho.degree_chirho(t0_chirho), 1);
    assert_eq!(network_chirho.degree_chirho(t1_chirho), 2);
    assert_eq!(network_chirho.degree_chirho(t2_chirho), 1);
}

#[test]
fn network_neighbors_in_edge_order_chirho() {
    let mut n_chirho = TensorNetworkChirho::new_chirho();
    for _ in 0..4 {
        n_chirho.add_tensor_chirho();
    }
    assert_eq!(n_chirho.num_tensors_chirho, 4);
    n_chirho.add_edge_chirho(2, 0, 5);
    n_chirho.add_edge_chirho(0, 3, 7);
    n_chirho.add_edge_chirho(1, 2, 2);
    n_chirho.add_edge_chirho(0, 0, 3);
    assert_eq!(n_chirho.neighbors_chirho(0), vec![2, 3, 0]);
    assert_eq!(n_chirho.neighbors_chirho(2), vec![0, 1]);
    assert_eq!(n_chirho.neighbors_chirho(3), vec![0]);
    assert_eq!(n_chirho.degree_chirho(0), 3);
    assert_eq!(n_chirho.degree_chirho(0), n_chirho.neighbors_chirho(0).len());
    assert_eq!(n_chirho.degree_chirho(9), 0);
}
