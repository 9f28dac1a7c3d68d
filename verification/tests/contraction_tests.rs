use minikanren_1bit_chirho::contraction::{greedy_order_chirho, total_cost_chirho, TensorNetworkChirho};
use minikanren_1bit_chirho::elimination::min_degree_order_chirho;

#[test]
fn test_greedy_chirho() {
    let mut net_chirho = TensorNetworkChirho::new();
    net_chirho.add_tensor_chirho("T1", &["A", "B", "X"], 10);
    net_chirho.add_tensor_chirho("T2", &["X", "C", "Y"], 10);
    net_chirho.add_tensor_chirho("T3", &["Y", "D", "Out"], 10);
    for idx_chirho in &["A", "B", "C", "D", "X", "Y", "Out"] {
        net_chirho.set_index_size_chirho(idx_chirho, 5);
    }
    let steps_chirho = greedy_order_chirho(&net_chirho);
    assert_eq!(steps_chirho.len(), 2);
}

#[test]
fn test_min_degree_chirho() {
    let mut net_chirho = TensorNetworkChirho::new();
    net_chirho.add_tensor_chirho("T1", &["A", "B", "X"], 10);
    net_chirho.add_tensor_chirho("T2", &["X", "C", "Y"], 10);
    let order_chirho = min_degree_order_chirho(&net_chirho);
    assert!(order_chirho.contains(&"X".to_string()));
}

#[test]
fn greedy_steps_in_detail_chirho() {
    let mut net = TensorNetworkChirho::default();
    net.add_tensor_chirho("T1", &["A", "B", "X"], 10);
    net.add_tensor_chirho("T2", &["X", "C", "Y"], 10);
    net.add_tensor_chirho("T3", &["Y", "D", "Out"], 10);
    for idx in &["A", "B", "C", "D", "X", "Y", "Out"] {
        net.set_index_size_chirho(idx, 5);
    }
    let steps = greedy_order_chirho(&net);
    assert_eq!(steps[0].tensor1_chirho, "T1");
    assert_eq!(steps[0].tensor2_chirho, "T2");
    assert_eq!(steps[0].result_chirho, "R0");
    assert_eq!(steps[0].cost_chirho, 625);
    assert_eq!(steps[1].tensor1_chirho, "T3");
    assert_eq!(steps[1].tensor2_chirho, "R0");
    assert_eq!(steps[1].result_chirho, "R1");
    assert_eq!(steps[1].cost_chirho, 3125);
    assert_eq!(total_cost_chirho(&steps), 3750);
}

#[test]
fn greedy_joins_unconnected_chirho() {
    let mut net = TensorNetworkChirho::new();
    net.add_tensor_chirho("P", &["A"], 2);
    net.add_tensor_chirho("Q", &["B", "B"], 3);
    assert_eq!(net.tensors_chirho[1].indices_chirho.len(), 1);
    let steps = greedy_order_chirho(&net);
    assert_eq!(steps.len(), 1);
    assert_eq!(steps[0].result_chirho, "R0");
    assert_eq!(steps[0].cost_chirho, 6);
    assert!(greedy_order_chirho(&TensorNetworkChirho::new()).is_empty());
}

#[test]
fn greedy_default_index_size_chirho() {
    let mut net = TensorNetworkChirho::new();
    net.add_tensor_chirho("T1", &["A", "X"], 1);
    net.add_tensor_chirho("T2", &["X", "B"], 1);
    net.set_index_size_chirho("A", 3);
    net.set_index_size_chirho("A", 4);
    // B has no size: it counts as 10.
    let steps = greedy_order_chirho(&net);
    assert_eq!(steps[0].cost_chirho, 40);
}

#[test]
fn min_degree_cycle_chirho() {
    let mut net = TensorNetworkChirho::new();
    net.add_tensor_chirho("T1", &["A", "B"], 1);
    net.add_tensor_chirho("T2", &["B", "C"], 1);
    net.add_tensor_chirho("T3", &["C", "D"], 1);
    net.add_tensor_chirho("T4", &["D", "A"], 1);
    let order = min_degree_order_chirho(&net);
    assert_eq!(order, vec!["A".to_string(), "B".to_string(), "C".to_string(), "D".to_string()]);
}

#[test]
fn min_degree_outputs_only_chirho() {
    let mut net = TensorNetworkChirho::new();
    net.add_tensor_chirho("T1", &["A", "B"], 1);
    assert!(min_degree_order_chirho(&net).is_empty());
}
