use minikanren_1bit_chirho::egraph_data::{
    is_var_name_chirho, leaf_data_chirho, may_unify_chirho, merge_data_chirho, node_data_chirho, TermDataChirho,
};

#[test]
fn egraph_var_names_chirho() {
    assert!(is_var_name_chirho("_v0"));
    assert!(is_var_name_chirho("_v"));
    assert!(!is_var_name_chirho("_x1"));
    assert!(!is_var_name_chirho("v"));
    assert!(!is_var_name_chirho(""));
    assert!(!is_var_name_chirho("add"));
}

#[test]
fn egraph_leaf_and_node_data_chirho() {
    let int_chirho = leaf_data_chirho(false, Some(42));
    assert_eq!(int_chirho, TermDataChirho { is_ground_chirho: true, constant_chirho: Some(42) });
    let var_chirho = leaf_data_chirho(true, None);
    assert!(!var_chirho.is_ground_chirho);
    assert_eq!(node_data_chirho(&[true, true]), TermDataChirho { is_ground_chirho: true, constant_chirho: None });
    assert!(!node_data_chirho(&[true, false]).is_ground_chirho);
    assert!(node_data_chirho(&[]).is_ground_chirho);
    assert_eq!(TermDataChirho::default(), TermDataChirho { is_ground_chirho: false, constant_chirho: None });
}

#[test]
fn egraph_merge_and_unify_chirho() {
    let mut a_chirho = TermDataChirho { is_ground_chirho: false, constant_chirho: None };
    let b_chirho = TermDataChirho { is_ground_chirho: true, constant_chirho: Some(1) };
    assert_eq!(merge_data_chirho(&mut a_chirho, b_chirho), (true, true));
    assert_eq!(a_chirho, TermDataChirho { is_ground_chirho: true, constant_chirho: Some(1) });
    let c_chirho = TermDataChirho { is_ground_chirho: false, constant_chirho: Some(2) };
    assert_eq!(merge_data_chirho(&mut a_chirho, c_chirho), (false, false));
    assert_eq!(a_chirho.constant_chirho, Some(1));

    assert!(may_unify_chirho(true, Some(1), Some(2)));
    assert!(!may_unify_chirho(false, Some(1), Some(2)));
    assert!(may_unify_chirho(false, Some(3), Some(3)));
    assert!(may_unify_chirho(false, None, Some(3)));
}
