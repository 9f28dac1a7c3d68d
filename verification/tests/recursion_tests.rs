use minikanren_1bit_chirho::recursion::{
    cata_indexed_chirho, depth_algebra_chirho, is_ground_algebra_chirho, para_indexed_chirho,
    size_algebra_chirho, vars_algebra_chirho, FixChirho, OccursCheckAlgebraChirho, TermFChirho,
    TermStoreIndexedChirho,
};

#[test]
fn test_term_f_map_chirho() {
    let cons_chirho = TermFChirho::ConsFChirho(1u32, 2u32);
    let mapped_chirho = cons_chirho.map_chirho(|x_chirho| x_chirho * 10);
    assert_eq!(mapped_chirho, TermFChirho::ConsFChirho(10, 20));
}

#[test]
fn test_cata_is_ground_chirho() {
    let mut store_chirho = TermStoreIndexedChirho::new_chirho();

    let one_chirho = store_chirho.int_chirho(1);
    let nil_chirho = store_chirho.nil_chirho();
    let list_chirho = store_chirho.cons_chirho(one_chirho, nil_chirho);

    let is_ground_chirho = cata_indexed_chirho(&store_chirho, is_ground_algebra_chirho, list_chirho);
    assert!(is_ground_chirho);

    let var_chirho = store_chirho.var_chirho(0);
    let list_with_var_chirho = store_chirho.cons_chirho(var_chirho, nil_chirho);

    let is_ground2_chirho = cata_indexed_chirho(&store_chirho, is_ground_algebra_chirho, list_with_var_chirho);
    assert!(!is_ground2_chirho);
}

#[test]
fn test_cata_vars_chirho() {
    let mut store_chirho = TermStoreIndexedChirho::new_chirho();

    let v0_chirho = store_chirho.var_chirho(0);
    let v1_chirho = store_chirho.var_chirho(1);
    let nil_chirho = store_chirho.nil_chirho();
    let cons1_chirho = store_chirho.cons_chirho(v1_chirho, nil_chirho);
    let cons0_chirho = store_chirho.cons_chirho(v0_chirho, cons1_chirho);

    let vars_chirho = cata_indexed_chirho(&store_chirho, vars_algebra_chirho, cons0_chirho);
    assert!(vars_chirho.contains(&0));
    assert!(vars_chirho.contains(&1));
    assert_eq!(vars_chirho.len(), 2);
}

#[test]
fn test_cata_size_chirho() {
    let mut store_chirho = TermStoreIndexedChirho::new_chirho();

    let one_chirho = store_chirho.int_chirho(1);
    let two_chirho = store_chirho.int_chirho(2);
    let nil_chirho = store_chirho.nil_chirho();
    let cons1_chirho = store_chirho.cons_chirho(two_chirho, nil_chirho);
    let cons0_chirho = store_chirho.cons_chirho(one_chirho, cons1_chirho);

    let size_chirho = cata_indexed_chirho(&store_chirho, size_algebra_chirho, cons0_chirho);
    assert_eq!(size_chirho, 5);
}

#[test]
fn test_occurs_check_algebraic_chirho() {
    let mut store_chirho = TermStoreIndexedChirho::new_chirho();

    let v0_chirho = store_chirho.var_chirho(0);
    let v1_chirho = store_chirho.var_chirho(1);
    let nil_chirho = store_chirho.nil_chirho();
    let inner_chirho = store_chirho.cons_chirho(v1_chirho, nil_chirho);
    let outer_chirho = store_chirho.cons_chirho(v0_chirho, inner_chirho);

    let occurs_x_chirho = OccursCheckAlgebraChirho { target_var_chirho: 0 };
    let contains_x_chirho =
        cata_indexed_chirho(&store_chirho, |l_chirho| occurs_x_chirho.check_chirho(l_chirho), outer_chirho);
    assert!(contains_x_chirho);

    let inner_contains_x_chirho =
        cata_indexed_chirho(&store_chirho, |l_chirho| occurs_x_chirho.check_chirho(l_chirho), inner_chirho);
    assert!(!inner_contains_x_chirho);
}

#[test]
fn term_f_traverse_stops_at_first_error_chirho() {
    let ok_chirho: Result<TermFChirho<u32>, String> =
        TermFChirho::AppFChirho(3u32, 4u32).traverse_chirho(|x_chirho| Ok::<u32, String>(x_chirho + 1));
    assert_eq!(ok_chirho, Ok(TermFChirho::AppFChirho(4, 5)));
    let err_chirho: Result<TermFChirho<u32>, u32> = TermFChirho::ConsFChirho(7u32, 0u32)
        .traverse_chirho(|x_chirho| if x_chirho == 0 { Err(99) } else { Ok(x_chirho) });
    assert_eq!(err_chirho, Err(99));
    let first_chirho: Result<TermFChirho<u32>, u32> =
        TermFChirho::ConsFChirho(1u32, 2u32).traverse_chirho(|x_chirho| Err::<u32, u32>(x_chirho));
    assert_eq!(first_chirho, Err(1));
    let leaf_chirho: Result<TermFChirho<u32>, u32> =
        TermFChirho::<u32>::IntFChirho(-5).traverse_chirho(|x_chirho| Err::<u32, u32>(x_chirho));
    assert_eq!(leaf_chirho, Ok(TermFChirho::IntFChirho(-5)));
}

#[test]
fn term_f_leaves_and_children_chirho() {
    let pair_chirho = TermFChirho::AppFChirho(8u32, 9u32);
    assert!(!pair_chirho.is_leaf_chirho());
    assert_eq!(pair_chirho.children_chirho(), vec![&8, &9]);
    let leaf_chirho: TermFChirho<u32> = TermFChirho::SymFChirho(2);
    assert!(leaf_chirho.is_leaf_chirho());
    assert!(leaf_chirho.children_chirho().is_empty());
    let mapped_chirho = leaf_chirho.map_chirho(|x_chirho: u32| x_chirho + 1);
    assert_eq!(mapped_chirho, TermFChirho::SymFChirho(2));
    let fix_chirho = FixChirho { unfix_chirho: Box::new(TermFChirho::<u32>::NilFChirho) };
    assert_eq!(*fix_chirho.unfix_chirho, TermFChirho::NilFChirho);
}

#[test]
fn store_depth_and_para_chirho() {
    let mut store_chirho = TermStoreIndexedChirho::default();
    let f_chirho = store_chirho.sym_chirho(1);
    let x_chirho = store_chirho.var_chirho(0);
    let nil_chirho = store_chirho.nil_chirho();
    let inner_chirho = store_chirho.cons_chirho(x_chirho, nil_chirho);
    let app_chirho = store_chirho.app_chirho(f_chirho, inner_chirho);
    assert_eq!(app_chirho, 4);
    assert_eq!(store_chirho.get_layer_chirho(app_chirho), TermFChirho::AppFChirho(0, 3));
    assert_eq!(cata_indexed_chirho(&store_chirho, depth_algebra_chirho, app_chirho), 2);
    assert_eq!(cata_indexed_chirho(&store_chirho, size_algebra_chirho, app_chirho), 5);
    // sum of child ids seen at each node
    let sum_ids_chirho = para_indexed_chirho(
        &store_chirho,
        |l_chirho: TermFChirho<(u64, u32)>| match l_chirho {
            TermFChirho::ConsFChirho((a, ia), (b, ib)) | TermFChirho::AppFChirho((a, ia), (b, ib)) => {
                a + b + ia as u64 + ib as u64
            }
            _ => 0,
        },
        app_chirho,
    );
    // inner: 1 + 2 = 3 ; app: 0 + 3 + inner(3) = 6
    assert_eq!(sum_ids_chirho, 6);
    let vars_chirho = cata_indexed_chirho(&store_chirho, vars_algebra_chirho, app_chirho);
    assert_eq!(vars_chirho.len(), 1);
    assert!(vars_chirho.contains(&0));
}
