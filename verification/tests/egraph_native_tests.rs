use minikanren_1bit_chirho::egraph_native::{dec_bytes_chirho, EGraphNativeChirho, ENodeChirho};
use minikanren_1bit_chirho::union_find::UnionFindChirho;

#[test]
fn test_native_egraph_basic_chirho() {
    let mut eg_chirho = EGraphNativeChirho::new_chirho();

    let x_chirho = eg_chirho.fresh_var_chirho();
    let y_chirho = eg_chirho.fresh_var_chirho();
    let forty_two_chirho = eg_chirho.int_chirho(42);

    assert!(!eg_chirho.equiv_chirho(x_chirho, y_chirho));

    assert!(eg_chirho.unify_chirho(x_chirho, y_chirho));
    assert!(eg_chirho.equiv_chirho(x_chirho, y_chirho));

    assert!(eg_chirho.unify_chirho(x_chirho, forty_two_chirho));

    assert!(eg_chirho.equiv_chirho(y_chirho, forty_two_chirho));
}

#[test]
fn test_native_egraph_conflict_chirho() {
    let mut eg_chirho = EGraphNativeChirho::new_chirho();

    let x_chirho = eg_chirho.fresh_var_chirho();
    let one_chirho = eg_chirho.int_chirho(1);
    let two_chirho = eg_chirho.int_chirho(2);

    assert!(eg_chirho.unify_chirho(x_chirho, one_chirho));

    assert!(!eg_chirho.unify_chirho(x_chirho, two_chirho));
}

#[test]
fn test_native_egraph_list_chirho() {
    let mut eg_chirho = EGraphNativeChirho::new_chirho();

    let list1_chirho = eg_chirho.list_ints_chirho(&[1, 2, 3]);
    let list2_chirho = eg_chirho.list_ints_chirho(&[1, 2, 3]);

    assert!(eg_chirho.equiv_chirho(list1_chirho, list2_chirho));
}

#[test]
fn test_native_egraph_ground_chirho() {
    let mut eg_chirho = EGraphNativeChirho::new_chirho();

    let x_chirho = eg_chirho.fresh_var_chirho();
    let forty_two_chirho = eg_chirho.int_chirho(42);
    let list_chirho = eg_chirho.list_ints_chirho(&[1, 2]);

    assert!(!eg_chirho.is_ground_chirho(x_chirho));
    assert!(eg_chirho.is_ground_chirho(forty_two_chirho));
    assert!(eg_chirho.is_ground_chirho(list_chirho));
}

#[test]
fn test_native_egraph_congruence_chirho() {
    let mut eg_chirho = EGraphNativeChirho::new_chirho();

    let x_chirho = eg_chirho.fresh_var_chirho();
    let y_chirho = eg_chirho.fresh_var_chirho();
    let nil_chirho = eg_chirho.nil_chirho();

    let cons_x_chirho = eg_chirho.cons_chirho(x_chirho, nil_chirho);
    let cons_y_chirho = eg_chirho.cons_chirho(y_chirho, nil_chirho);

    assert!(!eg_chirho.equiv_chirho(cons_x_chirho, cons_y_chirho));

    assert!(eg_chirho.unify_chirho(x_chirho, y_chirho));

    assert!(eg_chirho.equiv_chirho(cons_x_chirho, cons_y_chirho));
}

#[test]
fn native_egraph_hashcons_same_class() {
    let mut eg = EGraphNativeChirho::new_chirho();
    let a = eg.int_chirho(7);
    let before = eg.num_nodes_chirho();
    let b = eg.int_chirho(7);
    assert_eq!(a, b);
    assert_eq!(eg.num_nodes_chirho(), before);
    assert_eq!(eg.num_classes_chirho(), 1);
    let c = eg.add_chirho(ENodeChirho::ConsChirho(a, a));
    let d = eg.cons_chirho(b, b);
    assert_eq!(c, d);
    assert_eq!(eg.num_classes_chirho(), 2);
}

#[test]
fn native_egraph_union_conflict_changes_nothing() {
    let mut eg = EGraphNativeChirho::new_chirho();
    let one = eg.int_chirho(1);
    let two = eg.int_chirho(2);
    assert!(!eg.union_chirho(one, two));
    assert!(!eg.equiv_chirho(one, two));
    assert_eq!(eg.find_chirho(two), two);
    assert!(eg.union_chirho(one, one));
}

#[test]
fn native_egraph_union_keeps_root_of_first() {
    let mut eg = EGraphNativeChirho::new_chirho();
    let x = eg.fresh_var_chirho();
    let y = eg.fresh_var_chirho();
    assert!(eg.union_chirho(x, y));
    assert_eq!(eg.find_chirho(y), x);
    assert_eq!(eg.find_immut_chirho(x), x);
}

#[test]
fn native_egraph_nested_congruence() {
    let mut eg = EGraphNativeChirho::new_chirho();
    let f = eg.sym_chirho("f");
    let x = eg.fresh_var_chirho();
    let y = eg.fresh_var_chirho();
    let fx = eg.add_chirho(ENodeChirho::AppChirho(f, x));
    let fy = eg.add_chirho(ENodeChirho::AppChirho(f, y));
    let ffx = eg.add_chirho(ENodeChirho::AppChirho(f, fx));
    let ffy = eg.add_chirho(ENodeChirho::AppChirho(f, fy));
    assert!(!eg.equiv_chirho(ffx, ffy));
    assert!(eg.unify_chirho(x, y));
    assert!(eg.equiv_chirho(fx, fy));
    assert!(eg.equiv_chirho(ffx, ffy));
    assert!(!eg.equiv_chirho(fx, ffx));
}

#[test]
fn native_egraph_symbols_interned() {
    let mut eg = EGraphNativeChirho::new_chirho();
    let a = eg.intern_symbol_chirho("alpha");
    let b = eg.intern_symbol_chirho("beta");
    let a2 = eg.intern_symbol_chirho("alpha");
    assert_eq!(a, 0);
    assert_eq!(b, 1);
    assert_eq!(a2, 0);
    let s1 = eg.sym_chirho("alpha");
    let s2 = eg.sym_chirho("alpha");
    assert_eq!(s1, s2);
    assert!(eg.is_ground_chirho(s1));
}

#[test]
fn native_egraph_fresh_var_named_symbol() {
    let mut eg = EGraphNativeChirho::new_chirho();
    let v0 = eg.fresh_var_chirho();
    let same = eg.sym_chirho("_v0");
    assert_eq!(v0, same);
    assert!(!eg.is_ground_chirho(same));
    let v1 = eg.fresh_var_chirho();
    assert_ne!(v0, v1);
}

#[test]
fn native_egraph_children_and_canonical() {
    let mut eg = EGraphNativeChirho::new_chirho();
    let x = eg.fresh_var_chirho();
    let y = eg.fresh_var_chirho();
    let node = ENodeChirho::ConsChirho(y, x);
    assert_eq!(node.children_chirho(), [Some(y), Some(x)]);
    assert_eq!(ENodeChirho::IntChirho(3).children_chirho(), [None, None]);
    assert!(eg.union_chirho(x, y));
    assert_eq!(eg.find_chirho(y), x);
}

#[test]
fn native_egraph_decimal_names() {
    assert_eq!(dec_bytes_chirho(0), vec![b'0']);
    assert_eq!(dec_bytes_chirho(305), vec![b'3', b'0', b'5']);
}

#[test]
fn native_egraph_rebuild_clears_queue() {
    let mut eg = EGraphNativeChirho::new_chirho();
    let x = eg.fresh_var_chirho();
    let y = eg.fresh_var_chirho();
    let nil = eg.nil_chirho();
    let cx = eg.cons_chirho(x, nil);
    let cy = eg.cons_chirho(y, nil);
    assert!(eg.union_chirho(x, y));
    assert!(!eg.equiv_chirho(cx, cy));
    eg.rebuild_chirho();
    assert!(eg.equiv_chirho(cx, cy));
}

#[test]
fn native_egraph_list_shape() {
    let mut eg = EGraphNativeChirho::new_chirho();
    let nil = eg.nil_chirho();
    let empty = eg.list_chirho(&[]);
    assert_eq!(empty, nil);
    let one = eg.int_chirho(1);
    let l = eg.list_chirho(&[one]);
    let c = eg.cons_chirho(one, nil);
    assert_eq!(l, c);
}

#[test]
fn native_egraph_canonicalize_maps_children_to_roots() {
    let mut uf = UnionFindChirho::new();
    uf.make_set_chirho(0);
    uf.make_set_chirho(1);
    uf.make_set_chirho(2);
    assert!(uf.union_chirho(0, 1));
    assert!(!uf.union_chirho(1, 0));
    assert_eq!(ENodeChirho::ConsChirho(1, 2).canonicalize_chirho(&uf), ENodeChirho::ConsChirho(0, 2));
    assert_eq!(ENodeChirho::AppChirho(2, 1).canonicalize_chirho(&uf), ENodeChirho::AppChirho(2, 0));
    assert_eq!(ENodeChirho::IntChirho(5).canonicalize_chirho(&uf), ENodeChirho::IntChirho(5));
    assert_eq!(uf.find_chirho(1), 0);
    assert_eq!(uf.find_immut_chirho(2), 2);
}

#[test]
fn native_egraph_unify_merges_data() {
    let mut eg = EGraphNativeChirho::new_chirho();
    let x = eg.fresh_var_chirho();
    let forty_two = eg.int_chirho(42);
    assert!(!eg.is_ground_chirho(x));
    assert!(eg.unify_chirho(x, forty_two));
    assert!(eg.is_ground_chirho(x));
    let seven = eg.int_chirho(7);
    let k = eg.num_classes_chirho();
    assert!(!eg.unify_chirho(x, seven));
    assert_eq!(eg.num_classes_chirho(), k);
    assert!(!eg.equiv_chirho(x, seven));
}
