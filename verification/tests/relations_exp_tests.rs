use minikanren_1bit_chirho::relations::{AppendoChirho, MemberoChirho};

#[test]
fn test_appendo_chirho() {
    let mut rel_chirho = AppendoChirho::new();
    rel_chirho.add_triple_chirho(0, 1, 1);
    rel_chirho.add_triple_chirho(2, 1, 3);
    let results_chirho = rel_chirho.forward_chirho(2, 1);
    assert_eq!(results_chirho, vec![3]);
    let splits_chirho = rel_chirho.backward_chirho(3);
    assert_eq!(splits_chirho, vec![(2, 1)]);
}

#[test]
fn appendo_many_splits_chirho() {
    let mut r = AppendoChirho::default();
    r.add_triple_chirho(0, 5, 5);
    r.add_triple_chirho(1, 4, 5);
    r.add_triple_chirho(1, 4, 5);
    let mut splits = r.backward_chirho(5);
    splits.sort();
    assert_eq!(splits, vec![(0, 5), (1, 4)]);
    assert!(r.forward_chirho(9, 9).is_empty());
}

#[test]
fn membero_pairs_chirho() {
    let mut m = MemberoChirho::new();
    m.add_pair_chirho(1, 10);
    m.add_pair_chirho(1, 11);
    m.add_pair_chirho(2, 10);
    m.add_pair_chirho(1, 10);
    let mut lists = m.lists_containing_chirho(1);
    lists.sort();
    assert_eq!(lists, vec![10, 11]);
    let mut elems = m.elements_of_chirho(10);
    elems.sort();
    assert_eq!(elems, vec![1, 2]);
    assert!(m.lists_containing_chirho(3).is_empty());
    assert!(MemberoChirho::default().elements_of_chirho(10).is_empty());
}
