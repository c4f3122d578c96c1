use recfarm::config::DuplicatePolicy;
use recfarm::error::RecError;
use recfarm::ids::IdTable;
use recfarm::sparse::{SparseVec, MAX_DIM, MAX_WEIGHT};
use recfarm::store::SparseInteractionStore;

fn vec_of(entries: &[(usize, u32)]) -> SparseVec {
    let mut v = SparseVec::new();
    for (k, w) in entries {
        v.upsert(*k, *w);
    }
    v
}

#[test]
fn sparse_vec_starts_empty() {
    let v = SparseVec::new();
    assert_eq!(v.len(), 0);
    assert_eq!(v.get(0), None);
    assert!(!v.contains(7));
}

#[test]
fn sparse_vec_keeps_keys_sorted_whatever_the_insertion_order() {
    let v = vec_of(&[(9, 90), (2, 20), (5, 50), (0, 1)]);
    assert_eq!(v.len(), 4);
    let keys: Vec<usize> = (0..v.len()).map(|p| v.key_at(p)).collect();
    let vals: Vec<u32> = (0..v.len()).map(|p| v.val_at(p)).collect();
    assert_eq!(keys, vec![0, 2, 5, 9]);
    assert_eq!(vals, vec![1, 20, 50, 90]);
}

#[test]
fn sparse_vec_upsert_overwrites_an_existing_key() {
    let mut v = vec_of(&[(3, 30), (4, 40)]);
    v.upsert(3, 33);
    assert_eq!(v.len(), 2);
    assert_eq!(v.get(3), Some(33));
    assert_eq!(v.get(4), Some(40));
    assert_eq!(v.get(5), None);
}

#[test]
fn sparse_vec_get_finds_first_middle_and_last() {
    let v = vec_of(&[(1, 10), (3, 30), (8, 80), (20, 200), (21, 210)]);
    assert_eq!(v.get(1), Some(10));
    assert_eq!(v.get(8), Some(80));
    assert_eq!(v.get(21), Some(210));
    assert_eq!(v.get(0), None);
    assert_eq!(v.get(9), None);
    assert_eq!(v.get(22), None);
    assert!(v.contains(20));
}

#[test]
fn sparse_vec_accepts_the_largest_key_and_weight() {
    let v = vec_of(&[(MAX_DIM - 1, MAX_WEIGHT)]);
    assert_eq!(v.get(MAX_DIM - 1), Some(MAX_WEIGHT));
}

#[test]
fn inner_product_weighted_is_the_dot_product() {
    let a = vec_of(&[(0, 2), (3, 5), (7, 11)]);
    let b = vec_of(&[(3, 4), (5, 9), (7, 3)]);
    assert_eq!(a.inner_product(&b, true), 5 * 4 + 11 * 3);
    assert_eq!(b.inner_product(&a, true), 5 * 4 + 11 * 3);
    assert_eq!(a.inner_product(&a, true), 4 + 25 + 121);
}

#[test]
fn inner_product_unweighted_counts_shared_keys() {
    let a = vec_of(&[(0, 2), (3, 5), (7, 11)]);
    let b = vec_of(&[(3, 4), (5, 9), (7, 3)]);
    assert_eq!(a.inner_product(&b, false), 2);
    assert_eq!(a.inner_product(&a, false), 3);
}

#[test]
fn inner_product_of_disjoint_or_empty_vectors_is_zero() {
    let a = vec_of(&[(0, 2), (2, 5)]);
    let b = vec_of(&[(1, 4), (3, 9)]);
    let e = SparseVec::new();
    assert_eq!(a.inner_product(&b, true), 0);
    assert_eq!(a.inner_product(&e, true), 0);
    assert_eq!(e.inner_product(&a, false), 0);
}

#[test]
fn inner_product_at_the_limits_does_not_overflow() {
    let mut a = SparseVec::new();
    for k in 0..1000usize {
        a.upsert(k, MAX_WEIGHT);
    }
    assert_eq!(a.inner_product(&a, true), 1000u64 * 100_000_000u64);
}

#[test]
fn common_keys_are_the_sorted_intersection() {
    let a = vec_of(&[(9, 1), (1, 1), (4, 1), (6, 1)]);
    let b = vec_of(&[(6, 2), (2, 2), (9, 2), (1, 2)]);
    assert_eq!(a.common_keys(&b), vec![1, 6, 9]);
    assert_eq!(b.common_keys(&a), vec![1, 6, 9]);
    assert_eq!(a.common_keys(&SparseVec::new()), Vec::<usize>::new());
}

#[test]
fn id_table_assigns_indices_in_order_of_first_appearance() {
    let mut t = IdTable::new();
    assert_eq!(t.len(), 0);
    assert_eq!(t.lookup(42), None);
    assert_eq!(t.register(42), 0);
    assert_eq!(t.register(7), 1);
    assert_eq!(t.register(u64::MAX), 2);
    assert_eq!(t.len(), 3);
    assert_eq!(t.lookup(7), Some(1));
    assert_eq!(t.lookup(42), Some(0));
    assert_eq!(t.lookup(u64::MAX), Some(2));
    assert_eq!(t.lookup(8), None);
    assert_eq!(t.id_at(2), u64::MAX);
}

#[test]
fn store_insert_allocates_dense_indices() {
    let mut s = SparseInteractionStore::new(10, 10, DuplicatePolicy::Overwrite);
    assert_eq!(s.insert(500, 77, 100), Ok((0, 0)));
    assert_eq!(s.insert(400, 77, 200), Ok((1, 0)));
    assert_eq!(s.insert(500, 99, 300), Ok((0, 1)));
    assert_eq!(s.n_users(), 2);
    assert_eq!(s.n_items(), 2);
    assert_eq!(s.user_index(400), Ok(1));
    assert_eq!(s.item_index(99), Ok(1));
    assert_eq!(s.user_id(0), 500);
    assert_eq!(s.item_id(1), 99);
}

#[test]
fn store_keeps_rows_and_columns_in_step() {
    let mut s = SparseInteractionStore::new(10, 10, DuplicatePolicy::Overwrite);
    s.insert(1, 10, 100).unwrap();
    s.insert(2, 10, 200).unwrap();
    s.insert(2, 20, 300).unwrap();
    s.insert(3, 20, 400).unwrap();
    let row2 = s.row(2).unwrap();
    assert_eq!(row2.len(), 2);
    assert_eq!(row2.get(0), Some(200));
    assert_eq!(row2.get(1), Some(300));
    let col_a = s.column(10).unwrap();
    assert_eq!(col_a.len(), 2);
    assert_eq!(col_a.get(0), Some(100));
    assert_eq!(col_a.get(1), Some(200));
    let col_b = s.column(20).unwrap();
    assert_eq!(col_b.get(1), Some(300));
    assert_eq!(col_b.get(2), Some(400));
    assert_eq!(col_b.get(0), None);
}

#[test]
fn store_overwrite_replaces_the_weight_in_both_orientations() {
    let mut s = SparseInteractionStore::new(10, 10, DuplicatePolicy::Overwrite);
    s.insert(1, 10, 100).unwrap();
    s.insert(1, 10, 250).unwrap();
    assert_eq!(s.weight(1, 10), Ok(Some(250)));
    assert_eq!(s.column(10).unwrap().get(0), Some(250));
    assert_eq!(s.row(1).unwrap().len(), 1);
}

#[test]
fn store_accumulate_adds_and_saturates() {
    let mut s = SparseInteractionStore::new(10, 10, DuplicatePolicy::Accumulate);
    s.insert(1, 10, 100).unwrap();
    s.insert(1, 10, 250).unwrap();
    assert_eq!(s.weight(1, 10), Ok(Some(350)));
    s.insert(1, 10, 9_900).unwrap();
    assert_eq!(s.weight(1, 10), Ok(Some(MAX_WEIGHT)));
    assert_eq!(s.column(10).unwrap().get(0), Some(MAX_WEIGHT));
    assert_eq!(s.policy(), DuplicatePolicy::Accumulate);
}

#[test]
fn store_rejects_invalid_weights_and_stays_unchanged() {
    let mut s = SparseInteractionStore::new(10, 10, DuplicatePolicy::Overwrite);
    assert_eq!(s.insert(1, 10, -1), Err(RecError::InvalidWeight));
    assert_eq!(s.insert(1, 10, MAX_WEIGHT as i64 + 1), Err(RecError::InvalidWeight));
    assert_eq!(s.insert(1, 10, i64::MIN), Err(RecError::InvalidWeight));
    assert_eq!(s.n_users(), 0);
    assert_eq!(s.n_items(), 0);
    assert_eq!(s.insert(1, 10, 0), Ok((0, 0)));
    assert_eq!(s.insert(1, 11, MAX_WEIGHT as i64), Ok((0, 1)));
}

#[test]
fn store_capacity_is_enforced_without_partial_effects() {
    let mut s = SparseInteractionStore::new(2, 1, DuplicatePolicy::Overwrite);
    s.insert(1, 10, 100).unwrap();
    // New user fits, new item does not: nothing may be registered.
    assert_eq!(s.insert(2, 20, 100), Err(RecError::CapacityExceeded));
    assert_eq!(s.n_users(), 1);
    assert_eq!(s.user_index(2), Err(RecError::UnknownUser));
    s.insert(2, 10, 100).unwrap();
    assert_eq!(s.insert(3, 10, 100), Err(RecError::CapacityExceeded));
    assert_eq!(s.n_users(), 2);
    // Known identifiers are still accepted at capacity.
    assert_eq!(s.insert(1, 10, 500), Ok((0, 0)));
}

#[test]
fn store_capacity_is_capped_at_the_index_space() {
    let s = SparseInteractionStore::new(usize::MAX, 5, DuplicatePolicy::Overwrite);
    assert_eq!(s.max_users(), MAX_DIM);
    assert_eq!(s.max_items(), 5);
}

#[test]
fn store_queries_for_unseen_identifiers_fail() {
    let mut s = SparseInteractionStore::new(10, 10, DuplicatePolicy::Overwrite);
    s.insert(1, 10, 100).unwrap();
    assert!(matches!(s.row(2), Err(RecError::UnknownUser)));
    assert!(matches!(s.column(11), Err(RecError::UnknownItem)));
    assert_eq!(s.user_index(2), Err(RecError::UnknownUser));
    assert_eq!(s.item_index(11), Err(RecError::UnknownItem));
    assert_eq!(s.weight(2, 10), Err(RecError::UnknownUser));
    assert_eq!(s.weight(1, 11), Err(RecError::UnknownItem));
    assert_eq!(s.weight(1, 10), Ok(Some(100)));
    assert_eq!(s.co_rated_items(1, 2), Err(RecError::UnknownUser));
}

#[test]
fn co_rated_items_intersects_two_rows() {
    let mut s = SparseInteractionStore::new(10, 10, DuplicatePolicy::Overwrite);
    for (u, i) in [(1u64, 30u64), (1, 10), (1, 20), (2, 20), (2, 40), (2, 30), (3, 40)] {
        s.insert(u, i, 100).unwrap();
    }
    // Item indices follow first appearance: 30 -> 0, 10 -> 1, 20 -> 2, 40 -> 3.
    assert_eq!(s.co_rated_items(1, 2), Ok(vec![0, 2]));
    assert_eq!(s.co_rated_items(2, 1), Ok(vec![0, 2]));
    assert_eq!(s.co_rated_items(1, 3), Ok(vec![]));
    assert_eq!(s.co_rated_items(1, 1), Ok(vec![0, 1, 2]));
}
