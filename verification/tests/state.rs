use rollup_core::transaction::StoreTransaction;

const ZERO: [u8; 32] = [0u8; 32];

fn h(seed: u8) -> [u8; 32] {
    let mut r = [0u8; 32];
    r[0] = seed;
    r[31] = seed.wrapping_mul(3).wrapping_add(1);
    r
}

#[test]
fn unset_key_reads_zero() {
    let store = StoreTransaction::new();
    assert_eq!(store.get_raw(&h(1)), Ok(ZERO));
}

#[test]
fn update_then_read() {
    let mut store = StoreTransaction::new();
    assert_eq!(store.update_raw(h(1), h(2)), Ok(()));
    assert_eq!(store.get_raw(&h(1)), Ok(h(2)));
    assert_eq!(store.get_raw(&h(3)), Ok(ZERO));
    store.update_raw(h(1), h(4)).unwrap();
    assert_eq!(store.get_raw(&h(1)), Ok(h(4)));
}

#[test]
fn update_changes_the_calculated_root_and_not_the_recorded_one() {
    let mut store = StoreTransaction::new();
    store.update_raw(h(1), h(2)).unwrap();
    let root = store.calculate_root().unwrap();
    assert_ne!(root, ZERO);
    assert_eq!(store.get_account_smt_root(), Ok(ZERO));
    store.set_account_smt_root(root).unwrap();
    assert_eq!(store.get_account_smt_root(), Ok(root));
}

#[test]
fn zero_value_removes_the_key() {
    let mut store = StoreTransaction::new();
    store.update_raw(h(1), h(2)).unwrap();
    store.update_raw(h(5), h(6)).unwrap();
    let both = store.calculate_root().unwrap();
    store.update_raw(h(5), ZERO).unwrap();
    assert_eq!(store.get_raw(&h(5)), Ok(ZERO));
    let mut single = StoreTransaction::new();
    single.update_raw(h(1), h(2)).unwrap();
    assert_eq!(store.calculate_root(), single.calculate_root());
    assert_ne!(store.calculate_root(), Ok(both));
    store.update_raw(h(1), ZERO).unwrap();
    assert_eq!(store.calculate_root(), Ok(ZERO));
}

#[test]
fn root_does_not_depend_on_the_order_of_updates() {
    let pairs: Vec<([u8; 32], [u8; 32])> = (1u8..=6).map(|i| (h(i), h(i + 100))).collect();
    let mut sorted = pairs.clone();
    sorted.sort();
    let mut reference = StoreTransaction::new();
    for (k, v) in &sorted {
        reference.update_raw(*k, *v).unwrap();
    }
    let want = reference.calculate_root().unwrap();
    let orders: [[usize; 6]; 4] =
        [[0, 1, 2, 3, 4, 5], [5, 4, 3, 2, 1, 0], [2, 0, 5, 1, 4, 3], [3, 5, 0, 4, 1, 2]];
    for order in orders.iter() {
        let mut store = StoreTransaction::new();
        for i in order.iter() {
            store.update_raw(pairs[*i].0, pairs[*i].1).unwrap();
        }
        assert_eq!(store.calculate_root(), Ok(want));
        for (k, v) in &pairs {
            assert_eq!(store.get_raw(k), Ok(*v));
        }
    }
}

#[test]
fn account_tree_and_block_tree_are_apart() {
    let mut store = StoreTransaction::new();
    store.update_raw(h(1), h(2)).unwrap();
    assert_eq!(store.get_block_smt_root(), Ok(ZERO));
}
