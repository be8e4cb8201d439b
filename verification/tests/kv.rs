use rollup_core::keys::{COLUMN_BLOCK, COLUMN_INDEX, COLUMN_META};
use rollup_core::kv::{Direction, IteratorMode, KVStore, KvTable};
use rollup_core::transaction::StoreTransaction;

#[test]
fn empty_table_holds_nothing() {
    let t = KvTable::new();
    assert_eq!(t.get(COLUMN_META, b"k"), None);
    assert!(!t.contains(COLUMN_META, b"k"));
}

#[test]
fn insert_then_get() {
    let mut t = KvTable::new();
    t.insert(COLUMN_META, b"k", b"v1");
    assert_eq!(t.get(COLUMN_META, b"k"), Some(b"v1".to_vec()));
    assert!(t.contains(COLUMN_META, b"k"));
    // another column is another keyspace
    assert_eq!(t.get(COLUMN_BLOCK, b"k"), None);
}

#[test]
fn insert_overwrites() {
    let mut t = KvTable::new();
    t.insert(COLUMN_META, b"k", b"v1");
    t.insert(COLUMN_META, b"k", b"v2");
    assert_eq!(t.get(COLUMN_META, b"k"), Some(b"v2".to_vec()));
    t.remove(COLUMN_META, b"k");
    assert_eq!(t.get(COLUMN_META, b"k"), None);
}

#[test]
fn remove_leaves_the_rest() {
    let mut t = KvTable::new();
    t.insert(COLUMN_INDEX, b"a", b"1");
    t.insert(COLUMN_INDEX, b"b", b"2");
    t.insert(COLUMN_INDEX, b"c", b"3");
    t.remove(COLUMN_INDEX, b"a");
    t.remove(COLUMN_INDEX, b"missing");
    assert_eq!(t.get(COLUMN_INDEX, b"a"), None);
    assert_eq!(t.get(COLUMN_INDEX, b"b"), Some(b"2".to_vec()));
    assert_eq!(t.get(COLUMN_INDEX, b"c"), Some(b"3".to_vec()));
}

#[test]
fn snapshot_does_not_follow_later_writes() {
    let mut t = KvTable::new();
    t.insert(COLUMN_INDEX, b"a", b"1");
    let snap = t.snapshot();
    t.insert(COLUMN_INDEX, b"a", b"2");
    t.insert(COLUMN_INDEX, b"b", b"3");
    assert_eq!(snap.get(COLUMN_INDEX, b"a"), Some(b"1".to_vec()));
    assert_eq!(snap.get(COLUMN_INDEX, b"b"), None);
    assert_eq!(t.get(COLUMN_INDEX, b"a"), Some(b"2".to_vec()));
}

#[test]
fn table_through_the_store_trait() {
    let mut t = KvTable::new();
    assert_eq!(KVStore::insert_raw(&mut t, COLUMN_META, b"k", b"v"), Ok(()));
    assert_eq!(KVStore::get(&t, COLUMN_META, b"k"), Some(b"v".to_vec()));
    assert_eq!(KVStore::delete(&mut t, COLUMN_META, b"k"), Ok(()));
    assert_eq!(KVStore::get(&t, COLUMN_META, b"k"), None);
}

fn filled() -> KvTable {
    let mut t = KvTable::new();
    for key in [&b"b"[..], b"a", b"ab", b"", b"c", b"\xff", b"a\x00"] {
        let mut value = b"v-".to_vec();
        value.extend_from_slice(key);
        t.insert(COLUMN_INDEX, key, &value);
    }
    t.insert(COLUMN_META, b"aa", b"other column");
    t
}

fn keys(rows: Vec<(Vec<u8>, Vec<u8>)>) -> Vec<Vec<u8>> {
    for (k, v) in rows.iter() {
        let mut want = b"v-".to_vec();
        want.extend_from_slice(k);
        assert_eq!(v, &want);
    }
    rows.into_iter().map(|(k, _)| k).collect()
}

fn list(all: &[&[u8]]) -> Vec<Vec<u8>> {
    all.iter().map(|k| k.to_vec()).collect()
}

#[test]
fn iteration_from_the_start_rises() {
    let t = filled();
    assert_eq!(
        keys(t.iter(COLUMN_INDEX, IteratorMode::Start)),
        list(&[b"", b"a", b"a\x00", b"ab", b"b", b"c", b"\xff"])
    );
    assert_eq!(t.iter(COLUMN_BLOCK, IteratorMode::Start), vec![]);
    assert_eq!(
        t.iter(COLUMN_META, IteratorMode::Start),
        vec![(b"aa".to_vec(), b"other column".to_vec())]
    );
}

#[test]
fn iteration_from_the_end_falls() {
    let t = filled();
    assert_eq!(
        keys(t.iter(COLUMN_INDEX, IteratorMode::End)),
        list(&[b"\xff", b"c", b"b", b"ab", b"a\x00", b"a", b""])
    );
}

#[test]
fn iteration_from_a_key() {
    let t = filled();
    assert_eq!(
        keys(t.iter(COLUMN_INDEX, IteratorMode::From(b"ab", Direction::Forward))),
        list(&[b"ab", b"b", b"c", b"\xff"])
    );
    assert_eq!(
        keys(t.iter(COLUMN_INDEX, IteratorMode::From(b"ab", Direction::Reverse))),
        list(&[b"ab", b"a\x00", b"a", b""])
    );
    // a key that the column does not hold
    assert_eq!(
        keys(t.iter(COLUMN_INDEX, IteratorMode::From(b"aa", Direction::Forward))),
        list(&[b"ab", b"b", b"c", b"\xff"])
    );
    assert_eq!(
        keys(t.iter(COLUMN_INDEX, IteratorMode::From(b"aa", Direction::Reverse))),
        list(&[b"a\x00", b"a", b""])
    );
    assert_eq!(
        keys(t.iter(COLUMN_INDEX, IteratorMode::From(b"", Direction::Reverse))),
        list(&[b""])
    );
    assert_eq!(
        t.iter(COLUMN_INDEX, IteratorMode::From(b"\xff\x00", Direction::Forward)),
        vec![]
    );
}

#[test]
fn iteration_over_a_transaction() {
    let mut store = StoreTransaction::new();
    store.insert_raw(COLUMN_INDEX, b"k2", b"2").unwrap();
    store.insert_raw(COLUMN_INDEX, b"k1", b"1").unwrap();
    store.insert_raw(COLUMN_INDEX, b"k3", b"3").unwrap();
    store.delete(COLUMN_INDEX, b"k3").unwrap();
    assert_eq!(
        store.get_iter(COLUMN_INDEX, IteratorMode::Start),
        vec![(b"k1".to_vec(), b"1".to_vec()), (b"k2".to_vec(), b"2".to_vec())]
    );
    assert_eq!(
        store.get_iter(COLUMN_INDEX, IteratorMode::End),
        vec![(b"k2".to_vec(), b"2".to_vec()), (b"k1".to_vec(), b"1".to_vec())]
    );
    // the fresh store's own rows
    let meta: Vec<Vec<u8>> = store
        .get_iter(COLUMN_META, IteratorMode::Start)
        .into_iter()
        .map(|(k, _)| k)
        .collect();
    assert_eq!(
        meta,
        vec![
            b"ACCOUNT_SMT_COUNT".to_vec(),
            b"ACCOUNT_SMT_ROOT".to_vec(),
            b"BLOCK_SMT_ROOT".to_vec()
        ]
    );
}

fn sorted<T: Ord>(mut rows: Vec<T>) -> Vec<T> {
    rows.sort();
    rows
}

#[test]
fn changes_are_the_rows_that_differ() {
    let mut base = KvTable::new();
    base.insert(COLUMN_INDEX, b"same", b"1");
    base.insert(COLUMN_INDEX, b"changed", b"1");
    base.insert(COLUMN_INDEX, b"gone", b"1");
    base.insert(COLUMN_META, b"gone", b"kept in another column");
    let mut now = base.snapshot();
    now.insert(COLUMN_INDEX, b"changed", b"2");
    now.insert(COLUMN_INDEX, b"new", b"3");
    now.insert(COLUMN_BLOCK, b"same", b"4");
    now.remove(COLUMN_INDEX, b"gone");
    let changes = now.changes_since(&base);
    assert_eq!(
        sorted(changes.puts),
        sorted(vec![
            (COLUMN_INDEX, b"changed".to_vec(), b"2".to_vec()),
            (COLUMN_INDEX, b"new".to_vec(), b"3".to_vec()),
            (COLUMN_BLOCK, b"same".to_vec(), b"4".to_vec()),
        ])
    );
    assert_eq!(changes.deletes, vec![(COLUMN_INDEX, b"gone".to_vec())]);

    // nothing has changed
    let none = base.changes_since(&base);
    assert_eq!(none.puts, vec![]);
    assert_eq!(none.deletes, vec![]);
    // against the empty table everything is to put
    let all = base.changes_since(&KvTable::new());
    assert_eq!(all.puts.len(), 4);
    assert_eq!(all.deletes, vec![]);
    let back = KvTable::new().changes_since(&base);
    assert_eq!(back.puts, vec![]);
    assert_eq!(back.deletes.len(), 4);
}

#[test]
fn a_transaction_reports_its_own_writes() {
    let mut store = StoreTransaction::new();
    let found = store.get_snapshot();
    store.insert_raw(COLUMN_INDEX, b"a", b"9").unwrap();
    store.insert_raw(COLUMN_INDEX, b"c", b"3").unwrap();
    store.delete(COLUMN_META, b"ACCOUNT_SMT_COUNT").unwrap();
    let changes = store.changes_since(&found);
    assert_eq!(
        sorted(changes.puts),
        vec![
            (COLUMN_INDEX, b"a".to_vec(), b"9".to_vec()),
            (COLUMN_INDEX, b"c".to_vec(), b"3".to_vec()),
        ]
    );
    assert_eq!(changes.deletes, vec![(COLUMN_META, b"ACCOUNT_SMT_COUNT".to_vec())]);

    // applied to what the transaction found, they give the transaction's table
    let mut applied = KvTable::new();
    for (key, value) in found.get_iter(COLUMN_META, IteratorMode::Start) {
        applied.insert(COLUMN_META, &key, &value);
    }
    for (col, key, value) in store.changes_since(&found).puts {
        applied.insert(col, &key, &value);
    }
    for (col, key) in store.changes_since(&found).deletes {
        applied.remove(col, &key);
    }
    for col in 0u8..14 {
        assert_eq!(
            applied.iter(col, IteratorMode::Start),
            store.get_iter(col, IteratorMode::Start)
        );
    }
}
