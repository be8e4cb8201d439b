use rollup_core::error::Error;
use rollup_core::fee::queue::{sender_eq, FeeQueue};
use rollup_core::fee::types::{FeeEntry, FeeItem, FeeItemSender};
use rollup_core::types::L2Transaction;

fn entry(sender: FeeItemSender, nonce: u32, fee: u128, cycles_limit: u64, order: usize) -> FeeEntry {
    FeeEntry {
        item: FeeItem::Tx(L2Transaction {
            from_id: 1,
            nonce,
            args: vec![],
            signature: vec![],
            raw: vec![nonce as u8],
            bytes: vec![order as u8, nonce as u8],
        }),
        order,
        sender,
        fee,
        cycles_limit,
    }
}

fn account(id: u32) -> FeeItemSender {
    FeeItemSender::AccountId(id)
}

fn pending(seed: u8) -> FeeItemSender {
    FeeItemSender::PendingCreate([seed; 32])
}

#[test]
fn empty_queue_gives_nothing() {
    let mut q = FeeQueue::new();
    assert_eq!(q.len(), 0);
    assert_eq!(q.pop(), None);
    assert_eq!(q.len(), 0);
}

#[test]
fn pop_takes_the_highest_rate_first() {
    let mut q = FeeQueue::new();
    let first = entry(account(1), 0, 100, 10, 0);
    let second = entry(account(2), 0, 150, 20, 1);
    let third = entry(account(3), 0, 1000, 10, 2);
    assert_eq!(q.insert(second.clone()), Ok(None));
    assert_eq!(q.insert(first.clone()), Ok(None));
    assert_eq!(q.insert(third.clone()), Ok(None));
    assert_eq!(q.len(), 3);
    assert_eq!(q.pop(), Some(third));
    assert_eq!(q.pop(), Some(first));
    assert_eq!(q.pop(), Some(second));
    assert_eq!(q.pop(), None);
}

#[test]
fn equal_rates_are_taken_in_order_of_arrival() {
    let mut q = FeeQueue::new();
    let late = entry(account(1), 0, 100, 10, 5);
    let early = entry(account(2), 0, 100, 10, 2);
    q.insert(late.clone()).unwrap();
    q.insert(early.clone()).unwrap();
    assert_eq!(q.pop(), Some(early));
    assert_eq!(q.pop(), Some(late));
}

#[test]
fn only_the_lowest_nonce_of_a_sender_may_be_taken() {
    let mut q = FeeQueue::new();
    let first = entry(account(1), 3, 1, 10, 0);
    let second = entry(account(1), 4, 1_000_000, 10, 1);
    let other = entry(account(2), 9, 50, 10, 2);
    q.insert(second.clone()).unwrap();
    q.insert(first.clone()).unwrap();
    q.insert(other.clone()).unwrap();
    // the rich entry waits behind its sender's lower nonce
    assert_eq!(q.pop(), Some(other));
    assert_eq!(q.pop(), Some(first));
    assert_eq!(q.pop(), Some(second));
    assert_eq!(q.pop(), None);
}

#[test]
fn duplicate_nonce_is_refused_unless_it_pays_more() {
    let mut q = FeeQueue::new();
    let old = entry(account(1), 7, 100, 10, 0);
    q.insert(old.clone()).unwrap();
    assert!(q.contains(&account(1), 7));
    assert!(!q.contains(&account(1), 8));
    assert!(!q.contains(&account(2), 7));
    let held = old.item.hash();
    // the same rate, arrived later: ranks below
    assert_eq!(q.insert(entry(account(1), 7, 100, 10, 1)), Err(Error::DuplicateNonce(held)));
    // a lower rate
    assert_eq!(q.insert(entry(account(1), 7, 99, 10, 2)), Err(Error::DuplicateNonce(held)));
    assert_eq!(q.len(), 1);
    // a higher rate replaces, and the old entry comes back
    let better = entry(account(1), 7, 101, 10, 3);
    assert_eq!(q.insert(better.clone()), Ok(Some(old)));
    assert_eq!(q.len(), 1);
    assert_eq!(q.pop(), Some(better));
    // another sender under the same nonce is no duplicate
    q.insert(entry(account(1), 7, 1, 10, 4)).unwrap();
    assert_eq!(q.insert(entry(account(2), 7, 1, 10, 5)), Ok(None));
    assert_eq!(q.insert(entry(pending(1), 7, 1, 10, 6)), Ok(None));
    assert_eq!(q.insert(entry(pending(2), 7, 1, 10, 7)), Ok(None));
    assert_eq!(q.len(), 4);
}

#[test]
fn pending_senders_have_chains_of_their_own() {
    let mut q = FeeQueue::new();
    let a0 = entry(pending(1), 0, 10, 10, 0);
    let a1 = entry(pending(1), 1, 500, 10, 1);
    let b0 = entry(pending(2), 0, 20, 10, 2);
    q.insert(a1.clone()).unwrap();
    q.insert(a0.clone()).unwrap();
    q.insert(b0.clone()).unwrap();
    assert_eq!(q.pop(), Some(b0));
    assert_eq!(q.pop(), Some(a0));
    assert_eq!(q.pop(), Some(a1));
}

#[test]
fn account_creation_merges_the_pending_chain() {
    let mut q = FeeQueue::new();
    let low = entry(pending(1), 0, 10, 10, 0);
    let high = entry(pending(1), 2, 10, 10, 1);
    let a1 = entry(account(5), 1, 10, 10, 2);
    let other = entry(pending(2), 0, 1, 10, 3);
    q.insert(high.clone()).unwrap();
    q.insert(a1.clone()).unwrap();
    q.insert(low.clone()).unwrap();
    q.insert(other.clone()).unwrap();
    assert_eq!(q.account_created([1u8; 32], 5), vec![]);
    assert_eq!(q.len(), 4);
    assert!(!q.contains(&pending(1), 0));
    assert!(q.contains(&account(5), 0));
    assert!(q.contains(&account(5), 1));
    assert!(q.contains(&account(5), 2));
    assert!(q.contains(&pending(2), 0));
    // one chain now, taken by nonce
    let mut taken = Vec::new();
    while let Some(e) = q.pop() {
        taken.push((e.sender, e.item.nonce()));
    }
    assert_eq!(
        taken,
        vec![(account(5), 0), (account(5), 1), (account(5), 2), (pending(2), 0)]
    );
}

#[test]
fn account_creation_settles_a_nonce_held_twice() {
    let mut q = FeeQueue::new();
    let rich_pending = entry(pending(1), 0, 900, 10, 0);
    let poor_account = entry(account(5), 0, 10, 10, 1);
    let poor_pending = entry(pending(1), 1, 10, 10, 2);
    let rich_account = entry(account(5), 1, 900, 10, 3);
    q.insert(rich_pending.clone()).unwrap();
    q.insert(poor_account.clone()).unwrap();
    q.insert(poor_pending.clone()).unwrap();
    q.insert(rich_account.clone()).unwrap();
    let left = q.account_created([1u8; 32], 5);
    let mut retagged_poor = poor_pending.clone();
    retagged_poor.sender = account(5);
    assert_eq!(left, vec![poor_account, retagged_poor]);
    assert_eq!(q.len(), 2);
    let mut retagged_rich = rich_pending.clone();
    retagged_rich.sender = account(5);
    assert_eq!(q.pop(), Some(retagged_rich));
    assert_eq!(q.pop(), Some(rich_account));
}

#[test]
fn account_creation_of_an_unknown_sender_changes_nothing() {
    let mut q = FeeQueue::new();
    let e = entry(account(1), 0, 10, 10, 0);
    q.insert(e.clone()).unwrap();
    assert_eq!(q.account_created([9u8; 32], 7), vec![]);
    assert_eq!(q.len(), 1);
    assert_eq!(q.pop(), Some(e));
}

#[test]
fn senders_compare_by_tag_and_content() {
    assert!(sender_eq(&account(1), &account(1)));
    assert!(!sender_eq(&account(1), &account(2)));
    assert!(sender_eq(&pending(1), &pending(1)));
    assert!(!sender_eq(&pending(1), &pending(2)));
    assert!(!sender_eq(&account(1), &pending(1)));
}
