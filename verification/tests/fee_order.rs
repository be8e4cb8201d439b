use std::cmp::Ordering;

use rollup_core::rank::{rank_bytes, Rank};
use rollup_core::fee::types::{FeeEntry, FeeItem, FeeItemSender};
use rollup_core::types::{L2Transaction, WithdrawalRequestExtra};

fn item(nonce: u32, bytes: &[u8]) -> FeeItem {
    FeeItem::Tx(L2Transaction {
        from_id: 1,
        nonce,
        args: vec![],
        signature: vec![],
        raw: vec![],
        bytes: bytes.to_vec(),
    })
}

fn entry(fee: u128, cycles_limit: u64, order: usize) -> FeeEntry {
    FeeEntry { item: item(0, b"x"), order, sender: FeeItemSender::AccountId(1), fee, cycles_limit }
}

fn entry_with(fee: u128, cycles_limit: u64, order: usize, nonce: u32, bytes: &[u8]) -> FeeEntry {
    FeeEntry {
        item: item(nonce, bytes),
        order,
        sender: FeeItemSender::AccountId(1),
        fee,
        cycles_limit,
    }
}

fn flip(o: Ordering) -> Ordering {
    o.reverse()
}

#[test]
fn fee_priority() {
    let first = entry(100, 10, 0);
    let second = entry(150, 20, 1);
    assert_eq!(first.cmp(&second), Ordering::Greater);
    assert_eq!(second.cmp(&first), Ordering::Less);
    assert_eq!(first.rank(&second), Rank::Above);
    assert!(second < first);
    assert!(first > second);
    assert!(!(first < second));
    assert!(first >= second);
    // the later arrival with the higher rate still wins
    let third = entry(100, 10, 5);
    let fourth = entry(150, 20, 0);
    assert_eq!(third.cmp(&fourth), Ordering::Greater);
}

#[test]
fn fee_priority_tie_goes_to_the_earlier() {
    let early = entry(100, 10, 0);
    let late = entry(100, 10, 1);
    assert_eq!(early.cmp(&late), Ordering::Greater);
    assert_eq!(late.cmp(&early), Ordering::Less);
    // equal rates of different size
    let small = entry(100, 10, 3);
    let large = entry(200, 20, 2);
    assert_eq!(large.cmp(&small), Ordering::Greater);
}

#[test]
fn equal_rate_and_arrival_prefers_fewer_cycles() {
    let small = entry(100, 10, 4);
    let large = entry(200, 20, 4);
    assert_eq!(small.cmp(&large), Ordering::Greater);
    assert_eq!(large.cmp(&small), Ordering::Less);
}

#[test]
fn then_the_lower_nonce_then_the_lower_bytes() {
    let low = entry_with(100, 10, 4, 1, b"zz");
    let high = entry_with(100, 10, 4, 2, b"aa");
    assert_eq!(low.cmp(&high), Ordering::Greater);
    assert_eq!(high.cmp(&low), Ordering::Less);
    let a = entry_with(100, 10, 4, 1, b"aa");
    let b = entry_with(100, 10, 4, 1, b"ab");
    assert_eq!(a.cmp(&b), Ordering::Greater);
    assert_eq!(b.cmp(&a), Ordering::Less);
    let same = entry_with(100, 10, 4, 1, b"aa");
    assert_eq!(a.cmp(&same), Ordering::Equal);
    assert_eq!(a.partial_cmp(&same), Some(Ordering::Equal));
    assert_eq!(a.rank(&same), Rank::Level);
}

#[test]
fn items_compare_by_nonce_then_bytes() {
    assert_eq!(item(1, b"b").cmp(&item(2, b"a")), Ordering::Less);
    assert_eq!(item(2, b"a").cmp(&item(1, b"b")), Ordering::Greater);
    assert_eq!(item(1, b"a").cmp(&item(1, b"b")), Ordering::Less);
    assert_eq!(item(1, b"b").cmp(&item(1, b"a")), Ordering::Greater);
    assert_eq!(item(1, b"a").cmp(&item(1, b"a")), Ordering::Equal);
    assert_eq!(item(1, b"a").partial_cmp(&item(1, b"ab")), Some(Ordering::Less));
    assert!(item(1, b"a") < item(1, b"ab"));
    assert!(item(2, b"a") > item(1, b"ab"));
    let w = FeeItem::Withdrawal(WithdrawalRequestExtra {
        nonce: 1,
        fee: 0,
        raw: vec![],
        bytes: b"b".to_vec(),
    });
    assert_eq!(item(1, b"a").cmp(&w), Ordering::Less);
    assert_eq!(item(1, b"a").rank(&w), Rank::Below);
}

#[test]
fn bytes_rank_like_words() {
    assert_eq!(rank_bytes(b"", b""), Rank::Level);
    assert_eq!(rank_bytes(b"", b"a"), Rank::Below);
    assert_eq!(rank_bytes(b"a", b""), Rank::Above);
    assert_eq!(rank_bytes(b"ab", b"abc"), Rank::Below);
    assert_eq!(rank_bytes(b"abd", b"abc"), Rank::Above);
    assert_eq!(rank_bytes(b"b", b"abc"), Rank::Above);
    assert_eq!(rank_bytes(&[0xff], &[0x00, 0xff]), Rank::Above);
    for (a, b) in [(&b"ab"[..], &b"abc"[..]), (b"x", b"x"), (b"", b"q"), (b"zz", b"za")] {
        let want = match a.cmp(b) {
            Ordering::Less => Rank::Below,
            Ordering::Equal => Rank::Level,
            Ordering::Greater => Rank::Above,
        };
        assert_eq!(rank_bytes(a, b), want);
    }
}

#[test]
fn rate_products_saturate() {
    // both products exceed the largest number: the rates count as equal, arrival decides
    let a = entry(u128::MAX, u64::MAX, 0);
    let b = entry(u128::MAX - 1, u64::MAX - 1, 1);
    assert_eq!(a.cmp(&b), Ordering::Greater);
    assert_eq!(b.cmp(&a), Ordering::Less);
    // one product saturates, the other does not
    let c = entry(u128::MAX, 1, 5);
    let d = entry(1, 1, 0);
    assert_eq!(c.cmp(&d), Ordering::Greater);
}

#[test]
fn ordering_over_a_population() {
    let mut all = Vec::new();
    let fees = [0u128, 1, 100, 150, 1 << 70];
    let cycles = [1u64, 10, 20, 1 << 40];
    let mut order = 0;
    for f in fees.iter() {
        for c in cycles.iter() {
            for nonce in 0..2u32 {
                all.push(entry_with(*f, *c, order % 3, nonce, &[order as u8 % 2]));
                order += 1;
            }
        }
    }
    for a in all.iter() {
        assert_eq!(a.cmp(a), Ordering::Equal);
        for b in all.iter() {
            assert_eq!(a.cmp(b), flip(b.cmp(a)));
            if a.cmp(b) == Ordering::Equal {
                assert_eq!(a.order, b.order);
                assert_eq!(a.cycles_limit, b.cycles_limit);
                assert_eq!(a.item, b.item);
            }
            for c in all.iter() {
                if a.cmp(b) != Ordering::Greater && b.cmp(c) != Ordering::Greater {
                    assert_ne!(a.cmp(c), Ordering::Greater);
                }
                if a.cmp(b) == Ordering::Less && b.cmp(c) == Ordering::Less {
                    assert_eq!(a.cmp(c), Ordering::Less);
                }
            }
        }
    }
}

#[test]
fn zero_cycles_break_the_chain() {
    // with a limit of zero cycles the rates no longer compare as fractions
    let a = entry(1, 0, 2);
    let b = entry(0, 0, 1);
    let c = entry(5, 1, 0);
    assert_eq!(a.cmp(&c), Ordering::Greater);
    assert_eq!(c.cmp(&b), Ordering::Greater);
    assert_eq!(b.cmp(&a), Ordering::Greater);
}
