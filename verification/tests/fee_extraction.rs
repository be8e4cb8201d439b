use rollup_core::error::{DecodeKind, Error};
use rollup_core::fee::args::{parse_eth_addr_reg_args, parse_meta_args, parse_sudt_args};
use rollup_core::fee::layout::{check_fixvec, read_num, table_offsets};
use rollup_core::fee::types::{
    parse_l2tx_fee_rate, parse_withdraw_fee_rate, saturating_mul, BackendType, FeeConfig,
    FeeEntry, FeeItem, FeeItemKind, FeeItemSender, L2Fee,
};
use rollup_core::hash::hash;
use rollup_core::types::{L2Transaction, WithdrawalRequestExtra};

fn config() -> FeeConfig {
    FeeConfig {
        meta_cycles_limit: 20000,
        eth_addr_reg_cycles_limit: 30000,
        sudt_cycles_limit: 40000,
        withdraw_cycles_limit: 50000,
    }
}

fn le32(x: u32) -> Vec<u8> {
    x.to_le_bytes().to_vec()
}

fn byte_vec(data: &[u8]) -> Vec<u8> {
    let mut r = le32(data.len() as u32);
    r.extend_from_slice(data);
    r
}

fn table(fields: &[Vec<u8>]) -> Vec<u8> {
    let header = 4 + 4 * fields.len();
    let total: usize = header + fields.iter().map(|f| f.len()).sum::<usize>();
    let mut r = le32(total as u32);
    let mut at = header;
    for f in fields {
        r.extend_from_slice(&le32(at as u32));
        at += f.len();
    }
    for f in fields {
        r.extend_from_slice(f);
    }
    r
}

fn fee(registry_id: u32, amount: u128) -> Vec<u8> {
    let mut r = le32(registry_id);
    r.extend_from_slice(&amount.to_le_bytes());
    r
}

fn script(args: &[u8]) -> Vec<u8> {
    table(&[vec![0x11u8; 32], vec![1u8], byte_vec(args)])
}

fn script_vec(scripts: &[Vec<u8>]) -> Vec<u8> {
    if scripts.is_empty() {
        le32(4)
    } else {
        table(scripts)
    }
}

fn union(id: u32, item: Vec<u8>) -> Vec<u8> {
    let mut r = le32(id);
    r.extend_from_slice(&item);
    r
}

fn tx_with(from_id: u32, args: Vec<u8>, signature: Vec<u8>) -> L2Transaction {
    L2Transaction { from_id, nonce: 5, args, signature, raw: vec![1, 2, 3], bytes: vec![4, 5, 6] }
}

fn polyjuice_args(gas_limit: u64, gas_price: u128, tail: usize) -> Vec<u8> {
    let mut args = vec![0u8; 8];
    args.extend_from_slice(&gas_limit.to_le_bytes());
    args.extend_from_slice(&gas_price.to_le_bytes());
    args.extend_from_slice(&vec![0u8; tail]);
    args
}

const MALFORMED: Error = Error::DecodeError(DecodeKind::Malformed);

#[test]
fn polyjuice_fee_extraction() {
    for extra in [0usize, 1, 100] {
        let tx = tx_with(3, polyjuice_args(21000, 2_000_000_000, 16 + 4 + extra), vec![]);
        assert_eq!(
            parse_l2tx_fee_rate(&config(), &tx, BackendType::Polyjuice),
            Ok(L2Fee { fee: 42_000_000_000_000, cycles_limit: 21000 })
        );
    }
}

#[test]
fn polyjuice_args_shorter_than_52_bytes() {
    for len in [0usize, 31, 51] {
        let tx = tx_with(3, vec![1u8; len], vec![]);
        assert_eq!(
            parse_l2tx_fee_rate(&config(), &tx, BackendType::Polyjuice),
            Err(Error::DecodeError(DecodeKind::InvalidPolyjuiceArgs))
        );
    }
    let tx = tx_with(3, vec![0u8; 52], vec![]);
    assert_eq!(
        parse_l2tx_fee_rate(&config(), &tx, BackendType::Polyjuice),
        Ok(L2Fee { fee: 0, cycles_limit: 0 })
    );
}

#[test]
fn polyjuice_fee_saturates() {
    let tx = tx_with(3, polyjuice_args(u64::MAX, u128::MAX, 20), vec![]);
    assert_eq!(
        parse_l2tx_fee_rate(&config(), &tx, BackendType::Polyjuice),
        Ok(L2Fee { fee: u128::MAX, cycles_limit: u64::MAX })
    );
    assert_eq!(saturating_mul(u128::MAX, 2), u128::MAX);
    assert_eq!(saturating_mul(u128::MAX, 1), u128::MAX);
    assert_eq!(saturating_mul(1u128 << 127, 2), u128::MAX);
    assert_eq!(saturating_mul((1u128 << 127) - 1, 2), u128::MAX - 1);
    assert_eq!(saturating_mul(7, 6), 42);
    assert_eq!(saturating_mul(0, u64::MAX), 0);
}

#[test]
fn unknown_backend_is_refused() {
    let tx = tx_with(3, polyjuice_args(1, 1, 20), vec![]);
    assert_eq!(
        parse_l2tx_fee_rate(&config(), &tx, BackendType::Unknown),
        Err(Error::UnknownBackend)
    );
    assert_eq!(
        FeeEntry::from_tx(tx, &config(), BackendType::Unknown, 0),
        Err(Error::UnknownBackend)
    );
}

#[test]
fn meta_create_account_fee() {
    let args = union(0, table(&[script(b"abc"), fee(2, 1234)]));
    assert_eq!(parse_meta_args(&args), Some(1234));
    let tx = tx_with(3, args, vec![]);
    assert_eq!(
        parse_l2tx_fee_rate(&config(), &tx, BackendType::Meta),
        Ok(L2Fee { fee: 1234, cycles_limit: 20000 })
    );
}

#[test]
fn meta_batch_create_fee() {
    let two = union(1, table(&[script_vec(&[script(b""), script(b"xy")]), fee(2, u128::MAX)]));
    assert_eq!(parse_meta_args(&two), Some(u128::MAX));
    let none = union(1, table(&[script_vec(&[]), fee(2, 9)]));
    assert_eq!(parse_meta_args(&none), Some(9));
}

#[test]
fn meta_args_malformed() {
    assert_eq!(parse_meta_args(&[]), None);
    assert_eq!(parse_meta_args(&[0, 0, 0]), None);
    // an item number that the contract does not have
    assert_eq!(parse_meta_args(&union(2, table(&[script(b"abc"), fee(2, 1)]))), None);
    // a fee of the wrong size
    let mut short_fee = fee(2, 1);
    short_fee.pop();
    assert_eq!(parse_meta_args(&union(0, table(&[script(b"abc"), short_fee]))), None);
    // a third field
    assert_eq!(parse_meta_args(&union(0, table(&[script(b"abc"), fee(2, 1), vec![]]))), None);
    // a script whose code hash is short
    let bad_script = table(&[vec![0x11u8; 31], vec![1u8], byte_vec(b"abc")]);
    assert_eq!(parse_meta_args(&union(0, table(&[bad_script.clone(), fee(2, 1)]))), None);
    assert_eq!(
        parse_meta_args(&union(1, table(&[script_vec(&[script(b""), bad_script]), fee(2, 1)]))),
        None
    );
    // a size that is not the payload's
    let mut good = union(0, table(&[script(b"abc"), fee(2, 1)]));
    good.push(0);
    assert_eq!(parse_meta_args(&good), None);
    // script arguments that announce more bytes than they hold
    let mut lying = byte_vec(b"abc");
    lying[0] = 4;
    let lying_script = table(&[vec![0x11u8; 32], vec![1u8], lying]);
    assert_eq!(parse_meta_args(&union(0, table(&[lying_script, fee(2, 1)]))), None);
    let tx = tx_with(3, vec![9, 9, 9, 9, 9], vec![]);
    assert_eq!(parse_l2tx_fee_rate(&config(), &tx, BackendType::Meta), Err(MALFORMED));
    assert_eq!(FeeEntry::from_tx(tx, &config(), BackendType::Meta, 0), Err(MALFORMED));
}

#[test]
fn sudt_fees() {
    let query = union(0, table(&[byte_vec(b"address")]));
    assert_eq!(parse_sudt_args(&query), Some(0));
    let transfer = union(1, table(&[byte_vec(b"to"), vec![7u8; 32], fee(2, 77)]));
    assert_eq!(parse_sudt_args(&transfer), Some(77));
    let tx = tx_with(3, transfer, vec![]);
    assert_eq!(
        parse_l2tx_fee_rate(&config(), &tx, BackendType::Sudt),
        Ok(L2Fee { fee: 77, cycles_limit: 40000 })
    );
    let tx = tx_with(3, query, vec![]);
    assert_eq!(
        parse_l2tx_fee_rate(&config(), &tx, BackendType::Sudt),
        Ok(L2Fee { fee: 0, cycles_limit: 40000 })
    );
}

#[test]
fn sudt_args_malformed() {
    assert_eq!(parse_sudt_args(&[1, 0, 0]), None);
    assert_eq!(parse_sudt_args(&union(2, table(&[byte_vec(b"a")]))), None);
    assert_eq!(parse_sudt_args(&union(0, table(&[byte_vec(b"a"), vec![]]))), None);
    assert_eq!(parse_sudt_args(&union(0, table(&[vec![1u8, 0, 0, 0]]))), None);
    // an amount of 31 bytes
    assert_eq!(
        parse_sudt_args(&union(1, table(&[byte_vec(b"to"), vec![7u8; 31], fee(2, 77)]))),
        None
    );
    let tx = tx_with(3, vec![], vec![]);
    assert_eq!(parse_l2tx_fee_rate(&config(), &tx, BackendType::Sudt), Err(MALFORMED));
}

#[test]
fn eth_addr_reg_fees() {
    assert_eq!(parse_eth_addr_reg_args(&union(0, vec![1u8; 20])), Some(0));
    assert_eq!(parse_eth_addr_reg_args(&union(1, vec![1u8; 32])), Some(0));
    let mut set = vec![1u8; 32];
    set.extend_from_slice(&fee(2, 500));
    assert_eq!(parse_eth_addr_reg_args(&union(2, set.clone())), Some(500));
    let mut hashes = le32(2);
    hashes.extend_from_slice(&[3u8; 64]);
    let batch = union(3, table(&[hashes, fee(2, 600)]));
    assert_eq!(parse_eth_addr_reg_args(&batch), Some(600));
    let tx = tx_with(3, union(2, set), vec![]);
    assert_eq!(
        parse_l2tx_fee_rate(&config(), &tx, BackendType::EthAddrReg),
        Ok(L2Fee { fee: 500, cycles_limit: 30000 })
    );
}

#[test]
fn eth_addr_reg_args_malformed() {
    assert_eq!(parse_eth_addr_reg_args(&union(0, vec![1u8; 21])), None);
    assert_eq!(parse_eth_addr_reg_args(&union(1, vec![1u8; 20])), None);
    assert_eq!(parse_eth_addr_reg_args(&union(2, vec![1u8; 51])), None);
    assert_eq!(parse_eth_addr_reg_args(&union(4, vec![1u8; 20])), None);
    let mut hashes = le32(2);
    hashes.extend_from_slice(&[3u8; 63]);
    assert_eq!(parse_eth_addr_reg_args(&union(3, table(&[hashes, fee(2, 600)]))), None);
    let tx = tx_with(3, vec![0, 0, 0, 0], vec![]);
    assert_eq!(parse_l2tx_fee_rate(&config(), &tx, BackendType::EthAddrReg), Err(MALFORMED));
}

#[test]
fn layout_primitives() {
    assert_eq!(read_num(&[1, 2, 3, 4, 5], 1), 0x0504_0302);
    assert!(check_fixvec(&byte_vec(b"abc"), 1));
    assert!(check_fixvec(&le32(0), 1));
    assert!(!check_fixvec(&[0, 0, 0], 1));
    assert!(!check_fixvec(&[1, 0, 0, 0], 1));
    let t = table(&[vec![1u8, 2], vec![], vec![3u8]]);
    assert_eq!(table_offsets(&t, 3), Some(vec![16, 18, 18, 19]));
    assert_eq!(table_offsets(&t, 2), None);
    let mut unsorted = t.clone();
    unsorted[8] = 17;
    unsorted[12] = 16;
    assert_eq!(table_offsets(&unsorted, 3), None);
    let mut beyond = t.clone();
    beyond[12] = 20;
    assert_eq!(table_offsets(&beyond, 3), None);
}

#[test]
fn withdrawal_fee() {
    let w = WithdrawalRequestExtra { nonce: 4, fee: 321, raw: vec![1], bytes: vec![2] };
    assert_eq!(
        parse_withdraw_fee_rate(&config(), &w),
        Ok(L2Fee { fee: 321, cycles_limit: 50000 })
    );
    let entry = FeeEntry::from_withdrawal(w.clone(), 12, &config(), 7).unwrap();
    assert_eq!(
        entry,
        FeeEntry {
            item: FeeItem::Withdrawal(w.clone()),
            order: 7,
            sender: FeeItemSender::AccountId(12),
            fee: 321,
            cycles_limit: 50000,
        }
    );
    assert_eq!(entry.item.kind(), FeeItemKind::Withdrawal);
    assert_eq!(entry.item.nonce(), 4);
    assert_eq!(entry.item.hash(), hash(&[1]));
    assert_eq!(entry.item.inner_slice(), &[2u8][..]);
}

#[test]
fn entry_of_a_transaction() {
    let tx = tx_with(9, polyjuice_args(21000, 3, 20), vec![8u8; 65]);
    let entry = FeeEntry::from_tx(tx.clone(), &config(), BackendType::Polyjuice, 11).unwrap();
    assert_eq!(entry.sender, FeeItemSender::AccountId(9));
    assert_eq!(entry.fee, 63000);
    assert_eq!(entry.cycles_limit, 21000);
    assert_eq!(entry.order, 11);
    assert_eq!(entry.item, FeeItem::Tx(tx.clone()));
    assert_eq!(entry.item.kind(), FeeItemKind::Tx);
    assert_eq!(entry.item.nonce(), 5);
    assert_eq!(entry.item.hash(), hash(&tx.raw));
    assert_eq!(entry.item.hash(), tx.hash());
}

#[test]
fn pending_create_collision() {
    // the same raw transaction, and so the same transaction hash, under two signatures
    let first = tx_with(0, polyjuice_args(21000, 3, 20), vec![1u8; 65]);
    let second = tx_with(0, polyjuice_args(21000, 3, 20), vec![2u8; 65]);
    assert_eq!(first.hash(), second.hash());
    let a = FeeEntry::from_tx(first.clone(), &config(), BackendType::Polyjuice, 0).unwrap();
    let b = FeeEntry::from_tx(second.clone(), &config(), BackendType::Polyjuice, 1).unwrap();
    assert_eq!(a.item.kind(), FeeItemKind::PendingCreateSenderTx);
    assert_eq!(a.sender, FeeItemSender::PendingCreate(hash(&[1u8; 65])));
    assert_eq!(b.sender, FeeItemSender::PendingCreate(hash(&[2u8; 65])));
    assert_ne!(a.sender, b.sender);
    assert_eq!(a.item.hash(), hash(&first.signature));
    assert_ne!(a.item.hash(), b.item.hash());
    // the same signature gives the same tag
    let again = FeeEntry::from_tx(first, &config(), BackendType::Polyjuice, 2).unwrap();
    assert_eq!(a.sender, again.sender);
}
