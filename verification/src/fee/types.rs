//! Pending work and what it pays: items, their senders, and the entries that a queue ranks.
use vstd::prelude::*;
use crate::bytes::{le_value, lemma_pow256_values, read_le};
use crate::error::{DecodeKind, Error};
use crate::fee::args::{
    eth_addr_reg_args_fee, meta_args_fee, parse_eth_addr_reg_args, parse_meta_args,
    parse_sudt_args, sudt_args_fee,
};
use crate::hash::{digest, hash, Byte32};
use crate::types::{L2Transaction, WithdrawalRequestExtra};

verus! {

#[derive(PartialEq, Eq, Clone, Copy, Debug, Structural)]
pub enum FeeItemKind {
    Tx,
    PendingCreateSenderTx,
    Withdrawal,
}

/// The engine that interprets a transaction's arguments.
#[derive(PartialEq, Eq, Clone, Copy, Debug, Structural)]
pub enum BackendType {
    Meta,
    Sudt,
    Polyjuice,
    EthAddrReg,
    Unknown,
}

/// The cycles that work of each kind is estimated to take.
#[derive(PartialEq, Eq, Clone, Copy, Debug, Structural)]
pub struct FeeConfig {
    pub meta_cycles_limit: u64,
    pub eth_addr_reg_cycles_limit: u64,
    pub sudt_cycles_limit: u64,
    pub withdraw_cycles_limit: u64,
}

/// What an item pays, and the cycles it may take.
#[derive(PartialEq, Eq, Clone, Copy, Debug, Structural)]
pub struct L2Fee {
    pub fee: u128,
    pub cycles_limit: u64,
}

/// A transaction or a withdrawal.
#[derive(PartialEq, Eq, Clone, Debug)]
pub enum FeeItem {
    Tx(L2Transaction),
    Withdrawal(WithdrawalRequestExtra),
}

impl FeeItem {
    pub open spec fn nonce_spec(&self) -> u32 {
        match self {
            FeeItem::Tx(tx) => tx.nonce,
            FeeItem::Withdrawal(withdraw) => withdraw.nonce,
        }
    }

    pub fn nonce(&self) -> (r: u32)
        ensures
            r == self.nonce_spec(),
    {
        match self {
            FeeItem::Tx(tx) => tx.nonce,
            FeeItem::Withdrawal(withdraw) => withdraw.nonce,
        }
    }

    /// A transaction whose sender is account 0 comes from a sender yet to be created.
    pub open spec fn kind_spec(&self) -> FeeItemKind {
        match self {
            FeeItem::Tx(tx) => if tx.from_id == 0 {
                FeeItemKind::PendingCreateSenderTx
            } else {
                FeeItemKind::Tx
            },
            FeeItem::Withdrawal(_) => FeeItemKind::Withdrawal,
        }
    }

    pub fn kind(&self) -> (r: FeeItemKind)
        ensures
            r == self.kind_spec(),
    {
        match self {
            FeeItem::Tx(tx) => if tx.from_id == 0 {
                FeeItemKind::PendingCreateSenderTx
            } else {
                FeeItemKind::Tx
            },
            FeeItem::Withdrawal(_) => FeeItemKind::Withdrawal,
        }
    }

    /// What identifies the item. For a sender yet to be created it is the digest of the
    /// signature: transactions of several such senders can share a transaction hash.
    pub open spec fn hash_spec(&self) -> Seq<u8> {
        match self {
            FeeItem::Tx(tx) => if tx.from_id == 0 {
                digest(tx.signature@)
            } else {
                tx.hash_spec()
            },
            FeeItem::Withdrawal(withdrawal) => withdrawal.hash_spec(),
        }
    }

    pub fn hash(&self) -> (r: Byte32)
        ensures
            r@ == self.hash_spec(),
    {
        match self {
            FeeItem::Tx(tx) => if tx.from_id == 0 {
                hash(tx.signature.as_slice())
            } else {
                tx.hash()
            },
            FeeItem::Withdrawal(withdrawal) => withdrawal.hash(),
        }
    }

    /// The item's serialized bytes.
    pub open spec fn bytes_spec(&self) -> Seq<u8> {
        match self {
            FeeItem::Tx(tx) => tx.bytes@,
            FeeItem::Withdrawal(withdraw) => withdraw.bytes@,
        }
    }

    /// The item's serialized bytes.
    pub fn inner_slice(&self) -> (r: &[u8])
        ensures
            r@ == self.bytes_spec(),
    {
        match self {
            FeeItem::Tx(tx) => tx.bytes.as_slice(),
            FeeItem::Withdrawal(withdraw) => withdraw.bytes.as_slice(),
        }
    }
}

/// Whose work an item is: an account, or a sender whose account is yet to be created,
/// known by the digest of its signature.
#[derive(PartialEq, Eq, Clone, Copy, Debug, Hash)]
pub enum FeeItemSender {
    AccountId(u32),
    PendingCreate(Byte32),
}

/// Whether `sender` is the tag of the sender of `tx`.
pub open spec fn sender_of(tx: L2Transaction, sender: FeeItemSender) -> bool {
    if tx.from_id == 0 {
        sender matches FeeItemSender::PendingCreate(h) && h@ == digest(tx.signature@)
    } else {
        sender == FeeItemSender::AccountId(tx.from_id)
    }
}

/// An item in a queue, with what ranks it.
#[derive(PartialEq, Eq, Clone, Debug)]
pub struct FeeEntry {
    /// The transaction or withdrawal.
    pub item: FeeItem,
    /// The place in the queue's order of arrival.
    pub order: usize,
    pub sender: FeeItemSender,
    pub fee: u128,
    /// The cycles that the item is estimated to take.
    pub cycles_limit: u64,
}

/// `a * b`, or the largest number where the product is larger.
pub open spec fn saturating_product(a: u128, b: u64) -> u128 {
    if a * b > u128::MAX {
        u128::MAX
    } else {
        (a * b) as u128
    }
}

/// `a * b`, or the largest number where the product is larger.
pub fn saturating_mul(a: u128, b: u64) -> (r: u128)
    ensures
        r == saturating_product(a, b),
{
    match a.checked_mul(b as u128) {
        Some(p) => p,
        None => u128::MAX,
    }
}

/// What a withdrawal pays: the fee it names, for the cycles that the configuration
/// allots to a withdrawal.
pub open spec fn withdraw_fee(config: FeeConfig, fee: u128) -> L2Fee {
    L2Fee { fee, cycles_limit: config.withdraw_cycles_limit }
}

/// The gas limit in Polyjuice arguments: eight bytes from the eighth on.
pub open spec fn polyjuice_gas_limit(args: Seq<u8>) -> u64 {
    le_value(args.subrange(8, 16)) as u64
}

/// The gas price in Polyjuice arguments: sixteen bytes from the sixteenth on.
pub open spec fn polyjuice_gas_price(args: Seq<u8>) -> u128 {
    le_value(args.subrange(16, 32)) as u128
}

/// The fee of arguments read as those of a built-in contract, for `cycles_limit` cycles.
pub open spec fn decoded_fee(fee: Option<u128>, cycles_limit: u64) -> Result<L2Fee, Error> {
    match fee {
        Some(fee) => Ok(L2Fee { fee, cycles_limit }),
        None => Err(Error::DecodeError(DecodeKind::Malformed)),
    }
}

/// What a transaction with the arguments `args` pays under `backend`.
pub open spec fn l2tx_fee(config: FeeConfig, args: Seq<u8>, backend: BackendType) -> Result<
    L2Fee,
    Error,
> {
    match backend {
        BackendType::Meta => decoded_fee(meta_args_fee(args), config.meta_cycles_limit),
        BackendType::EthAddrReg => decoded_fee(
            eth_addr_reg_args_fee(args),
            config.eth_addr_reg_cycles_limit,
        ),
        BackendType::Sudt => decoded_fee(sudt_args_fee(args), config.sudt_cycles_limit),
        BackendType::Polyjuice => if args.len() < 52 {
            Err(Error::DecodeError(DecodeKind::InvalidPolyjuiceArgs))
        } else {
            Ok(
                L2Fee {
                    fee: saturating_product(polyjuice_gas_price(args), polyjuice_gas_limit(args)),
                    cycles_limit: polyjuice_gas_limit(args),
                },
            )
        },
        BackendType::Unknown => Err(Error::UnknownBackend),
    }
}

/// What a withdrawal pays.
pub fn parse_withdraw_fee_rate(fee_config: &FeeConfig, raw_withdraw: &WithdrawalRequestExtra) -> (r:
    Result<L2Fee, Error>)
    ensures
        r is Ok,
        r->Ok_0 == withdraw_fee(*fee_config, raw_withdraw.fee),
{
    Ok(L2Fee { fee: raw_withdraw.fee, cycles_limit: fee_config.withdraw_cycles_limit })
}

fn fee_of_decoded(fee: Option<u128>, cycles_limit: u64) -> (r: Result<L2Fee, Error>)
    ensures
        r == decoded_fee(fee, cycles_limit),
{
    match fee {
        Some(fee) => Ok(L2Fee { fee, cycles_limit }),
        None => Err(Error::DecodeError(DecodeKind::Malformed)),
    }
}

/// What a transaction pays, read from its arguments as its backend lays them out.
pub fn parse_l2tx_fee_rate(
    fee_config: &FeeConfig,
    raw_l2tx: &L2Transaction,
    backend_type: BackendType,
) -> (r: Result<L2Fee, Error>)
    ensures
        r == l2tx_fee(*fee_config, raw_l2tx.args@, backend_type),
{
    let args = raw_l2tx.args.as_slice();
    match backend_type {
        BackendType::Meta => fee_of_decoded(parse_meta_args(args), fee_config.meta_cycles_limit),
        BackendType::EthAddrReg => fee_of_decoded(
            parse_eth_addr_reg_args(args),
            fee_config.eth_addr_reg_cycles_limit,
        ),
        BackendType::Sudt => fee_of_decoded(parse_sudt_args(args), fee_config.sudt_cycles_limit),
        BackendType::Polyjuice => {
            if args.len() < 8 + 8 + 16 + 16 + 4 {
                return Err(Error::DecodeError(DecodeKind::InvalidPolyjuiceArgs));
            }
            proof {
                lemma_pow256_values();
            }
            let gas_limit = read_le(args, 8, 8) as u64;
            let gas_price = read_le(args, 16, 16);
            Ok(L2Fee { fee: saturating_mul(gas_price, gas_limit), cycles_limit: gas_limit })
        },
        BackendType::Unknown => Err(Error::UnknownBackend),
    }
}

impl FeeEntry {
    /// The entry of a transaction that arrived as number `order`. Its sender is the
    /// account it names, or, where that is account 0, the digest of its signature.
    pub fn from_tx(
        tx: L2Transaction,
        fee_config: &FeeConfig,
        backend_type: BackendType,
        order: usize,
    ) -> (r: Result<FeeEntry, Error>)
        ensures
            match l2tx_fee(*fee_config, tx.args@, backend_type) {
                Ok(fee) => r is Ok && r->Ok_0.item == FeeItem::Tx(tx) && r->Ok_0.order == order
                    && r->Ok_0.fee == fee.fee && r->Ok_0.cycles_limit == fee.cycles_limit
                    && sender_of(tx, r->Ok_0.sender),
                Err(e) => r is Err && r->Err_0 == e,
            },
    {
        let fee = match parse_l2tx_fee_rate(fee_config, &tx, backend_type) {
            Ok(fee) => fee,
            Err(e) => {
                return Err(e);
            },
        };
        let from_id = tx.from_id;
        let item = FeeItem::Tx(tx);
        let sender = if 0 == from_id {
            FeeItemSender::PendingCreate(item.hash())
        } else {
            FeeItemSender::AccountId(from_id)
        };
        Ok(FeeEntry { item, sender, fee: fee.fee, cycles_limit: fee.cycles_limit, order })
    }

    /// The entry of a withdrawal of the account `sender` that arrived as number `order`.
    pub fn from_withdrawal(
        withdrawal: WithdrawalRequestExtra,
        sender: u32,
        fee_config: &FeeConfig,
        order: usize,
    ) -> (r: Result<FeeEntry, Error>)
        ensures
            r is Ok,
            r->Ok_0 == (FeeEntry {
                item: FeeItem::Withdrawal(withdrawal),
                order,
                sender: FeeItemSender::AccountId(sender),
                fee: withdrawal.fee,
                cycles_limit: fee_config.withdraw_cycles_limit,
            }),
    {
        let fee = match parse_withdraw_fee_rate(fee_config, &withdrawal) {
            Ok(fee) => fee,
            Err(e) => {
                return Err(e);
            },
        };
        Ok(
            FeeEntry {
                item: FeeItem::Withdrawal(withdrawal),
                sender: FeeItemSender::AccountId(sender),
                fee: fee.fee,
                cycles_limit: fee.cycles_limit,
                order,
            },
        )
    }
}

/// Two transactions of senders yet to be created have the same sender tag exactly when
/// the digests of their signatures are the same, whatever their transaction hashes are.
pub proof fn lemma_pending_senders(
    first: L2Transaction,
    second: L2Transaction,
    first_sender: FeeItemSender,
    second_sender: FeeItemSender,
)
    requires
        first.from_id == 0,
        second.from_id == 0,
        sender_of(first, first_sender),
        sender_of(second, second_sender),
    ensures
        first_sender == second_sender <==> digest(first.signature@) == digest(second.signature@),
{
    let a = first_sender->PendingCreate_0;
    let b = second_sender->PendingCreate_0;
    if a@ == b@ {
        assert(a@ =~= b@);
        assert(a == b);
    }
}

} // verus!
