//! The argument payloads of the built-in backends, as far as the fee is read from them.
use vstd::prelude::*;
use vstd::slice::slice_subrange;
use crate::bytes::{le_value, lemma_pow256_values, read_le};
use crate::fee::layout::{
    check_fixvec, fixvec_ok, num_at, part, read_num, table_ok, table_offsets, table_part,
};

verus! {

/// A fee: a registry id of four bytes, then the amount in sixteen.
pub open spec fn fee_ok(s: Seq<u8>) -> bool {
    s.len() == 20
}

/// The amount that a fee holds.
pub open spec fn fee_amount(s: Seq<u8>) -> u128 {
    le_value(s.subrange(4, 20)) as u128
}

/// A script: a table of a 32-byte code hash, a hash type of one byte, and the
/// arguments as a byte vector.
pub open spec fn script_ok(s: Seq<u8>) -> bool {
    &&& table_ok(s, 3)
    &&& part(s, 3, 0).len() == 32
    &&& part(s, 3, 1).len() == 1
    &&& fixvec_ok(part(s, 3, 2), 1)
}

/// The number of items that a vector of tables announces.
pub open spec fn item_count(s: Seq<u8>) -> nat {
    (num_at(s, 4) / 4 - 1) as nat
}

/// A vector of scripts: its size, then, unless it is empty, the offsets of the scripts
/// and the scripts.
pub open spec fn script_vec_ok(s: Seq<u8>) -> bool {
    &&& s.len() >= 4
    &&& num_at(s, 0) == s.len()
    &&& s.len() == 4 || {
        &&& s.len() >= 8
        &&& num_at(s, 4) % 4 == 0
        &&& num_at(s, 4) >= 8
        &&& table_ok(s, item_count(s))
        &&& forall|i: int| 0 <= i < item_count(s) ==> script_ok(#[trigger] part(s, item_count(s), i))
    }
}

/// The fee of the arguments that create one account: a table of a script and a fee.
pub open spec fn create_account_fee(s: Seq<u8>) -> Option<u128> {
    if table_ok(s, 2) && script_ok(part(s, 2, 0)) && fee_ok(part(s, 2, 1)) {
        Some(fee_amount(part(s, 2, 1)))
    } else {
        None
    }
}

/// The fee of the arguments that create accounts in a batch: a table of a vector of
/// scripts and a fee.
pub open spec fn batch_create_fee(s: Seq<u8>) -> Option<u128> {
    if table_ok(s, 2) && script_vec_ok(part(s, 2, 0)) && fee_ok(part(s, 2, 1)) {
        Some(fee_amount(part(s, 2, 1)))
    } else {
        None
    }
}

/// The fee that arguments of the meta contract pay: a four-byte item number, then the
/// item. Item 0 creates one account, item 1 a batch of them. `None`: not such arguments.
pub open spec fn meta_args_fee(s: Seq<u8>) -> Option<u128> {
    if s.len() < 4 {
        None
    } else if num_at(s, 0) == 0 {
        create_account_fee(s.subrange(4, s.len() as int))
    } else if num_at(s, 0) == 1 {
        batch_create_fee(s.subrange(4, s.len() as int))
    } else {
        None
    }
}

/// Whether `s` is a query of a balance: a table of one address, a byte vector.
pub open spec fn sudt_query_ok(s: Seq<u8>) -> bool {
    table_ok(s, 1) && fixvec_ok(part(s, 1, 0), 1)
}

/// The fee of a transfer: a table of an address, an amount of 32 bytes and a fee.
pub open spec fn sudt_transfer_fee(s: Seq<u8>) -> Option<u128> {
    if table_ok(s, 3) && fixvec_ok(part(s, 3, 0), 1) && part(s, 3, 1).len() == 32 && fee_ok(
        part(s, 3, 2),
    ) {
        Some(fee_amount(part(s, 3, 2)))
    } else {
        None
    }
}

/// The fee that arguments of the token contract pay. Item 0 is a query, which pays
/// nothing; item 1 a transfer. `None`: not such arguments.
pub open spec fn sudt_args_fee(s: Seq<u8>) -> Option<u128> {
    if s.len() < 4 {
        None
    } else if num_at(s, 0) == 0 {
        if sudt_query_ok(s.subrange(4, s.len() as int)) {
            Some(0u128)
        } else {
            None
        }
    } else if num_at(s, 0) == 1 {
        sudt_transfer_fee(s.subrange(4, s.len() as int))
    } else {
        None
    }
}

/// The fee of a batch of mappings: a table of a vector of 32-byte hashes and a fee.
pub open spec fn batch_set_mapping_fee(s: Seq<u8>) -> Option<u128> {
    if table_ok(s, 2) && fixvec_ok(part(s, 2, 0), 32) && fee_ok(part(s, 2, 1)) {
        Some(fee_amount(part(s, 2, 1)))
    } else {
        None
    }
}

/// The fee that arguments of the address registry pay. Items 0 and 1 are lookups, by a
/// 20-byte address and by a 32-byte hash, which pay nothing. Item 2 sets one mapping:
/// a 32-byte hash, then the fee. Item 3 sets a batch. `None`: not such arguments.
pub open spec fn eth_addr_reg_args_fee(s: Seq<u8>) -> Option<u128> {
    if s.len() < 4 {
        None
    } else {
        let item = s.subrange(4, s.len() as int);
        if num_at(s, 0) == 0 {
            if item.len() == 20 {
                Some(0u128)
            } else {
                None
            }
        } else if num_at(s, 0) == 1 {
            if item.len() == 32 {
                Some(0u128)
            } else {
                None
            }
        } else if num_at(s, 0) == 2 {
            if item.len() == 52 {
                Some(fee_amount(item.subrange(32, 52)))
            } else {
                None
            }
        } else if num_at(s, 0) == 3 {
            batch_set_mapping_fee(item)
        } else {
            None
        }
    }
}

/// Reads the amount of a fee of 20 bytes.
fn read_fee(s: &[u8]) -> (r: u128)
    requires
        s@.len() == 20,
    ensures
        r == fee_amount(s@),
{
    proof {
        lemma_pow256_values();
    }
    read_le(s, 4, 16)
}

fn check_script(s: &[u8]) -> (r: bool)
    ensures
        r == script_ok(s@),
{
    match table_offsets(s, 3) {
        None => false,
        Some(offs) => {
            let code_hash = table_part(s, &offs, 0);
            let hash_type = table_part(s, &offs, 1);
            let args = table_part(s, &offs, 2);
            code_hash.len() == 32 && hash_type.len() == 1 && check_fixvec(args, 1)
        },
    }
}

fn check_script_vec(s: &[u8]) -> (r: bool)
    ensures
        r == script_vec_ok(s@),
{
    if s.len() < 4 {
        return false;
    }
    if read_num(s, 0) != s.len() as u128 {
        return false;
    }
    if s.len() == 4 {
        return true;
    }
    if s.len() < 8 {
        return false;
    }
    let first = read_num(s, 4);
    if first % 4 != 0 || first < 8 {
        return false;
    }
    let n: usize = (first / 4 - 1) as usize;
    assert(n == item_count(s@));
    match table_offsets(s, n) {
        None => false,
        Some(offs) => {
            let mut i: usize = 0;
            while i < n
                invariant
                    i <= n,
                    n == item_count(s@),
                    s@.len() >= 8,
                    num_at(s@, 0) == s@.len(),
                    num_at(s@, 4) % 4 == 0,
                    num_at(s@, 4) >= 8,
                    table_ok(s@, n as nat),
                    offs@.len() == n + 1,
                    forall|k: int|
                        0 <= k <= n ==> #[trigger] offs@[k] == crate::fee::layout::offset(
                            s@,
                            n as nat,
                            k,
                        ) && offs@[k] <= s.len() && (k < n ==> offs@[k] <= offs@[k + 1]),
                    forall|k: int| 0 <= k < i ==> script_ok(#[trigger] part(s@, n as nat, k)),
                decreases n - i,
            {
                assert(offs@[i as int] <= offs@[i + 1]);
                assert(offs@[i + 1] <= s.len());
                let item = table_part(s, &offs, i);
                assert(item@ == part(s@, n as nat, i as int));
                if !check_script(item) {
                    assert(!script_ok(part(s@, item_count(s@), i as int)));
                    return false;
                }
                i += 1;
            }
            true
        },
    }
}

/// The two parts of a table of two, where `s` is laid out as one.
fn two_parts<'a>(s: &'a [u8]) -> (r: Option<(&'a [u8], &'a [u8])>)
    ensures
        r is Some <==> table_ok(s@, 2),
        r matches Some((a, b)) ==> a@ == part(s@, 2, 0) && b@ == part(s@, 2, 1),
{
    match table_offsets(s, 2) {
        None => None,
        Some(offs) => {
            assert(offs@[0] <= offs@[1] && offs@[1] <= offs@[2] && offs@[2] <= s.len());
            Some((table_part(s, &offs, 0), table_part(s, &offs, 1)))
        },
    }
}

/// The fee that arguments of the meta contract pay.
pub fn parse_meta_args(s: &[u8]) -> (r: Option<u128>)
    ensures
        r == meta_args_fee(s@),
{
    if s.len() < 4 {
        return None;
    }
    let id = read_num(s, 0);
    let item = slice_subrange(s, 4, s.len());
    if id != 0 && id != 1 {
        return None;
    }
    match two_parts(item) {
        None => None,
        Some((head, fee)) => {
            let head_ok = if id == 0 {
                check_script(head)
            } else {
                check_script_vec(head)
            };
            if head_ok && fee.len() == 20 {
                Some(read_fee(fee))
            } else {
                None
            }
        },
    }
}

/// The fee that arguments of the token contract pay.
pub fn parse_sudt_args(s: &[u8]) -> (r: Option<u128>)
    ensures
        r == sudt_args_fee(s@),
{
    if s.len() < 4 {
        return None;
    }
    let id = read_num(s, 0);
    let item = slice_subrange(s, 4, s.len());
    if id == 0 {
        match table_offsets(item, 1) {
            None => None,
            Some(offs) => {
                assert(offs@[0] <= offs@[1] && offs@[1] <= item.len());
                if check_fixvec(table_part(item, &offs, 0), 1) {
                    Some(0)
                } else {
                    None
                }
            },
        }
    } else if id == 1 {
        match table_offsets(item, 3) {
            None => None,
            Some(offs) => {
                assert(offs@[0] <= offs@[1] && offs@[1] <= offs@[2] && offs@[2] <= offs@[3]
                    && offs@[3] <= item.len());
                let to = table_part(item, &offs, 0);
                let amount = table_part(item, &offs, 1);
                let fee = table_part(item, &offs, 2);
                if check_fixvec(to, 1) && amount.len() == 32 && fee.len() == 20 {
                    Some(read_fee(fee))
                } else {
                    None
                }
            },
        }
    } else {
        None
    }
}

/// The fee that arguments of the address registry pay.
pub fn parse_eth_addr_reg_args(s: &[u8]) -> (r: Option<u128>)
    ensures
        r == eth_addr_reg_args_fee(s@),
{
    if s.len() < 4 {
        return None;
    }
    let id = read_num(s, 0);
    let item = slice_subrange(s, 4, s.len());
    if id == 0 {
        if item.len() == 20 {
            Some(0)
        } else {
            None
        }
    } else if id == 1 {
        if item.len() == 32 {
            Some(0)
        } else {
            None
        }
    } else if id == 2 {
        if item.len() == 52 {
            Some(read_fee(slice_subrange(item, 32, 52)))
        } else {
            None
        }
    } else if id == 3 {
        match two_parts(item) {
            None => None,
            Some((hashes, fee)) => {
                if check_fixvec(hashes, 32) && fee.len() == 20 {
                    Some(read_fee(fee))
                } else {
                    None
                }
            },
        }
    } else {
        None
    }
}

} // verus!
