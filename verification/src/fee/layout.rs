//! The serialized layout of argument payloads: numbers of four bytes, least significant
//! first; tables and vectors that start with their own size and the offsets of their parts.
use vstd::prelude::*;
use vstd::slice::slice_subrange;
use crate::bytes::{le_value, lemma_pow256_values, read_le};

verus! {

/// The four-byte number at `at`.
pub open spec fn num_at(s: Seq<u8>, at: int) -> nat {
    le_value(s.subrange(at, at + 4))
}

/// Where part `i` of a table of `n` parts starts; part `n` stands for the table's end.
pub open spec fn offset(s: Seq<u8>, n: nat, i: int) -> nat {
    if i < n {
        num_at(s, 4 + 4 * i)
    } else {
        s.len()
    }
}

/// No part of the table starts before the one in front of it, nor ends behind the table.
pub open spec fn offsets_sorted(s: Seq<u8>, n: nat) -> bool {
    forall|i: int| 0 <= i < n ==> #[trigger] offset(s, n, i) <= offset(s, n, i + 1)
}

/// Whether `s` is laid out as a table of exactly `n` parts: its first number is its size,
/// the `n` offsets follow, and the parts lie in order.
pub open spec fn table_ok(s: Seq<u8>, n: nat) -> bool {
    &&& n >= 1
    &&& s.len() >= 8
    &&& num_at(s, 0) == s.len()
    &&& num_at(s, 4) == 4 * (n + 1)
    &&& s.len() >= 4 * (n + 1)
    &&& offsets_sorted(s, n)
}

/// Part `i` of a table of `n` parts.
pub open spec fn part(s: Seq<u8>, n: nat, i: int) -> Seq<u8> {
    s.subrange(offset(s, n, i) as int, offset(s, n, i + 1) as int)
}

/// Whether `s` is a vector of items of `size` bytes each: their count, then the items.
pub open spec fn fixvec_ok(s: Seq<u8>, size: nat) -> bool {
    s.len() >= 4 && s.len() == 4 + size * num_at(s, 0)
}

proof fn lemma_offsets_bounded(s: Seq<u8>, n: nat, i: int)
    requires
        offsets_sorted(s, n),
        0 <= i <= n,
    ensures
        offset(s, n, i) <= s.len(),
    decreases n - i,
{
    if i < n {
        lemma_offsets_bounded(s, n, i + 1);
        assert(offset(s, n, i) <= offset(s, n, i + 1));
    }
}

/// Reads the four-byte number at `at`.
pub fn read_num(s: &[u8], at: usize) -> (r: u128)
    requires
        at + 4 <= s.len(),
    ensures
        r == num_at(s@, at as int),
        r < 0x1_0000_0000,
{
    proof {
        lemma_pow256_values();
    }
    read_le(s, at, 4)
}

/// Whether `s` is a vector of items of `size` bytes each.
pub fn check_fixvec(s: &[u8], size: u8) -> (r: bool)
    ensures
        r == fixvec_ok(s@, size as nat),
{
    if s.len() < 4 {
        return false;
    }
    let count = read_num(s, 0);
    assert(0 <= (size as u128) * count <= 0xff * 0x1_0000_0000) by (nonlinear_arith)
        requires
            0 <= count < 0x1_0000_0000,
            0 <= size <= 0xff,
    ;
    s.len() as u128 == 4 + (size as u128) * count
}

/// The offsets of the `n` parts of a table, and the table's end after them. `None` where
/// `s` is not laid out as a table of `n` parts.
pub fn table_offsets(s: &[u8], n: usize) -> (r: Option<Vec<usize>>)
    requires
        1 <= n,
    ensures
        r is Some <==> table_ok(s@, n as nat),
        r matches Some(offs) ==> offs@.len() == n + 1 && forall|i: int|
            0 <= i <= n ==> #[trigger] offs@[i] == offset(s@, n as nat, i) && offs@[i] <= s.len()
                && (i < n ==> offs@[i] <= offs@[i + 1]),
{
    let len = s.len();
    if len < 8 {
        return None;
    }
    if read_num(s, 0) != len as u128 {
        return None;
    }
    if read_num(s, 4) != 4 * (n as u128 + 1) {
        return None;
    }
    if (len as u128) < 4 * (n as u128 + 1) {
        return None;
    }
    let mut offs: Vec<usize> = Vec::new();
    let mut i: usize = 0;
    while i < n
        invariant
            i <= n,
            len == s.len(),
            len >= 4 * (n + 1),
            offs@.len() == i,
            forall|k: int| 0 <= k < i ==> #[trigger] offs@[k] == offset(s@, n as nat, k),
            forall|k: int| 0 <= k < i - 1 ==> #[trigger] offs@[k] <= offs@[k + 1],
        decreases n - i,
    {
        let o = read_num(s, 4 + 4 * i);
        if i > 0 && offs[i - 1] as u128 > o {
            assert(offset(s@, n as nat, i - 1) > offset(s@, n as nat, (i - 1) + 1));
            return None;
        }
        offs.push(o as usize);
        i += 1;
    }
    if offs[n - 1] > len {
        assert(offset(s@, n as nat, n - 1) > offset(s@, n as nat, (n - 1) + 1));
        return None;
    }
    offs.push(len);
    proof {
        assert forall|k: int| 0 <= k < n implies #[trigger] offset(s@, n as nat, k) <= offset(
            s@,
            n as nat,
            k + 1,
        ) by {
            assert(offs@[k] <= offs@[k + 1]);
        }
        assert forall|k: int| 0 <= k <= n implies #[trigger] offs@[k] == offset(s@, n as nat, k)
            && offs@[k] <= s.len() && (k < n ==> offs@[k] <= offs@[k + 1]) by {
            lemma_offsets_bounded(s@, n as nat, k);
        }
    }
    Some(offs)
}

/// Part `i` of a table whose offsets are `offs`.
pub fn table_part<'a>(s: &'a [u8], offs: &Vec<usize>, i: usize) -> (r: &'a [u8])
    requires
        i + 1 < offs@.len(),
        offs@[i as int] <= offs@[i + 1] <= s.len(),
    ensures
        r@ == s@.subrange(offs@[i as int] as int, offs@[i + 1] as int),
{
    assert(i + 1 < offs.len());
    slice_subrange(s, offs[i], offs[i + 1])
}

} // verus!
