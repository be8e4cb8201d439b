//! Byte strings: copying, comparing, and little-endian numbers.
use vstd::prelude::*;

verus! {

/// 256 to the power `n`.
pub open spec fn pow256(n: nat) -> nat
    decreases n,
{
    if n == 0 {
        1
    } else {
        256 * pow256((n - 1) as nat)
    }
}

/// The number that `s` holds, least significant byte first.
pub open spec fn le_value(s: Seq<u8>) -> nat
    decreases s.len(),
{
    if s.len() == 0 {
        0
    } else {
        s[0] as nat + 256 * le_value(s.drop_first())
    }
}

/// The `n` low bytes of `x`, least significant byte first.
pub open spec fn le_bytes(x: nat, n: nat) -> Seq<u8>
    decreases n,
{
    if n == 0 {
        Seq::empty()
    } else {
        seq![(x % 256) as u8] + le_bytes(x / 256, (n - 1) as nat)
    }
}

pub proof fn lemma_pow256_values()
    ensures
        pow256(0) == 1,
        pow256(1) == 0x100,
        pow256(4) == 0x1_0000_0000,
        pow256(8) == 0x1_0000_0000_0000_0000,
        pow256(16) == 0x1_0000_0000_0000_0000_0000_0000_0000_0000,
{
    reveal_with_fuel(pow256, 17);
}

pub proof fn lemma_pow256_monotone(a: nat, b: nat)
    requires
        a <= b,
    ensures
        0 < pow256(a) <= pow256(b),
    decreases b,
{
    if b == 0 {
    } else if a == b {
        lemma_pow256_monotone((a - 1) as nat, (b - 1) as nat);
    } else {
        lemma_pow256_monotone(a, (b - 1) as nat);
    }
}

pub proof fn lemma_le_bytes_len(x: nat, n: nat)
    ensures
        le_bytes(x, n).len() == n,
    decreases n,
{
    if n > 0 {
        lemma_le_bytes_len(x / 256, (n - 1) as nat);
    }
}

/// Decoding undoes encoding of a number that fits.
pub proof fn lemma_le_value_of_bytes(x: nat, n: nat)
    requires
        x < pow256(n),
    ensures
        le_value(le_bytes(x, n)) == x,
    decreases n,
{
    if n > 0 {
        let rest = le_bytes(x / 256, (n - 1) as nat);
        let s = le_bytes(x, n);
        assert(s.drop_first() =~= rest);
        lemma_le_value_of_bytes(x / 256, (n - 1) as nat);
    }
}

/// Encoding undoes decoding.
pub proof fn lemma_le_bytes_of_value(s: Seq<u8>)
    ensures
        le_bytes(le_value(s), s.len()) == s,
    decreases s.len(),
{
    if s.len() > 0 {
        let t = s.drop_first();
        lemma_le_bytes_of_value(t);
        let v = le_value(s);
        assert(v % 256 == s[0] as nat && v / 256 == le_value(t)) by {
            assert(v == s[0] as nat + 256 * le_value(t));
        }
        assert(le_bytes(v, s.len()) =~= s);
    } else {
        assert(le_bytes(le_value(s), s.len()) =~= s);
    }
}

/// A copy of `s`.
pub fn copy_bytes(s: &[u8]) -> (r: Vec<u8>)
    ensures
        r@ == s@,
{
    let mut r: Vec<u8> = Vec::new();
    let mut i: usize = 0;
    while i < s.len()
        invariant
            i <= s.len(),
            r@ == s@.subrange(0, i as int),
        decreases s.len() - i,
    {
        r.push(s[i]);
        i += 1;
        assert(r@ =~= s@.subrange(0, i as int));
    }
    assert(s@.subrange(0, s.len() as int) =~= s@);
    r
}

/// Appends `s` to `dst`.
pub fn append_bytes(dst: &mut Vec<u8>, s: &[u8])
    ensures
        final(dst)@ == old(dst)@ + s@,
{
    let mut i: usize = 0;
    while i < s.len()
        invariant
            i <= s.len(),
            dst@ == old(dst)@ + s@.subrange(0, i as int),
        decreases s.len() - i,
    {
        dst.push(s[i]);
        i += 1;
        assert(dst@ =~= old(dst)@ + s@.subrange(0, i as int));
    }
    assert(s@.subrange(0, s.len() as int) =~= s@);
}

/// Whether `a` and `b` hold the same bytes.
pub fn bytes_eq(a: &[u8], b: &[u8]) -> (r: bool)
    ensures
        r == (a@ == b@),
{
    if a.len() != b.len() {
        return false;
    }
    let mut i: usize = 0;
    while i < a.len()
        invariant
            i <= a.len(),
            a.len() == b.len(),
            forall|k: int| 0 <= k < i ==> a@[k] == b@[k],
        decreases a.len() - i,
    {
        if a[i] != b[i] {
            return false;
        }
        i += 1;
    }
    assert(a@ =~= b@);
    true
}

/// Reads the `n`-byte little-endian number that starts at `at`.
pub fn read_le(s: &[u8], at: usize, n: usize) -> (r: u128)
    requires
        n <= 16,
        at + n <= s.len(),
    ensures
        r == le_value(s@.subrange(at as int, at + n)),
        r < pow256(n as nat),
{
    let mut acc: u128 = 0;
    let mut i: usize = n;
    assert(s@.subrange(at + n, at + n) =~= Seq::<u8>::empty());
    while i > 0
        invariant
            i <= n <= 16,
            at + n <= s.len(),
            acc == le_value(s@.subrange(at + i, at + n)),
            acc < pow256((n - i) as nat),
        decreases i,
    {
        proof {
            let cur = s@.subrange(at + i - 1, at + n);
            assert(cur.drop_first() =~= s@.subrange(at + i, at + n));
            lemma_pow256_monotone((n - i + 1) as nat, 16);
            lemma_pow256_values();
        }
        i -= 1;
        acc = acc * 256 + (s[at + i] as u128);
    }
    acc
}

/// The `n` low bytes of `x`, least significant first.
pub fn write_le(x: u128, n: usize) -> (r: Vec<u8>)
    ensures
        r@ == le_bytes(x as nat, n as nat),
{
    let mut r: Vec<u8> = Vec::new();
    let mut cur: u128 = x;
    let mut i: usize = 0;
    while i < n
        invariant
            i <= n,
            r@ + le_bytes(cur as nat, (n - i) as nat) == le_bytes(x as nat, n as nat),
        decreases n - i,
    {
        let ghost before = r@;
        r.push((cur % 256) as u8);
        proof {
            let rest = le_bytes((cur / 256) as nat, (n - i - 1) as nat);
            assert(r@ + rest =~= before + le_bytes(cur as nat, (n - i) as nat));
        }
        cur = cur / 256;
        i += 1;
    }
    assert(r@ + le_bytes(cur as nat, 0) =~= r@);
    r
}

/// The 32 bytes of `s` as an array.
pub fn to_array32(s: &[u8]) -> (r: [u8; 32])
    requires
        s.len() == 32,
    ensures
        r@ == s@,
{
    let mut r: [u8; 32] = [0u8; 32];
    let mut i: usize = 0;
    while i < 32
        invariant
            i <= 32,
            s.len() == 32,
            forall|k: int| 0 <= k < i ==> r@[k] == s@[k],
        decreases 32 - i,
    {
        r[i] = s[i];
        i += 1;
    }
    assert(r@ =~= s@);
    r
}

/// Whether every byte of `h` is zero.
pub fn is_zero32(h: &[u8; 32]) -> (r: bool)
    ensures
        r == (h@ == zero32()),
{
    let mut i: usize = 0;
    while i < 32
        invariant
            i <= 32,
            forall|k: int| 0 <= k < i ==> h@[k] == 0,
        decreases 32 - i,
    {
        if h[i] != 0 {
            assert(zero32()[i as int] == 0);
            return false;
        }
        i += 1;
    }
    assert(h@ =~= zero32());
    true
}

/// Thirty-two zero bytes.
pub open spec fn zero32() -> Seq<u8> {
    Seq::new(32, |i: int| 0u8)
}

} // verus!
