//! How entries rank: by fee rate, then by arrival, then by size, then by the item itself.
use vstd::prelude::*;
use std::cmp::Ordering;
use crate::fee::types::{saturating_mul, saturating_product, FeeEntry, FeeItem};
use crate::rank::{
    flip, int_rank, lemma_lex_flip, lemma_lex_level, lemma_lex_transitive, lex_rank, or_else,
    rank_bytes, Rank,
};

verus! {

/// How the item `a` ranks against `b`: by nonce, then by serialized bytes.
pub open spec fn item_rank(a: FeeItem, b: FeeItem) -> Rank {
    or_else(
        int_rank(a.nonce_spec() as int, b.nonce_spec() as int),
        lex_rank(a.bytes_spec(), b.bytes_spec()),
    )
}

/// How the fee rate of `a` ranks against that of `b`: `a.fee / a.cycles_limit` against
/// `b.fee / b.cycles_limit`, compared across, each product held to the largest number.
pub open spec fn rate_rank(a: FeeEntry, b: FeeEntry) -> Rank {
    int_rank(
        saturating_product(a.fee, b.cycles_limit) as int,
        saturating_product(b.fee, a.cycles_limit) as int,
    )
}

/// How the entry `a` ranks against `b`; the one that ranks above is taken first. The
/// higher fee rate ranks above; at equal rates the earlier arrival; then the smaller
/// limit of cycles; then the item that ranks below.
pub open spec fn entry_rank(a: FeeEntry, b: FeeEntry) -> Rank {
    or_else(
        rate_rank(a, b),
        or_else(
            int_rank(b.order as int, a.order as int),
            or_else(
                int_rank(b.cycles_limit as int, a.cycles_limit as int),
                item_rank(b.item, a.item),
            ),
        ),
    )
}

fn rank_u128(a: u128, b: u128) -> (r: Rank)
    ensures
        r == int_rank(a as int, b as int),
{
    if a < b {
        Rank::Below
    } else if a > b {
        Rank::Above
    } else {
        Rank::Level
    }
}

impl FeeItem {
    /// How this item ranks against `other`.
    pub fn rank(&self, other: &FeeItem) -> (r: Rank)
        ensures
            r == item_rank(*self, *other),
    {
        let by_nonce = rank_u128(self.nonce() as u128, other.nonce() as u128);
        match by_nonce {
            Rank::Level => rank_bytes(self.inner_slice(), other.inner_slice()),
            _ => by_nonce,
        }
    }
}

impl FeeEntry {
    /// How this entry ranks against `other`.
    pub fn rank(&self, other: &FeeEntry) -> (r: Rank)
        ensures
            r == entry_rank(*self, *other),
    {
        let by_rate = rank_u128(
            saturating_mul(self.fee, other.cycles_limit),
            saturating_mul(other.fee, self.cycles_limit),
        );
        if by_rate != Rank::Level {
            return by_rate;
        }
        let by_order = rank_u128(other.order as u128, self.order as u128);
        if by_order != Rank::Level {
            return by_order;
        }
        let by_cycles = rank_u128(other.cycles_limit as u128, self.cycles_limit as u128);
        if by_cycles != Rank::Level {
            return by_cycles;
        }
        other.item.rank(&self.item)
    }
}

/// The rank in the words of the standard library.
pub open spec fn ordering_of(r: Rank) -> Ordering {
    match r {
        Rank::Below => Ordering::Less,
        Rank::Level => Ordering::Equal,
        Rank::Above => Ordering::Greater,
    }
}

fn to_ordering(r: Rank) -> (o: Ordering)
    ensures
        o == ordering_of(r),
{
    match r {
        Rank::Below => Ordering::Less,
        Rank::Level => Ordering::Equal,
        Rank::Above => Ordering::Greater,
    }
}

impl FeeItem {
    /// How this item compares with `other`: by nonce, then by serialized bytes.
    pub fn cmp(&self, other: &FeeItem) -> (o: Ordering)
        ensures
            o == ordering_of(item_rank(*self, *other)),
    {
        to_ordering(self.rank(other))
    }

}

impl PartialOrd for FeeItem {
    fn partial_cmp(&self, other: &FeeItem) -> (o: Option<Ordering>) {
        Some(self.cmp(other))
    }
}

impl vstd::std_specs::cmp::PartialOrdSpecImpl for FeeItem {
    open spec fn obeys_partial_cmp_spec() -> bool {
        true
    }

    open spec fn partial_cmp_spec(&self, other: &FeeItem) -> Option<Ordering> {
        Some(ordering_of(item_rank(*self, *other)))
    }
}

impl FeeEntry {
    /// How this entry compares with `other`; the greater one is taken first.
    pub fn cmp(&self, other: &FeeEntry) -> (o: Ordering)
        ensures
            o == ordering_of(entry_rank(*self, *other)),
    {
        to_ordering(self.rank(other))
    }

}

impl PartialOrd for FeeEntry {
    fn partial_cmp(&self, other: &FeeEntry) -> (o: Option<Ordering>) {
        Some(self.cmp(other))
    }
}

impl vstd::std_specs::cmp::PartialOrdSpecImpl for FeeEntry {
    open spec fn obeys_partial_cmp_spec() -> bool {
        true
    }

    open spec fn partial_cmp_spec(&self, other: &FeeEntry) -> Option<Ordering> {
        Some(ordering_of(entry_rank(*self, *other)))
    }
}

/// An entry ranks level with itself.
pub proof fn lemma_rank_reflexive(a: FeeEntry)
    ensures
        entry_rank(a, a) == Rank::Level,
{
    lemma_lex_level(a.item.bytes_spec(), a.item.bytes_spec());
}

/// Seen from the other side, the rank of entries is the opposite one: of two entries
/// exactly one ranks above the other, or they rank level.
pub proof fn lemma_rank_antisymmetric(a: FeeEntry, b: FeeEntry)
    ensures
        entry_rank(b, a) == flip(entry_rank(a, b)),
{
    lemma_lex_flip(a.item.bytes_spec(), b.item.bytes_spec());
}

/// Whether the fee rates of `a` and `b` compare as fractions: both limits of cycles
/// are positive and neither product across exceeds the largest number.
pub open spec fn rates_exact(a: FeeEntry, b: FeeEntry) -> bool {
    &&& a.cycles_limit > 0
    &&& b.cycles_limit > 0
    &&& a.fee * b.cycles_limit <= u128::MAX
    &&& b.fee * a.cycles_limit <= u128::MAX
}

/// Entries that rank level arrived at the same place, have the same limit of cycles
/// and hold items of the same nonce and the same bytes; where their fee rates compare
/// as fractions, they pay the same fee too.
pub proof fn lemma_rank_level(a: FeeEntry, b: FeeEntry)
    requires
        entry_rank(a, b) == Rank::Level,
    ensures
        a.order == b.order,
        a.cycles_limit == b.cycles_limit,
        a.item.nonce_spec() == b.item.nonce_spec(),
        a.item.bytes_spec() == b.item.bytes_spec(),
        rates_exact(a, b) ==> a.fee == b.fee,
{
    lemma_lex_level(b.item.bytes_spec(), a.item.bytes_spec());
    if rates_exact(a, b) {
        let c = a.cycles_limit as int;
        let x = a.fee as int;
        let y = b.fee as int;
        assert(x * c == y * c);
        assert(x == y) by (nonlinear_arith)
            requires
                x * c == y * c,
                c > 0,
        ;
    }
}

proof fn lemma_cross_products(af: int, ac: int, bf: int, bc: int, cf: int, cc: int)
    by (nonlinear_arith)
    requires
        ac > 0,
        bc > 0,
        cc > 0,
        af >= 0,
        bf >= 0,
        cf >= 0,
        af * bc <= bf * ac,
        bf * cc <= cf * bc,
    ensures
        af * cc <= cf * ac,
        af * bc < bf * ac || bf * cc < cf * bc ==> af * cc < cf * ac,
{
    assert(af * bc * cc <= bf * ac * cc);
    assert(bf * cc * ac <= cf * bc * ac);
    assert(af * cc * bc <= cf * ac * bc);
    if af * cc > cf * ac {
        assert(af * cc * bc > cf * ac * bc);
    }
    if af * bc < bf * ac {
        assert(af * bc * cc < bf * ac * cc);
        assert(af * cc * bc < cf * ac * bc);
        if af * cc >= cf * ac {
            assert(af * cc * bc >= cf * ac * bc);
        }
    }
    if bf * cc < cf * bc {
        assert(bf * cc * ac < cf * bc * ac);
        assert(af * cc * bc < cf * ac * bc);
        if af * cc >= cf * ac {
            assert(af * cc * bc >= cf * ac * bc);
        }
    }
}

/// Whether the ranks of the fee rates of `a`, `b` and `c` carry over: with the rate of
/// `a` not above that of `b`, and that of `b` not above that of `c`, the rate of `a` is
/// not above that of `c`, and is below it where either step is.
pub open spec fn rates_carry(a: FeeEntry, b: FeeEntry, c: FeeEntry) -> bool {
    rate_rank(a, b) != Rank::Above && rate_rank(b, c) != Rank::Above ==> rate_rank(a, c)
        != Rank::Above && (rate_rank(a, b) == Rank::Below || rate_rank(b, c) == Rank::Below
        ==> rate_rank(a, c) == Rank::Below)
}

/// The ranks of fee rates carry over where the rates compare as fractions.
pub proof fn lemma_rates_carry(a: FeeEntry, b: FeeEntry, c: FeeEntry)
    requires
        rates_exact(a, b),
        rates_exact(b, c),
        rates_exact(a, c),
    ensures
        rates_carry(a, b, c),
{
    if rate_rank(a, b) != Rank::Above && rate_rank(b, c) != Rank::Above {
        lemma_cross_products(
            a.fee as int,
            a.cycles_limit as int,
            b.fee as int,
            b.cycles_limit as int,
            c.fee as int,
            c.cycles_limit as int,
        );
    }
}

/// The rank of entries carries over where the ranks of their fee rates do: an entry
/// that is not above `b`, with `b` not above `c`, is not above `c`, and is below it
/// where either step is.
pub proof fn lemma_rank_transitive(a: FeeEntry, b: FeeEntry, c: FeeEntry)
    requires
        rates_carry(a, b, c),
        entry_rank(a, b) != Rank::Above,
        entry_rank(b, c) != Rank::Above,
    ensures
        entry_rank(a, c) != Rank::Above,
        entry_rank(a, b) == Rank::Below || entry_rank(b, c) == Rank::Below ==> entry_rank(a, c)
            == Rank::Below,
{
    if rate_rank(a, b) == Rank::Level && rate_rank(b, c) == Rank::Level && rate_rank(a, c)
        == Rank::Level {
        if a.order == b.order && b.order == c.order && a.cycles_limit == b.cycles_limit
            && b.cycles_limit == c.cycles_limit {
            if a.item.nonce_spec() == b.item.nonce_spec() && b.item.nonce_spec()
                == c.item.nonce_spec() {
                lemma_lex_flip(a.item.bytes_spec(), b.item.bytes_spec());
                lemma_lex_flip(b.item.bytes_spec(), c.item.bytes_spec());
                lemma_lex_flip(a.item.bytes_spec(), c.item.bytes_spec());
                lemma_lex_transitive(
                    c.item.bytes_spec(),
                    b.item.bytes_spec(),
                    a.item.bytes_spec(),
                );
            }
        }
    }
}

} // verus!
