//! Three-way ranks, and the order of byte strings.
use vstd::prelude::*;

verus! {

/// How one thing ranks against another.
#[derive(PartialEq, Eq, Clone, Copy, Debug, Structural)]
pub enum Rank {
    Below,
    Level,
    Above,
}

/// The rank seen from the other side.
pub open spec fn flip(r: Rank) -> Rank {
    match r {
        Rank::Below => Rank::Above,
        Rank::Level => Rank::Level,
        Rank::Above => Rank::Below,
    }
}

/// How the number `a` ranks against `b`.
pub open spec fn int_rank(a: int, b: int) -> Rank {
    if a < b {
        Rank::Below
    } else if a > b {
        Rank::Above
    } else {
        Rank::Level
    }
}

/// `first`, or `second` where `first` does not decide.
pub open spec fn or_else(first: Rank, second: Rank) -> Rank {
    if first == Rank::Level {
        second
    } else {
        first
    }
}

/// How the bytes `a` rank against `b`, read as words in a dictionary: the first byte
/// that differs decides, and a word ranks below every word that it begins.
pub open spec fn lex_rank(a: Seq<u8>, b: Seq<u8>) -> Rank
    decreases a.len(),
{
    if a.len() == 0 {
        if b.len() == 0 {
            Rank::Level
        } else {
            Rank::Below
        }
    } else if b.len() == 0 {
        Rank::Above
    } else if a[0] != b[0] {
        int_rank(a[0] as int, b[0] as int)
    } else {
        lex_rank(a.drop_first(), b.drop_first())
    }
}

/// How the bytes `a` rank against `b`.
pub fn rank_bytes(a: &[u8], b: &[u8]) -> (r: Rank)
    ensures
        r == lex_rank(a@, b@),
{
    let mut i: usize = 0;
    assert(a@.subrange(0, a@.len() as int) =~= a@);
    assert(b@.subrange(0, b@.len() as int) =~= b@);
    while i < a.len() && i < b.len()
        invariant
            i <= a.len(),
            i <= b.len(),
            lex_rank(a@, b@) == lex_rank(
                a@.subrange(i as int, a@.len() as int),
                b@.subrange(i as int, b@.len() as int),
            ),
        decreases a.len() - i,
    {
        let ghost ra = a@.subrange(i as int, a@.len() as int);
        let ghost rb = b@.subrange(i as int, b@.len() as int);
        assert(ra[0] == a@[i as int] && rb[0] == b@[i as int]);
        if a[i] < b[i] {
            return Rank::Below;
        }
        if a[i] > b[i] {
            return Rank::Above;
        }
        assert(ra.drop_first() =~= a@.subrange(i + 1, a@.len() as int));
        assert(rb.drop_first() =~= b@.subrange(i + 1, b@.len() as int));
        i += 1;
    }
    if i < b.len() {
        Rank::Below
    } else if i < a.len() {
        Rank::Above
    } else {
        Rank::Level
    }
}

/// Bytes rank level with themselves, and with no other bytes.
pub proof fn lemma_lex_level(a: Seq<u8>, b: Seq<u8>)
    ensures
        lex_rank(a, b) == Rank::Level <==> a == b,
    decreases a.len(),
{
    if a.len() > 0 && b.len() > 0 {
        lemma_lex_level(a.drop_first(), b.drop_first());
        if a[0] == b[0] && a.drop_first() == b.drop_first() {
            assert(a.len() == b.len()) by {
                assert(a.drop_first().len() == b.drop_first().len());
            }
            assert forall|i: int| 0 <= i < a.len() implies a[i] == b[i] by {
                if i > 0 {
                    assert(a[i] == a.drop_first()[i - 1]);
                    assert(b[i] == b.drop_first()[i - 1]);
                }
            }
            assert(a =~= b);
        }
    } else if a.len() == 0 && b.len() == 0 {
        assert(a =~= b);
    }
}

/// Seen from the other side, the rank of bytes is the opposite one.
pub proof fn lemma_lex_flip(a: Seq<u8>, b: Seq<u8>)
    ensures
        lex_rank(b, a) == flip(lex_rank(a, b)),
    decreases a.len(),
{
    if a.len() > 0 && b.len() > 0 {
        lemma_lex_flip(a.drop_first(), b.drop_first());
    }
}

/// The rank of bytes carries over: what is not above `b`, with `b` not above `c`, is
/// not above `c`, and is below it where either step is.
pub proof fn lemma_lex_transitive(a: Seq<u8>, b: Seq<u8>, c: Seq<u8>)
    requires
        lex_rank(a, b) != Rank::Above,
        lex_rank(b, c) != Rank::Above,
    ensures
        lex_rank(a, c) != Rank::Above,
        lex_rank(a, b) == Rank::Below || lex_rank(b, c) == Rank::Below ==> lex_rank(a, c)
            == Rank::Below,
    decreases a.len(),
{
    if a.len() > 0 && b.len() > 0 && c.len() > 0 {
        if a[0] == b[0] && b[0] == c[0] {
            lemma_lex_transitive(a.drop_first(), b.drop_first(), c.drop_first());
        }
    }
}

} // verus!
