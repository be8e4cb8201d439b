//! The queue of pending work: for each sender a chain of entries by nonce, of which the
//! lowest may be taken, and among those the one that ranks highest is taken first.
use vstd::prelude::*;
use crate::error::Error;
use crate::fee::order::{
    entry_rank, lemma_rank_antisymmetric, lemma_rank_reflexive, lemma_rank_transitive,
    lemma_rates_carry, rates_exact,
};
use crate::rank::Rank;
use crate::fee::types::{FeeEntry, FeeItemSender};
use crate::hash::{hash_eq, Byte32};

verus! {

/// Whether the entry at `i` is the one of `sender` under `nonce`.
pub open spec fn slot_is(q: Seq<FeeEntry>, i: int, sender: FeeItemSender, nonce: u32) -> bool {
    0 <= i < q.len() && q[i].sender == sender && q[i].item.nonce_spec() == nonce
}

/// No sender has two entries under one nonce.
pub open spec fn slots_distinct(q: Seq<FeeEntry>) -> bool {
    forall|i: int, j: int|
        0 <= i < j < q.len() ==> !(q[i].sender == q[j].sender && q[i].item.nonce_spec()
            == q[j].item.nonce_spec())
}

/// Whether `sender` has an entry under `nonce`.
pub open spec fn slot_taken(q: Seq<FeeEntry>, sender: FeeItemSender, nonce: u32) -> bool {
    exists|i: int| slot_is(q, i, sender, nonce)
}

/// Where the entry of `sender` under `nonce` is, if there is one.
pub open spec fn slot_of(q: Seq<FeeEntry>, sender: FeeItemSender, nonce: u32) -> int {
    choose|i: int| slot_is(q, i, sender, nonce)
}

/// Whether the entry at `i` may be taken: its sender has no entry of a lower nonce.
pub open spec fn eligible(q: Seq<FeeEntry>, i: int) -> bool {
    &&& 0 <= i < q.len()
    &&& forall|j: int|
        #![trigger q[j]]
        0 <= j < q.len() && q[j].sender == q[i].sender ==> q[i].item.nonce_spec()
            <= q[j].item.nonce_spec()
}

/// The entry to take among the first `n`: of those that may be taken the one that ranks
/// above the others, found by going through them in their order and keeping the one
/// that no later one ranks above.
pub open spec fn top_of(q: Seq<FeeEntry>, n: nat) -> Option<int>
    decreases n,
{
    if n == 0 {
        None
    } else {
        let i = (n - 1) as int;
        let before = top_of(q, i as nat);
        if !eligible(q, i) {
            before
        } else {
            match before {
                None => Some(i),
                Some(p) => if entry_rank(q[i], q[p]) == Rank::Above {
                    Some(i)
                } else {
                    Some(p)
                },
            }
        }
    }
}

/// The queue after `entry` was offered: added where its sender has nothing under its
/// nonce; put in the place of the entry that has, where it ranks above that one; else
/// the queue as it was.
pub open spec fn after_offer(q: Seq<FeeEntry>, entry: FeeEntry) -> Seq<FeeEntry> {
    if !slot_taken(q, entry.sender, entry.item.nonce_spec()) {
        q.push(entry)
    } else {
        let j = slot_of(q, entry.sender, entry.item.nonce_spec());
        if entry_rank(entry, q[j]) == Rank::Above {
            q.update(j, entry)
        } else {
            q
        }
    }
}

/// The entry that leaves when `entry` is offered: none where it is added, the one it
/// replaces, or `entry` itself where it does not rank above the one in its place.
pub open spec fn displaced_by(q: Seq<FeeEntry>, entry: FeeEntry) -> Option<FeeEntry> {
    if !slot_taken(q, entry.sender, entry.item.nonce_spec()) {
        None
    } else {
        let j = slot_of(q, entry.sender, entry.item.nonce_spec());
        if entry_rank(entry, q[j]) == Rank::Above {
            Some(q[j])
        } else {
            Some(entry)
        }
    }
}

/// Whether `r` is what an insert answers: nothing where the entry was added; the entry
/// that it replaced; or, where its sender has an entry under its nonce that it does not
/// rank above, an error with the hash of that entry's item.
pub open spec fn insert_answer(
    q: Seq<FeeEntry>,
    entry: FeeEntry,
    r: Result<Option<FeeEntry>, Error>,
) -> bool {
    if !slot_taken(q, entry.sender, entry.item.nonce_spec()) {
        r == Ok::<Option<FeeEntry>, Error>(None)
    } else {
        let j = slot_of(q, entry.sender, entry.item.nonce_spec());
        if entry_rank(entry, q[j]) == Rank::Above {
            r == Ok::<Option<FeeEntry>, Error>(Some(q[j]))
        } else {
            r matches Err(Error::DuplicateNonce(h)) && h@ == q[j].item.hash_spec()
        }
    }
}

/// Of the first `n` entries those of `sender`, in their order.
pub open spec fn of_sender(q: Seq<FeeEntry>, sender: FeeItemSender, n: nat) -> Seq<FeeEntry>
    decreases n,
{
    if n == 0 {
        Seq::empty()
    } else {
        let before = of_sender(q, sender, (n - 1) as nat);
        if q[n - 1].sender == sender {
            before.push(q[n - 1])
        } else {
            before
        }
    }
}

/// Of the first `n` entries those of other senders than `sender`, in their order.
pub open spec fn of_others(q: Seq<FeeEntry>, sender: FeeItemSender, n: nat) -> Seq<FeeEntry>
    decreases n,
{
    if n == 0 {
        Seq::empty()
    } else {
        let before = of_others(q, sender, (n - 1) as nat);
        if q[n - 1].sender == sender {
            before
        } else {
            before.push(q[n - 1])
        }
    }
}

/// `entry` as an entry of the account `id`.
pub open spec fn retagged(entry: FeeEntry, id: u32) -> FeeEntry {
    FeeEntry { sender: FeeItemSender::AccountId(id), ..entry }
}

/// The queue `q` and the entries that left it after the first `n` of `moved` were
/// offered to it, one after the other, as entries of the account `id`.
pub open spec fn merged(q: Seq<FeeEntry>, moved: Seq<FeeEntry>, id: u32, n: nat) -> (
    Seq<FeeEntry>,
    Seq<FeeEntry>,
)
    decreases n,
{
    if n == 0 {
        (q, Seq::empty())
    } else {
        let (queue, left) = merged(q, moved, id, (n - 1) as nat);
        let entry = retagged(moved[n - 1], id);
        (
            after_offer(queue, entry),
            match displaced_by(queue, entry) {
                Some(gone) => left.push(gone),
                None => left,
            },
        )
    }
}

proof fn lemma_slot(q: Seq<FeeEntry>, i: int, sender: FeeItemSender, nonce: u32)
    requires
        slots_distinct(q),
        slot_is(q, i, sender, nonce),
    ensures
        slot_taken(q, sender, nonce),
        slot_of(q, sender, nonce) == i,
{
    let j = slot_of(q, sender, nonce);
    assert(slot_is(q, j, sender, nonce));
    if j < i {
        assert(!(q[j].sender == q[i].sender && q[j].item.nonce_spec() == q[i].item.nonce_spec()));
    } else if i < j {
        assert(!(q[i].sender == q[j].sender && q[i].item.nonce_spec() == q[j].item.nonce_spec()));
    }
}

proof fn lemma_after_offer_distinct(q: Seq<FeeEntry>, entry: FeeEntry)
    requires
        slots_distinct(q),
    ensures
        slots_distinct(after_offer(q, entry)),
{
    let after = after_offer(q, entry);
    let nonce = entry.item.nonce_spec();
    if !slot_taken(q, entry.sender, nonce) {
        assert forall|i: int, j: int| 0 <= i < j < after.len() implies !(after[i].sender
            == after[j].sender && after[i].item.nonce_spec() == after[j].item.nonce_spec()) by {
            if j == q.len() {
                assert(!slot_is(q, i, entry.sender, nonce));
            } else {
                assert(!(q[i].sender == q[j].sender && q[i].item.nonce_spec()
                    == q[j].item.nonce_spec()));
            }
        }
    } else {
        let k = slot_of(q, entry.sender, nonce);
        assert(slot_is(q, k, entry.sender, nonce));
        assert forall|i: int, j: int| 0 <= i < j < after.len() implies !(after[i].sender
            == after[j].sender && after[i].item.nonce_spec() == after[j].item.nonce_spec()) by {
            assert(!(q[i].sender == q[j].sender && q[i].item.nonce_spec()
                == q[j].item.nonce_spec()));
        }
    }
}

proof fn lemma_of_others(q: Seq<FeeEntry>, sender: FeeItemSender, n: nat)
    requires
        n <= q.len(),
        slots_distinct(q),
    ensures
        slots_distinct(of_others(q, sender, n)),
        forall|k: int|
            0 <= k < of_others(q, sender, n).len() ==> exists|i: int|
                0 <= i < n && q[i] == #[trigger] of_others(q, sender, n)[k],
        forall|k: int|
            0 <= k < of_others(q, sender, n).len() ==> (#[trigger] of_others(
                q,
                sender,
                n,
            )[k]).sender != sender,
    decreases n,
{
    if n > 0 {
        lemma_of_others(q, sender, (n - 1) as nat);
        let before = of_others(q, sender, (n - 1) as nat);
        let now = of_others(q, sender, n);
        if q[n - 1].sender != sender {
            assert forall|k: int| 0 <= k < now.len() implies exists|i: int|
                0 <= i < n && q[i] == #[trigger] now[k] by {
                if k < before.len() {
                    let i = choose|i: int| 0 <= i < n - 1 && q[i] == before[k];
                    assert(q[i] == now[k]);
                } else {
                    assert(q[n - 1] == now[k]);
                }
            }
            assert forall|a: int, b: int| 0 <= a < b < now.len() implies !(now[a].sender
                == now[b].sender && now[a].item.nonce_spec() == now[b].item.nonce_spec()) by {
                if b == before.len() {
                    let i = choose|i: int| 0 <= i < n - 1 && q[i] == before[a];
                    assert(!(q[i].sender == q[n - 1].sender && q[i].item.nonce_spec() == q[n
                        - 1].item.nonce_spec()));
                } else {
                    assert(!(before[a].sender == before[b].sender && before[a].item.nonce_spec()
                        == before[b].item.nonce_spec()));
                }
            }
        } else {
            assert forall|k: int| 0 <= k < now.len() implies exists|i: int|
                0 <= i < n && q[i] == #[trigger] now[k] by {
                let i = choose|i: int| 0 <= i < n - 1 && q[i] == before[k];
                assert(q[i] == now[k]);
            }
        }
    }
}

/// An entry that may be taken is found among the first `n` exactly where there is one.
pub proof fn lemma_top_of(q: Seq<FeeEntry>, n: nat)
    requires
        n <= q.len(),
    ensures
        top_of(q, n) matches Some(i) ==> 0 <= i < n && eligible(q, i),
        top_of(q, n) is None <==> forall|i: int| 0 <= i < n ==> !eligible(q, i),
    decreases n,
{
    if n > 0 {
        lemma_top_of(q, (n - 1) as nat);
    }
}

proof fn lemma_head_exists(q: Seq<FeeEntry>, i: int)
    requires
        0 <= i < q.len(),
    ensures
        exists|j: int| eligible(q, j),
    decreases q[i].item.nonce_spec(),
{
    if !eligible(q, i) {
        let j = choose|j: int|
            #![trigger q[j]]
            0 <= j < q.len() && q[j].sender == q[i].sender && !(q[i].item.nonce_spec()
                <= q[j].item.nonce_spec());
        lemma_head_exists(q, j);
    }
}

/// A queue that holds an entry holds one to take.
pub proof fn lemma_top_of_some(q: Seq<FeeEntry>)
    ensures
        top_of(q, q.len()) is None <==> q.len() == 0,
{
    lemma_top_of(q, q.len());
    if q.len() > 0 {
        lemma_head_exists(q, 0);
        let j = choose|j: int| eligible(q, j);
        assert(eligible(q, j));
    }
}

/// Where fee rates compare as fractions, the entry to take ranks below none of those
/// that may be taken.
pub proof fn lemma_top_ranks_highest(q: Seq<FeeEntry>, n: nat, j: int)
    requires
        n <= q.len(),
        forall|a: int, b: int| 0 <= a < q.len() && 0 <= b < q.len() ==> rates_exact(q[a], q[b]),
        0 <= j < n,
        eligible(q, j),
    ensures
        top_of(q, n) is Some,
        entry_rank(q[top_of(q, n)->Some_0], q[j]) != Rank::Below,
    decreases n,
{
    lemma_top_of(q, n);
    let i = (n - 1) as int;
    let before = top_of(q, i as nat);
    lemma_top_of(q, i as nat);
    if j < i {
        lemma_top_ranks_highest(q, i as nat, j);
        let p = before->Some_0;
        if eligible(q, i) && entry_rank(q[i], q[p]) == Rank::Above {
            // q[j] is not above q[p], and q[p] is below q[i]
            lemma_rank_antisymmetric(q[p], q[j]);
            lemma_rank_antisymmetric(q[i], q[p]);
            lemma_rates_carry(q[j], q[p], q[i]);
            lemma_rank_transitive(q[j], q[p], q[i]);
            lemma_rank_antisymmetric(q[i], q[j]);
        }
    } else {
        match before {
            None => {
                lemma_rank_reflexive(q[i]);
            },
            Some(p) => {
                if entry_rank(q[i], q[p]) == Rank::Above {
                    lemma_rank_reflexive(q[i]);
                } else {
                    lemma_rank_antisymmetric(q[i], q[p]);
                }
            },
        }
    }
}

/// Whether two senders are the same.
pub fn sender_eq(a: &FeeItemSender, b: &FeeItemSender) -> (r: bool)
    ensures
        r == (*a == *b),
{
    match (a, b) {
        (FeeItemSender::AccountId(x), FeeItemSender::AccountId(y)) => *x == *y,
        (FeeItemSender::PendingCreate(x), FeeItemSender::PendingCreate(y)) => {
            let same = hash_eq(x, y);
            proof {
                if same {
                    assert(x@ =~= y@);
                    assert(*x == *y);
                }
            }
            same
        },
        _ => false,
    }
}

/// The queue of pending work.
pub struct FeeQueue {
    entries: Vec<FeeEntry>,
}

impl FeeQueue {
    #[verifier::type_invariant]
    spec fn distinct(&self) -> bool {
        slots_distinct(self.entries@)
    }

    /// The entries, in the order in which the queue keeps them.
    pub closed spec fn view(&self) -> Seq<FeeEntry> {
        self.entries@
    }

    /// The empty queue.
    pub fn new() -> (r: FeeQueue)
        ensures
            r@ == Seq::<FeeEntry>::empty(),
    {
        FeeQueue { entries: Vec::new() }
    }

    /// The number of entries.
    pub fn len(&self) -> (r: usize)
        ensures
            r == self@.len(),
    {
        self.entries.len()
    }

    fn find(&self, sender: &FeeItemSender, nonce: u32) -> (r: Option<usize>)
        ensures
            r matches Some(i) ==> slot_is(self.entries@, i as int, *sender, nonce),
            r is None ==> !slot_taken(self.entries@, *sender, nonce),
    {
        let mut i: usize = 0;
        while i < self.entries.len()
            invariant
                i <= self.entries.len(),
                forall|k: int| 0 <= k < i ==> !slot_is(self.entries@, k, *sender, nonce),
            decreases self.entries.len() - i,
        {
            if sender_eq(&self.entries[i].sender, sender) && self.entries[i].item.nonce() == nonce {
                return Some(i);
            }
            i += 1;
        }
        None
    }

    /// Whether `sender` has an entry under `nonce`.
    pub fn contains(&self, sender: &FeeItemSender, nonce: u32) -> (r: bool)
        ensures
            r == slot_taken(self@, *sender, nonce),
    {
        match self.find(sender, nonce) {
            Some(i) => {
                assert(slot_is(self.entries@, i as int, *sender, nonce));
                true
            },
            None => false,
        }
    }

    /// Offers an entry, and hands back the entry that leaves: none, the one that the
    /// entry replaced, or the entry itself, with the place of the entry that it did not
    /// rank above.
    fn offer(&mut self, entry: FeeEntry) -> (r: (Option<FeeEntry>, Option<usize>))
        ensures
            final(self)@ == after_offer(old(self)@, entry),
            r.0 == displaced_by(old(self)@, entry),
            r.1 is Some <==> slot_taken(old(self)@, entry.sender, entry.item.nonce_spec())
                && entry_rank(
                entry,
                old(self)@[slot_of(old(self)@, entry.sender, entry.item.nonce_spec())],
            ) != Rank::Above,
            r.1 matches Some(j) ==> j == slot_of(
                old(self)@,
                entry.sender,
                entry.item.nonce_spec(),
            ) && j < old(self)@.len(),
    {
        proof {
            use_type_invariant(&*self);
            lemma_after_offer_distinct(self.entries@, entry);
        }
        let found = self.find(&entry.sender, entry.item.nonce());
        match found {
            None => {
                let mut entries: Vec<FeeEntry> = Vec::new();
                std::mem::swap(&mut entries, &mut self.entries);
                entries.push(entry);
                self.entries = entries;
                (None, None)
            },
            Some(j) => {
                proof {
                    lemma_slot(self.entries@, j as int, entry.sender, entry.item.nonce_spec());
                }
                match entry.rank(&self.entries[j]) {
                    Rank::Above => {
                        let mut entries: Vec<FeeEntry> = Vec::new();
                        std::mem::swap(&mut entries, &mut self.entries);
                        let ghost before = entries@;
                        let gone = entries.remove(j);
                        entries.insert(j, entry);
                        assert(entries@ =~= before.update(j as int, entry));
                        self.entries = entries;
                        (Some(gone), None)
                    },
                    _ => (Some(entry), Some(j)),
                }
            },
        }
    }

    /// Offers an entry. It is added where its sender has none under its nonce. Where
    /// the sender has one, the entry takes its place if it ranks above it, and the
    /// entry that was there is handed back; if not, the entry is refused, and the
    /// error names the item that holds its place.
    pub fn insert(&mut self, entry: FeeEntry) -> (r: Result<Option<FeeEntry>, Error>)
        ensures
            final(self)@ == after_offer(old(self)@, entry),
            insert_answer(old(self)@, entry, r),
    {
        let (gone, refused) = self.offer(entry);
        match refused {
            Some(j) => Err(Error::DuplicateNonce(self.entries[j].item.hash())),
            None => Ok(gone),
        }
    }

    fn is_eligible(&self, i: usize) -> (r: bool)
        requires
            i < self.entries@.len(),
        ensures
            r == eligible(self.entries@, i as int),
    {
        let mut j: usize = 0;
        while j < self.entries.len()
            invariant
                j <= self.entries.len(),
                i < self.entries@.len(),
                forall|k: int|
                    #![trigger self.entries@[k]]
                    0 <= k < j && self.entries@[k].sender == self.entries@[i as int].sender
                        ==> self.entries@[i as int].item.nonce_spec()
                        <= self.entries@[k].item.nonce_spec(),
            decreases self.entries.len() - j,
        {
            if sender_eq(&self.entries[j].sender, &self.entries[i].sender)
                && self.entries[j].item.nonce() < self.entries[i].item.nonce() {
                return false;
            }
            j += 1;
        }
        true
    }

    /// Takes the entry to take: of the entries that are the lowest of their sender the
    /// one that ranks above the others. The next entry of its sender may then be taken.
    /// `None` where the queue is empty.
    pub fn pop(&mut self) -> (r: Option<FeeEntry>)
        ensures
            r is None <==> old(self)@.len() == 0,
            match top_of(old(self)@, old(self)@.len()) {
                Some(i) => r == Some(old(self)@[i]) && final(self)@ == old(self)@.remove(i),
                None => r is None && final(self)@ == old(self)@,
            },
    {
        proof {
            use_type_invariant(&*self);
            lemma_top_of_some(self.entries@);
            lemma_top_of(self.entries@, self.entries@.len());
        }
        let mut best: Option<usize> = None;
        let mut i: usize = 0;
        while i < self.entries.len()
            invariant
                i <= self.entries.len(),
                match top_of(self.entries@, i as nat) {
                    Some(p) => best == Some(p as usize) && 0 <= p < i,
                    None => best is None,
                },
            decreases self.entries.len() - i,
        {
            proof {
                lemma_top_of(self.entries@, i as nat);
            }
            if self.is_eligible(i) {
                best = match best {
                    None => Some(i),
                    Some(p) => match self.entries[i].rank(&self.entries[p]) {
                        Rank::Above => Some(i),
                        _ => Some(p),
                    },
                };
            }
            i += 1;
        }
        match best {
            None => None,
            Some(p) => {
                let mut entries: Vec<FeeEntry> = Vec::new();
                std::mem::swap(&mut entries, &mut self.entries);
                let ghost before = entries@;
                let taken = entries.remove(p);
                proof {
                    let after = entries@;
                    assert forall|a: int, b: int| 0 <= a < b < after.len() implies !(after[a].sender
                        == after[b].sender && after[a].item.nonce_spec()
                        == after[b].item.nonce_spec()) by {
                        let a0 = if a < p { a } else { a + 1 };
                        let b0 = if b < p { b } else { b + 1 };
                        assert(!(before[a0].sender == before[b0].sender
                            && before[a0].item.nonce_spec() == before[b0].item.nonce_spec()));
                    }
                }
                self.entries = entries;
                Some(taken)
            },
        }
    }

    /// The account `id` was created for the sender known by `pending`. The entries of
    /// that sender become entries of the account: each is offered to the queue, in the
    /// queue's order, as an entry of the account. The entries that left the queue on
    /// the way are handed back.
    pub fn account_created(&mut self, pending: Byte32, id: u32) -> (r: Vec<FeeEntry>)
        ensures
            ({
                let sender = FeeItemSender::PendingCreate(pending);
                let moved = of_sender(old(self)@, sender, old(self)@.len());
                let rest = of_others(old(self)@, sender, old(self)@.len());
                (final(self)@, r@) == merged(rest, moved, id, moved.len())
            }),
    {
        proof {
            use_type_invariant(&*self);
        }
        let sender = FeeItemSender::PendingCreate(pending);
        let mut all: Vec<FeeEntry> = Vec::new();
        std::mem::swap(&mut all, &mut self.entries);
        let ghost before = all@;
        let ghost total = before.len();
        let mut moved: Vec<FeeEntry> = Vec::new();
        let mut others: Vec<FeeEntry> = Vec::new();
        while all.len() > 0
            invariant
                total == before.len(),
                all@.len() <= total,
                all@ == before.subrange(total - all@.len(), total as int),
                moved@ == of_sender(before, sender, (total - all@.len()) as nat),
                others@ == of_others(before, sender, (total - all@.len()) as nat),
            decreases all@.len(),
        {
            let ghost k = total - all@.len();
            let entry = all.remove(0);
            assert(entry == before[k]);
            assert(all@ =~= before.subrange(k + 1, total as int));
            if sender_eq(&entry.sender, &sender) {
                moved.push(entry);
            } else {
                others.push(entry);
            }
        }
        proof {
            lemma_of_others(before, sender, total);
        }
        let mut rest = FeeQueue { entries: others };
        let ghost offered = moved@;
        let ghost start = rest@;
        let ghost count = offered.len();
        let mut left: Vec<FeeEntry> = Vec::new();
        while moved.len() > 0
            invariant
                count == offered.len(),
                moved@.len() <= count,
                moved@ == offered.subrange(count - moved@.len(), count as int),
                (rest@, left@) == merged(start, offered, id, (count - moved@.len()) as nat),
            decreases moved@.len(),
        {
            let ghost k = count - moved@.len();
            let mut entry = moved.remove(0);
            assert(entry == offered[k]);
            assert(moved@ =~= offered.subrange(k + 1, count as int));
            entry.sender = FeeItemSender::AccountId(id);
            assert(entry == retagged(offered[k], id));
            let (gone, _) = rest.offer(entry);
            match gone {
                Some(gone) => {
                    left.push(gone);
                },
                None => {},
            }
        }
        proof {
            use_type_invariant(&rest);
        }
        let mut entries: Vec<FeeEntry> = Vec::new();
        std::mem::swap(&mut entries, &mut rest.entries);
        self.entries = entries;
        left
    }
}

} // verus!
