//! A keyed table in memory: columns of byte keys with byte values.
use vstd::prelude::*;
use crate::bytes::{bytes_eq, copy_bytes};
use crate::error::Error;
use crate::hash::Byte32;
use crate::keys::Col;
use crate::rank::{lemma_lex_flip, lemma_lex_level, lemma_lex_transitive, lex_rank, rank_bytes, Rank};

verus! {

/// What a table holds: a value under each column and key that is present.
pub type Table = Map<(Col, Seq<u8>), Seq<u8>>;

/// A store of byte values under a column and a byte key.
pub trait KVStore {
    /// What the store holds.
    spec fn table(&self) -> Table;

    /// The value under `key` in `col`, if there is one.
    fn get(&self, col: Col, key: &[u8]) -> (r: Option<Vec<u8>>)
        ensures
            r is Some <==> self.table().contains_key((col, key@)),
            r matches Some(v) ==> v@ == self.table()[(col, key@)],
    ;

    /// Puts `value` under `key` in `col`. A store that refuses is left as it was.
    fn insert_raw(&mut self, col: Col, key: &[u8], value: &[u8]) -> (r: Result<(), Error>)
        ensures
            r is Ok ==> final(self).table() == old(self).table().insert((col, key@), value@),
            r is Err ==> final(self).table() == old(self).table(),
    ;

    /// Removes `key` from `col`. A store that refuses is left as it was.
    fn delete(&mut self, col: Col, key: &[u8]) -> (r: Result<(), Error>)
        ensures
            r is Ok ==> final(self).table() == old(self).table().remove((col, key@)),
            r is Err ==> final(self).table() == old(self).table(),
    ;
}

/// What a read of a 32-byte value gives: nothing where the key is absent, an error
/// where its value is not 32 bytes long.
pub open spec fn hash_at(t: Table, col: Col, key: Seq<u8>) -> Result<Option<Seq<u8>>, Error> {
    if !t.contains_key((col, key)) {
        Ok(None)
    } else if t[(col, key)].len() != 32 {
        Err(Error::StoreCorruption)
    } else {
        Ok(Some(t[(col, key)]))
    }
}

/// What a read of a 32-byte value that has to be there gives.
pub open spec fn required_hash_at(t: Table, col: Col, key: Seq<u8>) -> Result<Seq<u8>, Error> {
    if t.contains_key((col, key)) && t[(col, key)].len() == 32 {
        Ok(t[(col, key)])
    } else {
        Err(Error::StoreCorruption)
    }
}

/// A 32-byte value that was read, or not, as bytes.
pub open spec fn seen_hash(r: Result<Option<Byte32>, Error>) -> Result<Option<Seq<u8>>, Error> {
    match r {
        Ok(Some(h)) => Ok(Some(h@)),
        Ok(None) => Ok(None),
        Err(e) => Err(e),
    }
}

/// A 32-byte value that had to be there and was read, as bytes.
pub open spec fn seen_required_hash(r: Result<Byte32, Error>) -> Result<Seq<u8>, Error> {
    match r {
        Ok(h) => Ok(h@),
        Err(e) => Err(e),
    }
}

/// The value under a key, if the table has the key.
pub open spec fn value_at(t: Table, col: Col, key: Seq<u8>) -> Option<Seq<u8>> {
    if t.contains_key((col, key)) {
        Some(t[(col, key)])
    } else {
        None
    }
}

/// Which way a column is gone through: by rising or by falling keys.
#[derive(Clone, Copy, Debug, PartialEq, Eq)]
pub enum Direction {
    Forward,
    Reverse,
}

/// Where going through a column starts: at its lowest key, going up; at its highest,
/// going down; or at a key, going either way.
#[derive(Clone, Copy, Debug, PartialEq, Eq)]
pub enum IteratorMode<'a> {
    Start,
    End,
    From(&'a [u8], Direction),
}

/// Whether `mode` goes by rising keys.
pub open spec fn goes_forward(mode: IteratorMode) -> bool {
    match mode {
        IteratorMode::Start => true,
        IteratorMode::End => false,
        IteratorMode::From(_, direction) => direction is Forward,
    }
}

/// Whether going through a column in `mode` comes by `key`: keys are ordered as byte
/// strings, and going from a key leaves out the keys on the other side of it.
pub open spec fn in_range(mode: IteratorMode, key: Seq<u8>) -> bool {
    match mode {
        IteratorMode::Start => true,
        IteratorMode::End => true,
        IteratorMode::From(from, direction) => if direction is Forward {
            lex_rank(key, from@) != Rank::Below
        } else {
            lex_rank(key, from@) != Rank::Above
        },
    }
}

/// Keys with their values, as bytes.
pub open spec fn pairs(rows: Seq<(Vec<u8>, Vec<u8>)>) -> Seq<(Seq<u8>, Seq<u8>)> {
    Seq::new(rows.len(), |i: int| (rows[i].0@, rows[i].1@))
}

/// Whether `rows` is what going through `col` of `t` in `mode` gives: every key of the
/// column that the mode comes by, once, with its value, in the order of the keys.
pub open spec fn iterated(
    t: Table,
    col: Col,
    mode: IteratorMode,
    rows: Seq<(Seq<u8>, Seq<u8>)>,
) -> bool {
    &&& forall|i: int, j: int|
        0 <= i < j < rows.len() ==> lex_rank(#[trigger] rows[i].0, #[trigger] rows[j].0) == (
        if goes_forward(mode) {
            Rank::Below
        } else {
            Rank::Above
        })
    &&& forall|i: int|
        0 <= i < rows.len() ==> in_range(mode, (#[trigger] rows[i]).0) && t.contains_key(
            (col, rows[i].0),
        ) && t[(col, rows[i].0)] == rows[i].1
    &&& forall|key: Seq<u8>| #[trigger]
        t.contains_key((col, key)) && in_range(mode, key) ==> listed(rows, key)
}

/// Whether one of `rows` is of `key`.
pub open spec fn listed(rows: Seq<(Seq<u8>, Seq<u8>)>, key: Seq<u8>) -> bool {
    exists|i: int| 0 <= i < rows.len() && (#[trigger] rows[i]).0 == key
}

/// The writes of a transaction: the rows to put and the keys to remove.
pub struct Changes {
    pub puts: Vec<(Col, Vec<u8>, Vec<u8>)>,
    pub deletes: Vec<(Col, Vec<u8>)>,
}

/// Whether `now` holds `value` under `at` and `base` does not: a row to put.
pub open spec fn put_needed(now: Table, base: Table, at: (Col, Seq<u8>), value: Seq<u8>) -> bool {
    now.contains_key(at) && now[at] == value && !(base.contains_key(at) && base[at] == value)
}

/// Whether `base` holds `at` and `now` does not: a key to remove.
pub open spec fn delete_needed(now: Table, base: Table, at: (Col, Seq<u8>)) -> bool {
    base.contains_key(at) && !now.contains_key(at)
}

/// Whether one of `puts` is of `at`.
pub open spec fn put_listed(puts: Seq<(Col, Vec<u8>, Vec<u8>)>, at: (Col, Seq<u8>)) -> bool {
    exists|i: int| 0 <= i < puts.len() && (#[trigger] puts[i]).0 == at.0 && puts[i].1@ == at.1
}

/// Whether one of `deletes` is `at`.
pub open spec fn delete_listed(deletes: Seq<(Col, Vec<u8>)>, at: (Col, Seq<u8>)) -> bool {
    exists|i: int| 0 <= i < deletes.len() && (#[trigger] deletes[i]).0 == at.0 && deletes[i].1@ == at.1
}

/// Whether `puts` and `deletes` are the writes that turn `base` into `now`: each row of
/// `now` that `base` does not hold as it is, once, and each key of `base` that `now`
/// does not hold, once.
pub open spec fn changes_between(
    now: Table,
    base: Table,
    puts: Seq<(Col, Vec<u8>, Vec<u8>)>,
    deletes: Seq<(Col, Vec<u8>)>,
) -> bool {
    &&& forall|i: int|
        0 <= i < puts.len() ==> put_needed(
            now,
            base,
            ((#[trigger] puts[i]).0, puts[i].1@),
            puts[i].2@,
        )
    &&& forall|at: (Col, Seq<u8>)|
        #![trigger now.contains_key(at)]
        now.contains_key(at) && !(base.contains_key(at) && base[at] == now[at]) ==> put_listed(
            puts,
            at,
        )
    &&& forall|i: int, j: int|
        0 <= i < j < puts.len() ==> !((#[trigger] puts[i]).0 == (#[trigger] puts[j]).0
            && puts[i].1@ == puts[j].1@)
    &&& forall|i: int|
        0 <= i < deletes.len() ==> delete_needed(now, base, ((#[trigger] deletes[i]).0, deletes[i].1@))
    &&& forall|at: (Col, Seq<u8>)|
        #![trigger base.contains_key(at)]
        delete_needed(now, base, at) ==> delete_listed(deletes, at)
    &&& forall|i: int, j: int|
        0 <= i < j < deletes.len() ==> !((#[trigger] deletes[i]).0 == (#[trigger] deletes[j]).0
            && deletes[i].1@ == deletes[j].1@)
}

/// `base` with the first `n` of `puts` written.
pub open spec fn with_puts(base: Table, puts: Seq<(Col, Vec<u8>, Vec<u8>)>, n: nat) -> Table
    decreases n,
{
    if n == 0 {
        base
    } else {
        with_puts(base, puts, (n - 1) as nat).insert((puts[n - 1].0, puts[n - 1].1@), puts[n - 1].2@)
    }
}

/// `base` with the first `n` of `deletes` removed.
pub open spec fn with_deletes(base: Table, deletes: Seq<(Col, Vec<u8>)>, n: nat) -> Table
    decreases n,
{
    if n == 0 {
        base
    } else {
        with_deletes(base, deletes, (n - 1) as nat).remove((deletes[n - 1].0, deletes[n - 1].1@))
    }
}

proof fn lemma_with_puts(
    base: Table,
    puts: Seq<(Col, Vec<u8>, Vec<u8>)>,
    n: nat,
    at: (Col, Seq<u8>),
)
    requires
        n <= puts.len(),
    ensures
        !put_listed(puts.subrange(0, n as int), at) ==> (with_puts(base, puts, n).contains_key(at)
            <==> base.contains_key(at)) && with_puts(base, puts, n)[at] == base[at],
        put_listed(puts.subrange(0, n as int), at) ==> with_puts(base, puts, n).contains_key(at)
            && exists|i: int|
            0 <= i < n && (#[trigger] puts[i]).0 == at.0 && puts[i].1@ == at.1 && puts[i].2@
                == with_puts(base, puts, n)[at],
    decreases n,
{
    if n > 0 {
        let head = puts.subrange(0, n - 1);
        let now = puts.subrange(0, n as int);
        lemma_with_puts(base, puts, (n - 1) as nat, at);
        let last = puts[n - 1];
        assert(now[n - 1] == last);
        if last.0 == at.0 && last.1@ == at.1 {
            assert(put_listed(now, at));
        } else {
            if put_listed(now, at) {
                let i = choose|i: int|
                    0 <= i < now.len() && (#[trigger] now[i]).0 == at.0 && now[i].1@ == at.1;
                assert(head[i] == now[i]);
                assert(put_listed(head, at));
                let j = choose|j: int|
                    0 <= j < n - 1 && (#[trigger] puts[j]).0 == at.0 && puts[j].1@ == at.1
                        && puts[j].2@ == with_puts(base, puts, (n - 1) as nat)[at];
                assert(puts[j].0 == at.0);
            }
            if put_listed(head, at) {
                let i = choose|i: int|
                    0 <= i < head.len() && (#[trigger] head[i]).0 == at.0 && head[i].1@ == at.1;
                assert(now[i] == head[i]);
                assert(put_listed(now, at));
            }
        }
    }
}

proof fn lemma_with_deletes(base: Table, deletes: Seq<(Col, Vec<u8>)>, n: nat, at: (Col, Seq<u8>))
    requires
        n <= deletes.len(),
    ensures
        with_deletes(base, deletes, n).contains_key(at) <==> base.contains_key(at)
            && !delete_listed(deletes.subrange(0, n as int), at),
        with_deletes(base, deletes, n).contains_key(at) ==> with_deletes(base, deletes, n)[at]
            == base[at],
    decreases n,
{
    if n > 0 {
        let head = deletes.subrange(0, n - 1);
        let now = deletes.subrange(0, n as int);
        lemma_with_deletes(base, deletes, (n - 1) as nat, at);
        let last = deletes[n - 1];
        assert(now[n - 1] == last);
        if last.0 == at.0 && last.1@ == at.1 {
            assert(delete_listed(now, at));
        } else {
            if delete_listed(now, at) {
                let i = choose|i: int|
                    0 <= i < now.len() && (#[trigger] now[i]).0 == at.0 && now[i].1@ == at.1;
                assert(head[i] == now[i]);
                assert(delete_listed(head, at));
            }
            if delete_listed(head, at) {
                let i = choose|i: int|
                    0 <= i < head.len() && (#[trigger] head[i]).0 == at.0 && head[i].1@ == at.1;
                assert(now[i] == head[i]);
                assert(delete_listed(now, at));
            }
        }
    }
}

/// The writes that turn `base` into `now`, applied to `base`, give `now`.
pub proof fn lemma_changes_applied(
    now: Table,
    base: Table,
    puts: Seq<(Col, Vec<u8>, Vec<u8>)>,
    deletes: Seq<(Col, Vec<u8>)>,
)
    requires
        changes_between(now, base, puts, deletes),
    ensures
        with_deletes(with_puts(base, puts, puts.len()), deletes, deletes.len()) == now,
{
    let put = with_puts(base, puts, puts.len());
    let done = with_deletes(put, deletes, deletes.len());
    assert(puts.subrange(0, puts.len() as int) =~= puts);
    assert(deletes.subrange(0, deletes.len() as int) =~= deletes);
    assert forall|at: (Col, Seq<u8>)| done.contains_key(at) <==> now.contains_key(at) by {
        lemma_with_puts(base, puts, puts.len(), at);
        lemma_with_deletes(put, deletes, deletes.len(), at);
        if put_listed(puts, at) {
            let i = choose|i: int|
                0 <= i < puts.len() && (#[trigger] puts[i]).0 == at.0 && puts[i].1@ == at.1;
            assert(put_needed(now, base, (puts[i].0, puts[i].1@), puts[i].2@));
            assert((puts[i].0, puts[i].1@) == at);
        }
        if delete_listed(deletes, at) {
            let i = choose|i: int|
                0 <= i < deletes.len() && (#[trigger] deletes[i]).0 == at.0 && deletes[i].1@
                    == at.1;
            assert(delete_needed(now, base, (deletes[i].0, deletes[i].1@)));
            assert((deletes[i].0, deletes[i].1@) == at);
        }
    }
    assert forall|at: (Col, Seq<u8>)| done.contains_key(at) implies done[at] == now[at] by {
        lemma_with_puts(base, puts, puts.len(), at);
        lemma_with_deletes(put, deletes, deletes.len(), at);
        if put_listed(puts, at) {
            let j = choose|j: int|
                0 <= j < puts.len() && (#[trigger] puts[j]).0 == at.0 && puts[j].1@ == at.1
                    && puts[j].2@ == put[at];
            assert(put_needed(now, base, (puts[j].0, puts[j].1@), puts[j].2@));
            assert((puts[j].0, puts[j].1@) == at);
        }
    }
    assert(done =~= now);
}

/// One row of a table.
struct KvEntry {
    col: Col,
    key: Vec<u8>,
    value: Vec<u8>,
}

/// Whether the row at `i` sits under `col` and `key`.
spec fn row_is(rows: Seq<KvEntry>, i: int, col: Col, key: Seq<u8>) -> bool {
    0 <= i < rows.len() && rows[i].col == col && rows[i].key@ == key
}

/// Whether some row sits under `col` and `key`.
spec fn has_row(rows: Seq<KvEntry>, col: Col, key: Seq<u8>) -> bool {
    exists|i: int| row_is(rows, i, col, key)
}

/// A row that sits under `col` and `key`, where there is one.
spec fn row_of(rows: Seq<KvEntry>, col: Col, key: Seq<u8>) -> int {
    choose|i: int| row_is(rows, i, col, key)
}

/// No column and key has two rows.
spec fn rows_distinct(rows: Seq<KvEntry>) -> bool {
    forall|i: int, j: int|
        0 <= i < j < rows.len() ==> !(rows[i].col == rows[j].col && rows[i].key@ == rows[j].key@)
}

/// The table that rows stand for.
spec fn table_of(rows: Seq<KvEntry>) -> Table {
    Map::new(
        |k: (Col, Seq<u8>)| has_row(rows, k.0, k.1),
        |k: (Col, Seq<u8>)| rows[row_of(rows, k.0, k.1)].value@,
    )
}

proof fn lemma_row(rows: Seq<KvEntry>, i: int, col: Col, key: Seq<u8>)
    requires
        rows_distinct(rows),
        row_is(rows, i, col, key),
    ensures
        has_row(rows, col, key),
        row_of(rows, col, key) == i,
        table_of(rows).contains_key((col, key)),
        table_of(rows)[(col, key)] == rows[i].value@,
{
    let j = row_of(rows, col, key);
    assert(row_is(rows, j, col, key));
    if j < i {
        assert(!(rows[j].col == rows[i].col && rows[j].key@ == rows[i].key@));
    } else if i < j {
        assert(!(rows[i].col == rows[j].col && rows[i].key@ == rows[j].key@));
    }
}

proof fn lemma_rows_replace(rows: Seq<KvEntry>, i: int, row: KvEntry)
    requires
        rows_distinct(rows),
        row_is(rows, i, row.col, row.key@),
    ensures
        rows_distinct(rows.update(i, row)),
        table_of(rows.update(i, row)) == table_of(rows).insert((row.col, row.key@), row.value@),
{
    let after = rows.update(i, row);
    let want = table_of(rows).insert((row.col, row.key@), row.value@);
    assert(rows_distinct(after)) by {
        assert forall|a: int, b: int| 0 <= a < b < after.len() implies !(after[a].col
            == after[b].col && after[a].key@ == after[b].key@) by {
            assert(!(rows[a].col == rows[b].col && rows[a].key@ == rows[b].key@));
        }
    }
    assert forall|k: (Col, Seq<u8>)| table_of(after).contains_key(k) <==> want.contains_key(
        k,
    ) by {
        if has_row(after, k.0, k.1) {
            let j = row_of(after, k.0, k.1);
            if j != i {
                assert(row_is(rows, j, k.0, k.1));
            }
        }
        if has_row(rows, k.0, k.1) {
            let j = row_of(rows, k.0, k.1);
            assert(row_is(after, j, k.0, k.1));
        }
        if k == (row.col, row.key@) {
            assert(row_is(after, i, k.0, k.1));
        }
    }
    assert forall|k: (Col, Seq<u8>)| table_of(after).contains_key(k) implies table_of(after)[k]
        == want[k] by {
        let j = row_of(after, k.0, k.1);
        assert(row_is(after, j, k.0, k.1));
        lemma_row(after, j, k.0, k.1);
        if j != i {
            assert(row_is(rows, j, k.0, k.1));
            lemma_row(rows, j, k.0, k.1);
        }
    }
    assert(table_of(after) =~= want);
}

proof fn lemma_rows_push(rows: Seq<KvEntry>, row: KvEntry)
    requires
        rows_distinct(rows),
        forall|i: int| !row_is(rows, i, row.col, row.key@),
    ensures
        rows_distinct(rows.push(row)),
        table_of(rows.push(row)) == table_of(rows).insert((row.col, row.key@), row.value@),
{
    let after = rows.push(row);
    let n = rows.len() as int;
    let want = table_of(rows).insert((row.col, row.key@), row.value@);
    assert(rows_distinct(after)) by {
        assert forall|a: int, b: int| 0 <= a < b < after.len() implies !(after[a].col
            == after[b].col && after[a].key@ == after[b].key@) by {
            if b == n {
                assert(!row_is(rows, a, row.col, row.key@));
            } else {
                assert(!(rows[a].col == rows[b].col && rows[a].key@ == rows[b].key@));
            }
        }
    }
    assert forall|k: (Col, Seq<u8>)| table_of(after).contains_key(k) <==> want.contains_key(
        k,
    ) by {
        if has_row(after, k.0, k.1) {
            let j = row_of(after, k.0, k.1);
            if j != n {
                assert(row_is(rows, j, k.0, k.1));
            }
        }
        if has_row(rows, k.0, k.1) {
            let j = row_of(rows, k.0, k.1);
            assert(row_is(after, j, k.0, k.1));
        }
        if k == (row.col, row.key@) {
            assert(row_is(after, n, k.0, k.1));
        }
    }
    assert forall|k: (Col, Seq<u8>)| table_of(after).contains_key(k) implies table_of(after)[k]
        == want[k] by {
        let j = row_of(after, k.0, k.1);
        assert(row_is(after, j, k.0, k.1));
        lemma_row(after, j, k.0, k.1);
        if j != n {
            assert(row_is(rows, j, k.0, k.1));
            lemma_row(rows, j, k.0, k.1);
        }
    }
    assert(table_of(after) =~= want);
}

proof fn lemma_rows_remove(rows: Seq<KvEntry>, i: int)
    requires
        rows_distinct(rows),
        0 <= i < rows.len(),
    ensures
        rows_distinct(rows.remove(i)),
        table_of(rows.remove(i)) == table_of(rows).remove((rows[i].col, rows[i].key@)),
{
    let after = rows.remove(i);
    let gone = (rows[i].col, rows[i].key@);
    let want = table_of(rows).remove(gone);
    assert forall|j: int| 0 <= j < after.len() implies after[j] == rows[if j < i {
        j
    } else {
        j + 1
    }] by {}
    assert(rows_distinct(after)) by {
        assert forall|a: int, b: int| 0 <= a < b < after.len() implies !(after[a].col
            == after[b].col && after[a].key@ == after[b].key@) by {
            let a0 = if a < i { a } else { a + 1 };
            let b0 = if b < i { b } else { b + 1 };
            assert(!(rows[a0].col == rows[b0].col && rows[a0].key@ == rows[b0].key@));
        }
    }
    assert forall|k: (Col, Seq<u8>)| table_of(after).contains_key(k) <==> want.contains_key(
        k,
    ) by {
        if has_row(after, k.0, k.1) {
            let j = row_of(after, k.0, k.1);
            let j0 = if j < i { j } else { j + 1 };
            assert(row_is(rows, j0, k.0, k.1));
            if k == gone {
                lemma_row(rows, i, k.0, k.1);
                lemma_row(rows, j0, k.0, k.1);
            }
        }
        if has_row(rows, k.0, k.1) && k != gone {
            let j = row_of(rows, k.0, k.1);
            assert(j != i);
            let j1 = if j < i { j } else { j - 1 };
            assert(row_is(after, j1, k.0, k.1));
        }
    }
    assert forall|k: (Col, Seq<u8>)| table_of(after).contains_key(k) implies table_of(after)[k]
        == want[k] by {
        let j = row_of(after, k.0, k.1);
        assert(row_is(after, j, k.0, k.1));
        lemma_row(after, j, k.0, k.1);
        let j0 = if j < i { j } else { j + 1 };
        assert(row_is(rows, j0, k.0, k.1));
        lemma_row(rows, j0, k.0, k.1);
    }
    assert(table_of(after) =~= want);
}

/// Whether `out` lists, by rising keys, the rows among the first `n` that sit in `col`
/// and that `mode` comes by.
spec fn gathered(
    rows: Seq<KvEntry>,
    n: int,
    col: Col,
    mode: IteratorMode,
    out: Seq<(Seq<u8>, Seq<u8>)>,
) -> bool {
    &&& forall|a: int, b: int|
        0 <= a < b < out.len() ==> lex_rank(#[trigger] out[a].0, #[trigger] out[b].0)
            == Rank::Below
    &&& forall|k: int| 0 <= k < out.len() ==> from_row(rows, n, col, mode, #[trigger] out[k])
    &&& forall|j: int|
        0 <= j < n && (#[trigger] rows[j]).col == col && in_range(mode, rows[j].key@) ==> listed(
            out,
            rows[j].key@,
        )
}

/// Whether `pair` is one of the first `n` rows, sits in `col`, and `mode` comes by it.
spec fn from_row(
    rows: Seq<KvEntry>,
    n: int,
    col: Col,
    mode: IteratorMode,
    pair: (Seq<u8>, Seq<u8>),
) -> bool {
    exists|j: int|
        0 <= j < n && j < rows.len() && (#[trigger] rows[j]).col == col && rows[j].key@ == pair.0
            && rows[j].value@ == pair.1 && in_range(mode, pair.0)
}

proof fn lemma_gathered_insert(
    rows: Seq<KvEntry>,
    n: int,
    col: Col,
    mode: IteratorMode,
    out: Seq<(Seq<u8>, Seq<u8>)>,
    p: int,
)
    requires
        rows_distinct(rows),
        0 <= n < rows.len(),
        gathered(rows, n, col, mode, out),
        rows[n].col == col,
        in_range(mode, rows[n].key@),
        0 <= p <= out.len(),
        forall|a: int| 0 <= a < p ==> lex_rank((#[trigger] out[a]).0, rows[n].key@) == Rank::Below,
        p < out.len() ==> lex_rank(out[p].0, rows[n].key@) != Rank::Below,
    ensures
        gathered(rows, n + 1, col, mode, out.insert(p, (rows[n].key@, rows[n].value@))),
{
    let key = rows[n].key@;
    let pair = (key, rows[n].value@);
    let after = out.insert(p, pair);
    // no listed key is the new one
    assert forall|k: int| 0 <= k < out.len() implies (#[trigger] out[k]).0 != key by {
        assert(from_row(rows, n, col, mode, out[k]));
        let j = choose|j: int|
            0 <= j < n && j < rows.len() && (#[trigger] rows[j]).col == col && rows[j].key@
                == out[k].0 && rows[j].value@ == out[k].1 && in_range(mode, out[k].0);
        assert(!(rows[j].col == rows[n].col && rows[j].key@ == rows[n].key@));
    }
    // the keys from `p` on lie above the new one
    assert forall|b: int| p <= b < out.len() implies lex_rank(key, (#[trigger] out[b]).0)
        == Rank::Below by {
        lemma_lex_level(out[p].0, key);
        lemma_lex_flip(out[p].0, key);
        if b > p {
            assert(lex_rank(out[p].0, out[b].0) == Rank::Below);
            lemma_lex_transitive(key, out[p].0, out[b].0);
        }
    }
    assert forall|a: int, b: int| 0 <= a < b < after.len() implies lex_rank(
        #[trigger] after[a].0,
        #[trigger] after[b].0,
    ) == Rank::Below by {
        if b == p {
            assert(after[a] == out[a]);
        } else if a == p {
            assert(after[b] == out[b - 1]);
        } else {
            let a0 = if a < p { a } else { a - 1 };
            let b0 = if b < p { b } else { b - 1 };
            assert(after[a] == out[a0] && after[b] == out[b0]);
            assert(lex_rank(out[a0].0, out[b0].0) == Rank::Below);
        }
    }
    assert forall|k: int| 0 <= k < after.len() implies from_row(
        rows,
        n + 1,
        col,
        mode,
        #[trigger] after[k],
    ) by {
        if k == p {
            assert(rows[n].col == col);
        } else {
            let k0 = if k < p { k } else { k - 1 };
            assert(after[k] == out[k0]);
            assert(from_row(rows, n, col, mode, out[k0]));
            let j = choose|j: int|
                0 <= j < n && j < rows.len() && (#[trigger] rows[j]).col == col && rows[j].key@
                    == out[k0].0 && rows[j].value@ == out[k0].1 && in_range(mode, out[k0].0);
            assert(rows[j].col == col);
        }
    }
    assert forall|j: int|
        0 <= j < n + 1 && (#[trigger] rows[j]).col == col && in_range(
            mode,
            rows[j].key@,
        ) implies listed(after, rows[j].key@) by {
        if j == n {
            assert(after[p].0 == rows[j].key@);
        } else {
            assert(listed(out, rows[j].key@));
            let k = choose|k: int| 0 <= k < out.len() && (#[trigger] out[k]).0 == rows[j].key@;
            let k1 = if k < p { k } else { k + 1 };
            assert(after[k1] == out[k]);
        }
    }
}

proof fn lemma_gathered_skip(
    rows: Seq<KvEntry>,
    n: int,
    col: Col,
    mode: IteratorMode,
    out: Seq<(Seq<u8>, Seq<u8>)>,
)
    requires
        0 <= n < rows.len(),
        gathered(rows, n, col, mode, out),
        !(rows[n].col == col && in_range(mode, rows[n].key@)),
    ensures
        gathered(rows, n + 1, col, mode, out),
{
    assert forall|k: int| 0 <= k < out.len() implies from_row(
        rows,
        n + 1,
        col,
        mode,
        #[trigger] out[k],
    ) by {
        assert(from_row(rows, n, col, mode, out[k]));
        let j = choose|j: int|
            0 <= j < n && j < rows.len() && (#[trigger] rows[j]).col == col && rows[j].key@
                == out[k].0 && rows[j].value@ == out[k].1 && in_range(mode, out[k].0);
        assert(rows[j].col == col);
    }
}

proof fn lemma_gathered_all(
    rows: Seq<KvEntry>,
    col: Col,
    mode: IteratorMode,
    out: Seq<(Seq<u8>, Seq<u8>)>,
)
    requires
        rows_distinct(rows),
        gathered(rows, rows.len() as int, col, mode, out),
    ensures
        forall|i: int|
            0 <= i < out.len() ==> in_range(mode, (#[trigger] out[i]).0) && table_of(
                rows,
            ).contains_key((col, out[i].0)) && table_of(rows)[(col, out[i].0)] == out[i].1,
        forall|key: Seq<u8>| #[trigger]
            table_of(rows).contains_key((col, key)) && in_range(mode, key) ==> listed(out, key),
{
    assert forall|i: int| 0 <= i < out.len() implies in_range(mode, (#[trigger] out[i]).0)
        && table_of(rows).contains_key((col, out[i].0)) && table_of(rows)[(col, out[i].0)]
        == out[i].1 by {
        assert(from_row(rows, rows.len() as int, col, mode, out[i]));
        let j = choose|j: int|
            0 <= j < rows.len() && j < rows.len() && (#[trigger] rows[j]).col == col
                && rows[j].key@ == out[i].0 && rows[j].value@ == out[i].1 && in_range(
                mode,
                out[i].0,
            );
        lemma_row(rows, j, col, out[i].0);
    }
    assert forall|key: Seq<u8>| #[trigger]
        table_of(rows).contains_key((col, key)) && in_range(mode, key) implies listed(
        out,
        key,
    ) by {
        let j = row_of(rows, col, key);
        assert(row_is(rows, j, col, key));
        assert(rows[j].col == col);
    }
}

fn comes_by(mode: IteratorMode, key: &[u8]) -> (r: bool)
    ensures
        r == in_range(mode, key@),
{
    match mode {
        IteratorMode::Start => true,
        IteratorMode::End => true,
        IteratorMode::From(from, direction) => {
            let rank = rank_bytes(key, from);
            match direction {
                Direction::Forward => match rank {
                    Rank::Below => false,
                    _ => true,
                },
                Direction::Reverse => match rank {
                    Rank::Above => false,
                    _ => true,
                },
            }
        },
    }
}

/// Whether one of the rows before `bound` sits under `col` and `key`.
spec fn row_before(rows: Seq<KvEntry>, bound: int, col: Col, key: Seq<u8>) -> bool {
    exists|j: int| row_is(rows, j, col, key) && j < bound
}

/// A table in memory. It never refuses a write.
pub struct KvTable {
    rows: Vec<KvEntry>,
}

impl KvTable {
    #[verifier::type_invariant]
    spec fn distinct(&self) -> bool {
        rows_distinct(self.rows@)
    }

    /// What the table holds.
    pub closed spec fn view(&self) -> Table {
        table_of(self.rows@)
    }

    /// The empty table.
    pub fn new() -> (r: KvTable)
        ensures
            r@ == Table::empty(),
    {
        let r = KvTable { rows: Vec::new() };
        assert(r@ =~= Table::empty());
        r
    }

    /// The row under `col` and `key`, if there is one.
    fn find(&self, col: Col, key: &[u8]) -> (r: Option<usize>)
        ensures
            r matches Some(i) ==> row_is(self.rows@, i as int, col, key@),
            r is None ==> forall|i: int| !row_is(self.rows@, i, col, key@),
    {
        let mut i: usize = 0;
        while i < self.rows.len()
            invariant
                i <= self.rows.len(),
                forall|k: int| 0 <= k < i ==> !row_is(self.rows@, k, col, key@),
            decreases self.rows.len() - i,
        {
            if self.rows[i].col == col && bytes_eq(self.rows[i].key.as_slice(), key) {
                return Some(i);
            }
            i += 1;
        }
        None
    }

    /// The value under `key` in `col`, if there is one.
    pub fn get(&self, col: Col, key: &[u8]) -> (r: Option<Vec<u8>>)
        ensures
            r is Some <==> self@.contains_key((col, key@)),
            r matches Some(v) ==> v@ == self@[(col, key@)],
    {
        proof {
            use_type_invariant(self);
        }
        match self.find(col, key) {
            Some(i) => {
                proof {
                    lemma_row(self.rows@, i as int, col, key@);
                }
                Some(copy_bytes(self.rows[i].value.as_slice()))
            },
            None => None,
        }
    }

    /// Whether `col` holds `key`.
    pub fn contains(&self, col: Col, key: &[u8]) -> (r: bool)
        ensures
            r == self@.contains_key((col, key@)),
    {
        proof {
            use_type_invariant(self);
        }
        match self.find(col, key) {
            Some(i) => {
                proof {
                    lemma_row(self.rows@, i as int, col, key@);
                }
                true
            },
            None => false,
        }
    }

    /// Puts `value` under `key` in `col`, in place of what was there.
    pub fn insert(&mut self, col: Col, key: &[u8], value: &[u8])
        ensures
            final(self)@ == old(self)@.insert((col, key@), value@),
    {
        proof {
            use_type_invariant(&*self);
        }
        let row = KvEntry { col, key: copy_bytes(key), value: copy_bytes(value) };
        let found = self.find(col, key);
        let mut rows: Vec<KvEntry> = Vec::new();
        std::mem::swap(&mut rows, &mut self.rows);
        match found {
            Some(i) => {
                proof {
                    lemma_rows_replace(rows@, i as int, row);
                }
                rows.set(i, row);
            },
            None => {
                proof {
                    lemma_rows_push(rows@, row);
                }
                rows.push(row);
            },
        }
        self.rows = rows;
    }

    /// Removes `key` from `col`. Nothing changes where it is absent.
    pub fn remove(&mut self, col: Col, key: &[u8])
        ensures
            final(self)@ == old(self)@.remove((col, key@)),
    {
        proof {
            use_type_invariant(&*self);
        }
        match self.find(col, key) {
            Some(i) => {
                let mut rows: Vec<KvEntry> = Vec::new();
                std::mem::swap(&mut rows, &mut self.rows);
                proof {
                    lemma_rows_remove(rows@, i as int);
                }
                let _ = rows.remove(i);
                self.rows = rows;
            },
            None => {
                assert(self@ =~= self@.remove((col, key@)));
            },
        }
    }

    /// Goes through a column: its keys that `mode` comes by, each with its value, in the
    /// order of the keys as byte strings, rising or falling as `mode` says.
    pub fn iter(&self, col: Col, mode: IteratorMode) -> (r: Vec<(Vec<u8>, Vec<u8>)>)
        ensures
            iterated(self@, col, mode, pairs(r@)),
    {
        proof {
            use_type_invariant(self);
        }
        let mut out: Vec<(Vec<u8>, Vec<u8>)> = Vec::new();
        let mut i: usize = 0;
        while i < self.rows.len()
            invariant
                i <= self.rows.len(),
                rows_distinct(self.rows@),
                gathered(self.rows@, i as int, col, mode, pairs(out@)),
            decreases self.rows.len() - i,
        {
            let row = &self.rows[i];
            if row.col == col && comes_by(mode, row.key.as_slice()) {
                let mut p: usize = 0;
                while p < out.len() && rank_bytes(out[p].0.as_slice(), row.key.as_slice())
                    == Rank::Below
                    invariant
                        p <= out.len(),
                        forall|a: int|
                            0 <= a < p ==> lex_rank((#[trigger] pairs(out@)[a]).0, row.key@)
                                == Rank::Below,
                    decreases out.len() - p,
                {
                    p += 1;
                }
                let ghost before = pairs(out@);
                proof {
                    lemma_gathered_insert(self.rows@, i as int, col, mode, before, p as int);
                }
                out.insert(p, (copy_bytes(row.key.as_slice()), copy_bytes(row.value.as_slice())));
                assert(pairs(out@) =~= before.insert(p as int, (row.key@, row.value@)));
            } else {
                proof {
                    lemma_gathered_skip(self.rows@, i as int, col, mode, pairs(out@));
                }
            }
            i += 1;
        }
        proof {
            lemma_gathered_all(self.rows@, col, mode, pairs(out@));
        }
        let forward = match mode {
            IteratorMode::Start => true,
            IteratorMode::End => false,
            IteratorMode::From(_, direction) => match direction {
                Direction::Forward => true,
                Direction::Reverse => false,
            },
        };
        if forward {
            return out;
        }
        let ghost risen = pairs(out@);
        let ghost n = risen.len() as int;
        let mut back: Vec<(Vec<u8>, Vec<u8>)> = Vec::new();
        while out.len() > 0
            invariant
                n == risen.len(),
                out@.len() + back@.len() == n,
                pairs(out@) == risen.subrange(0, out@.len() as int),
                forall|k: int|
                    0 <= k < back@.len() ==> (#[trigger] pairs(back@)[k]) == risen[n - 1 - k],
            decreases out@.len(),
        {
            let ghost shorter = out@.len() - 1;
            let ghost old_back = pairs(back@);
            let ghost old_out = out@;
            let pair = out.pop().unwrap();
            assert(pairs(old_out)[shorter] == risen.subrange(0, old_out.len() as int)[shorter]);
            assert(pairs(out@) =~= risen.subrange(0, shorter));
            assert((pair.0@, pair.1@) == risen[shorter]);
            back.push(pair);
            assert forall|k: int| 0 <= k < back@.len() implies (#[trigger] pairs(back@)[k])
                == risen[n - 1 - k] by {
                if k < old_back.len() {
                    assert(pairs(back@)[k] == old_back[k]);
                }
            }
        }
        proof {
            let fallen = pairs(back@);
            assert forall|a: int, b: int| 0 <= a < b < fallen.len() implies lex_rank(
                #[trigger] fallen[a].0,
                #[trigger] fallen[b].0,
            ) == Rank::Above by {
                assert(fallen[a] == risen[n - 1 - a] && fallen[b] == risen[n - 1 - b]);
                assert(lex_rank(risen[n - 1 - b].0, risen[n - 1 - a].0) == Rank::Below);
                lemma_lex_flip(risen[n - 1 - b].0, risen[n - 1 - a].0);
            }
            assert forall|key: Seq<u8>| #[trigger]
                self@.contains_key((col, key)) && in_range(mode, key) implies listed(
                fallen,
                key,
            ) by {
                assert(listed(risen, key));
                let k = choose|k: int| 0 <= k < risen.len() && (#[trigger] risen[k]).0 == key;
                assert(fallen[n - 1 - k] == risen[k]);
            }
            assert forall|k: int| 0 <= k < fallen.len() implies in_range(
                mode,
                (#[trigger] fallen[k]).0,
            ) && self@.contains_key((col, fallen[k].0)) && self@[(col, fallen[k].0)]
                == fallen[k].1 by {
                assert(fallen[k] == risen[n - 1 - k]);
            }
        }
        back
    }

    /// The writes that turn `base` into this table: the rows that `base` does not hold
    /// as they are here, and the keys that `base` holds and this table does not.
    pub fn changes_since(&self, base: &KvTable) -> (r: Changes)
        ensures
            changes_between(self@, base@, r.puts@, r.deletes@),
    {
        proof {
            use_type_invariant(self);
            use_type_invariant(base);
        }
        let mut puts: Vec<(Col, Vec<u8>, Vec<u8>)> = Vec::new();
        let mut i: usize = 0;
        while i < self.rows.len()
            invariant
                i <= self.rows.len(),
                rows_distinct(self.rows@),
                forall|a: int|
                    0 <= a < puts@.len() ==> put_needed(
                        self@,
                        base@,
                        ((#[trigger] puts@[a]).0, puts@[a].1@),
                        puts@[a].2@,
                    ) && row_before(self.rows@, i as int, puts@[a].0, puts@[a].1@),
                forall|j: int|
                    0 <= j < i && !(base@.contains_key(
                        ((#[trigger] self.rows@[j]).col, self.rows@[j].key@),
                    ) && base@[(self.rows@[j].col, self.rows@[j].key@)] == self.rows@[j].value@)
                        ==> put_listed(puts@, (self.rows@[j].col, self.rows@[j].key@)),
                forall|a: int, b: int|
                    0 <= a < b < puts@.len() ==> !((#[trigger] puts@[a]).0 == (
                    #[trigger] puts@[b]).0 && puts@[a].1@ == puts@[b].1@),
            decreases self.rows.len() - i,
        {
            let row = &self.rows[i];
            proof {
                lemma_row(self.rows@, i as int, row.col, row.key@);
            }
            let same = match base.get(row.col, row.key.as_slice()) {
                Some(held) => bytes_eq(held.as_slice(), row.value.as_slice()),
                None => false,
            };
            if !same {
                let ghost before = puts@;
                proof {
                    assert forall|a: int| 0 <= a < before.len() implies !((#[trigger] before[a]).0
                        == row.col && before[a].1@ == row.key@) by {
                        assert(row_before(self.rows@, i as int, before[a].0, before[a].1@));
                        let j = choose|j: int|
                            row_is(self.rows@, j, before[a].0, before[a].1@) && j < i;
                        assert(!(self.rows@[j].col == self.rows@[i as int].col && self.rows@[j].key@
                            == self.rows@[i as int].key@));
                    }
                }
                puts.push((row.col, copy_bytes(row.key.as_slice()), copy_bytes(row.value.as_slice())));
                proof {
                    let n = before.len() as int;
                    assert(puts@[n].0 == row.col && puts@[n].1@ == row.key@);
                    assert(row_is(self.rows@, i as int, puts@[n].0, puts@[n].1@));
                    assert forall|a: int| 0 <= a < puts@.len() implies put_needed(
                        self@,
                        base@,
                        ((#[trigger] puts@[a]).0, puts@[a].1@),
                        puts@[a].2@,
                    ) && row_before(self.rows@, i + 1, puts@[a].0, puts@[a].1@) by {
                        if a < n {
                            assert(puts@[a] == before[a]);
                            assert(row_before(self.rows@, i as int, before[a].0, before[a].1@));
                            let j = choose|j: int|
                                row_is(self.rows@, j, before[a].0, before[a].1@) && j < i;
                            assert(row_is(self.rows@, j, puts@[a].0, puts@[a].1@) && j < i + 1);
                        } else {
                            assert(puts@[a].2@ == row.value@);
                            assert(row_is(self.rows@, i as int, puts@[a].0, puts@[a].1@) && i < i
                                + 1);
                        }
                    }
                    assert forall|j: int|
                        0 <= j < i + 1 && !(base@.contains_key(
                            ((#[trigger] self.rows@[j]).col, self.rows@[j].key@),
                        ) && base@[(self.rows@[j].col, self.rows@[j].key@)]
                            == self.rows@[j].value@) implies put_listed(
                        puts@,
                        (self.rows@[j].col, self.rows@[j].key@),
                    ) by {
                        if j < i {
                            assert(put_listed(before, (self.rows@[j].col, self.rows@[j].key@)));
                            let a = choose|a: int|
                                0 <= a < before.len() && (#[trigger] before[a]).0
                                    == self.rows@[j].col && before[a].1@ == self.rows@[j].key@;
                            assert(puts@[a] == before[a]);
                        } else {
                            assert(puts@[n].0 == self.rows@[j].col);
                        }
                    }
                    assert forall|a: int, b: int| 0 <= a < b < puts@.len() implies !((
                    #[trigger] puts@[a]).0 == (#[trigger] puts@[b]).0 && puts@[a].1@
                        == puts@[b].1@) by {
                        assert(puts@[a] == before[a]);
                        if b < n {
                            assert(puts@[b] == before[b]);
                        }
                    }
                }
            } else {
                proof {
                    assert forall|a: int| 0 <= a < puts@.len() implies put_needed(
                        self@,
                        base@,
                        ((#[trigger] puts@[a]).0, puts@[a].1@),
                        puts@[a].2@,
                    ) && row_before(self.rows@, i + 1, puts@[a].0, puts@[a].1@) by {
                        assert(row_before(self.rows@, i as int, puts@[a].0, puts@[a].1@));
                        let j = choose|j: int|
                            row_is(self.rows@, j, puts@[a].0, puts@[a].1@) && j < i;
                        assert(row_is(self.rows@, j, puts@[a].0, puts@[a].1@) && j < i + 1);
                    }
                }
            }
            i += 1;
        }
        proof {
            assert forall|at: (Col, Seq<u8>)|
                #![trigger self@.contains_key(at)]
                self@.contains_key(at) && !(base@.contains_key(at) && base@[at]
                    == self@[at]) implies put_listed(puts@, at) by {
                let j = row_of(self.rows@, at.0, at.1);
                assert(row_is(self.rows@, j, at.0, at.1));
                lemma_row(self.rows@, j, at.0, at.1);
                assert(at == (self.rows@[j].col, self.rows@[j].key@));
            }
        }
        let mut deletes: Vec<(Col, Vec<u8>)> = Vec::new();
        let mut k: usize = 0;
        while k < base.rows.len()
            invariant
                k <= base.rows.len(),
                rows_distinct(base.rows@),
                forall|a: int|
                    0 <= a < deletes@.len() ==> delete_needed(
                        self@,
                        base@,
                        ((#[trigger] deletes@[a]).0, deletes@[a].1@),
                    ) && row_before(base.rows@, k as int, deletes@[a].0, deletes@[a].1@),
                forall|j: int|
                    0 <= j < k && !self@.contains_key(
                        ((#[trigger] base.rows@[j]).col, base.rows@[j].key@),
                    ) ==> delete_listed(deletes@, (base.rows@[j].col, base.rows@[j].key@)),
                forall|a: int, b: int|
                    0 <= a < b < deletes@.len() ==> !((#[trigger] deletes@[a]).0 == (
                    #[trigger] deletes@[b]).0 && deletes@[a].1@ == deletes@[b].1@),
            decreases base.rows.len() - k,
        {
            let row = &base.rows[k];
            proof {
                lemma_row(base.rows@, k as int, row.col, row.key@);
            }
            if !self.contains(row.col, row.key.as_slice()) {
                let ghost before = deletes@;
                proof {
                    assert forall|a: int| 0 <= a < before.len() implies !((#[trigger] before[a]).0
                        == row.col && before[a].1@ == row.key@) by {
                        assert(row_before(base.rows@, k as int, before[a].0, before[a].1@));
                        let j = choose|j: int|
                            row_is(base.rows@, j, before[a].0, before[a].1@) && j < k;
                        assert(!(base.rows@[j].col == base.rows@[k as int].col && base.rows@[j].key@
                            == base.rows@[k as int].key@));
                    }
                }
                deletes.push((row.col, copy_bytes(row.key.as_slice())));
                proof {
                    let n = before.len() as int;
                    assert(deletes@[n].0 == row.col && deletes@[n].1@ == row.key@);
                    assert forall|a: int| 0 <= a < deletes@.len() implies delete_needed(
                        self@,
                        base@,
                        ((#[trigger] deletes@[a]).0, deletes@[a].1@),
                    ) && row_before(base.rows@, k + 1, deletes@[a].0, deletes@[a].1@) by {
                        if a < n {
                            assert(deletes@[a] == before[a]);
                            assert(row_before(base.rows@, k as int, before[a].0, before[a].1@));
                            let j = choose|j: int|
                                row_is(base.rows@, j, before[a].0, before[a].1@) && j < k;
                            assert(row_is(base.rows@, j, deletes@[a].0, deletes@[a].1@) && j < k
                                + 1);
                        } else {
                            assert(row_is(base.rows@, k as int, deletes@[a].0, deletes@[a].1@)
                                && k < k + 1);
                        }
                    }
                    assert forall|j: int|
                        0 <= j < k + 1 && !self@.contains_key(
                            ((#[trigger] base.rows@[j]).col, base.rows@[j].key@),
                        ) implies delete_listed(
                        deletes@,
                        (base.rows@[j].col, base.rows@[j].key@),
                    ) by {
                        if j < k {
                            assert(delete_listed(before, (base.rows@[j].col, base.rows@[j].key@)));
                            let a = choose|a: int|
                                0 <= a < before.len() && (#[trigger] before[a]).0
                                    == base.rows@[j].col && before[a].1@ == base.rows@[j].key@;
                            assert(deletes@[a] == before[a]);
                        } else {
                            assert(deletes@[n].0 == base.rows@[j].col);
                        }
                    }
                    assert forall|a: int, b: int| 0 <= a < b < deletes@.len() implies !((
                    #[trigger] deletes@[a]).0 == (#[trigger] deletes@[b]).0 && deletes@[a].1@
                        == deletes@[b].1@) by {
                        assert(deletes@[a] == before[a]);
                        if b < n {
                            assert(deletes@[b] == before[b]);
                        }
                    }
                }
            } else {
                proof {
                    assert forall|a: int| 0 <= a < deletes@.len() implies delete_needed(
                        self@,
                        base@,
                        ((#[trigger] deletes@[a]).0, deletes@[a].1@),
                    ) && row_before(base.rows@, k + 1, deletes@[a].0, deletes@[a].1@) by {
                        assert(row_before(base.rows@, k as int, deletes@[a].0, deletes@[a].1@));
                        let j = choose|j: int|
                            row_is(base.rows@, j, deletes@[a].0, deletes@[a].1@) && j < k;
                        assert(row_is(base.rows@, j, deletes@[a].0, deletes@[a].1@) && j < k + 1);
                    }
                }
            }
            k += 1;
        }
        proof {
            assert forall|at: (Col, Seq<u8>)|
                #![trigger base@.contains_key(at)]
                delete_needed(self@, base@, at) implies delete_listed(deletes@, at) by {
                let j = row_of(base.rows@, at.0, at.1);
                assert(row_is(base.rows@, j, at.0, at.1));
                assert(at == (base.rows@[j].col, base.rows@[j].key@));
            }
        }
        Changes { puts, deletes }
    }

    /// A copy of the table as it is now.
    pub fn snapshot(&self) -> (r: KvTable)
        ensures
            r@ == self@,
    {
        proof {
            use_type_invariant(self);
        }
        let mut r = KvTable::new();
        let mut i: usize = 0;
        while i < self.rows.len()
            invariant
                i <= self.rows.len(),
                rows_distinct(self.rows@),
                r@ == table_of(self.rows@.subrange(0, i as int)),
            decreases self.rows.len() - i,
        {
            proof {
                let head = self.rows@.subrange(0, i as int);
                assert(rows_distinct(head)) by {
                    assert forall|a: int, b: int| 0 <= a < b < head.len() implies !(head[a].col
                        == head[b].col && head[a].key@ == head[b].key@) by {
                        assert(!(self.rows@[a].col == self.rows@[b].col && self.rows@[a].key@
                            == self.rows@[b].key@));
                    }
                }
                assert forall|k: int| !row_is(
                    head,
                    k,
                    self.rows@[i as int].col,
                    self.rows@[i as int].key@,
                ) by {
                    if 0 <= k < i {
                        assert(!(self.rows@[k].col == self.rows@[i as int].col && self.rows@[k].key@
                            == self.rows@[i as int].key@));
                    }
                }
                lemma_rows_push(head, self.rows@[i as int]);
                assert(head.push(self.rows@[i as int]) =~= self.rows@.subrange(0, i + 1));
            }
            r.insert(self.rows[i].col, self.rows[i].key.as_slice(), self.rows[i].value.as_slice());
            i += 1;
        }
        assert(self.rows@.subrange(0, i as int) =~= self.rows@);
        r
    }
}

impl KVStore for KvTable {
    open spec fn table(&self) -> Table {
        self@
    }

    fn get(&self, col: Col, key: &[u8]) -> (r: Option<Vec<u8>>) {
        KvTable::get(self, col, key)
    }

    /// The table in memory refuses no write.
    fn insert_raw(&mut self, col: Col, key: &[u8], value: &[u8]) -> (r: Result<(), Error>)
        ensures
            r is Ok,
            final(self)@ == old(self)@.insert((col, key@), value@),
    {
        self.insert(col, key, value);
        Ok(())
    }

    /// The table in memory refuses no write.
    fn delete(&mut self, col: Col, key: &[u8]) -> (r: Result<(), Error>)
        ensures
            r is Ok,
            final(self)@ == old(self)@.remove((col, key@)),
    {
        self.remove(col, key);
        Ok(())
    }
}

} // verus!
