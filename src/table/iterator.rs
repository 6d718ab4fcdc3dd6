use std::sync::Arc;
use vstd::prelude::*;
use crate::block::{BlockBuilder, BlockIterator};
use crate::iterators::{StorageError, StorageIterator};
use crate::key::{Entry, key_le, key_lt, keys_strictly_sorted, lemma_cmp_trans, lemma_cmp_antisym, lemma_cmp_eq};
use crate::table::SsTable;
use crate::iterators::merge_iterator::holds_key;
use crate::mem_table::{value_of, lemma_unique_value};

verus! {

/// The entries of blocks `k`, `k + 1`, ... of `t`, up to the first block that
/// cannot be read or is empty.
pub open spec fn chain(t: SsTable, k: int) -> Seq<Entry>
    decreases t.metas().len() - k,
{
    if k < 0 || k >= t.metas().len() || !t.block_readable(k) || t.block_entries(k).len() == 0 {
        Seq::empty()
    } else {
        t.block_entries(k) + chain(t, k + 1)
    }
}

/// The entries of `s` from the first whose key is at least `k`.
pub open spec fn from_key(s: Seq<Entry>, k: Seq<u8>) -> Seq<Entry>
    decreases s.len(),
{
    if s.len() == 0 {
        s
    } else if key_lt(s[0].0, k) {
        from_key(s.drop_first(), k)
    } else {
        s
    }
}

/// Every block of `t` can be read.
pub open spec fn blocks_readable(t: SsTable) -> bool {
    forall|i: int| 0 <= i < t.metas().len() ==> #[trigger] t.block_readable(i)
}

/// Every block of `t` can be read and holds entries, each starts with the first
/// key of its record, and the keys increase strictly from block to block.
pub open spec fn well_built(t: SsTable) -> bool {
    &&& forall|i: int| 0 <= i < t.metas().len() ==> #[trigger] t.block_readable(i) && t.block_entries(i).len() > 0
    &&& t.first_keys_match()
    &&& keys_strictly_sorted(chain(t, 0))
}

/// What a cursor at block `idx`, standing at `it`, has left to give.
pub open spec fn rest_from(t: SsTable, idx: int, it: BlockIterator) -> Seq<Entry> {
    if it.remaining().len() == 0 {
        Seq::empty()
    } else {
        it.remaining() + chain(t, idx + 1)
    }
}

proof fn lemma_sorted_split(x: Seq<Entry>, y: Seq<Entry>)
    requires
        keys_strictly_sorted(x + y),
    ensures
        keys_strictly_sorted(y),
        forall|i: int, j: int| 0 <= i < x.len() && 0 <= j < y.len() ==> key_lt(#[trigger] x[i].0, #[trigger] y[j].0),
{
    let s = x + y;
    assert forall|a: int, b: int| 0 <= a < b < y.len() implies key_lt(#[trigger] y[a].0, #[trigger] y[b].0) by {
        assert(s[x.len() + a] == y[a]);
        assert(s[x.len() + b] == y[b]);
    }
    assert forall|i: int, j: int| 0 <= i < x.len() && 0 <= j < y.len() implies key_lt(#[trigger] x[i].0, #[trigger] y[j].0) by {
        assert(s[i] == x[i]);
        assert(s[x.len() + j] == y[j]);
    }
}

proof fn lemma_from_key_skip(x: Seq<Entry>, y: Seq<Entry>, k: Seq<u8>)
    requires
        forall|i: int| 0 <= i < x.len() ==> key_lt(#[trigger] x[i].0, k),
    ensures
        from_key(x + y, k) == from_key(y, k),
    decreases x.len(),
{
    if x.len() > 0 {
        assert((x + y)[0] == x[0]);
        assert((x + y).drop_first() =~= x.drop_first() + y);
        assert forall|i: int| 0 <= i < x.drop_first().len() implies key_lt(#[trigger] x.drop_first()[i].0, k) by {
            assert(x.drop_first()[i] == x[i + 1]);
        }
        lemma_from_key_skip(x.drop_first(), y, k);
    } else {
        assert(x + y =~= y);
    }
}

proof fn lemma_from_key_at(s: Seq<Entry>, p: int, k: Seq<u8>)
    requires
        0 <= p <= s.len(),
        forall|j: int| 0 <= j < p ==> key_lt(#[trigger] s[j].0, k),
        p < s.len() ==> key_le(k, s[p].0),
    ensures
        from_key(s, k) == s.subrange(p, s.len() as int),
    decreases p,
{
    if p > 0 {
        assert forall|j: int| 0 <= j < p - 1 implies key_lt(#[trigger] s.drop_first()[j].0, k) by {
            assert(s.drop_first()[j] == s[j + 1]);
        }
        if p < s.len() {
            assert(s.drop_first()[p - 1] == s[p]);
        }
        lemma_from_key_at(s.drop_first(), p - 1, k);
        assert(s.drop_first().subrange(p - 1, s.len() - 1) =~= s.subrange(p, s.len() as int));
    } else if s.len() > 0 {
        lemma_cmp_antisym(k, s[0].0);
        assert(s.subrange(0, s.len() as int) =~= s);
    } else {
        assert(s.subrange(0, 0) =~= s);
    }
}

/// In a well-built table, the entries before block `b` lie below its first key,
/// so a search that starts at `b` misses none at or above it.
proof fn lemma_blocks_before(t: SsTable, k: int, b: int, key: Seq<u8>)
    requires
        well_built(t),
        0 <= k <= b < t.metas().len(),
        keys_strictly_sorted(chain(t, k)),
        k < b ==> key_le(t.metas()[b].2, key),
    ensures
        from_key(chain(t, k), key) == from_key(chain(t, b), key),
        exists|i: int| 0 <= i < chain(t, k).len() && #[trigger] chain(t, k)[i] == chain(t, b)[0],
    decreases b - k,
{
    assert(t.block_readable(b) && t.block_entries(b).len() > 0);
    assert(chain(t, b) == t.block_entries(b) + chain(t, b + 1));
    if k == b {
        assert(chain(t, b)[0] == chain(t, b)[0]);
    } else {
        assert(t.block_readable(k) && t.block_entries(k).len() > 0);
        let x = t.block_entries(k);
        let y = chain(t, k + 1);
        assert(chain(t, k) == x + y);
        lemma_sorted_split(x, y);
        lemma_blocks_before(t, k + 1, b, key);
        let i = choose|i: int| 0 <= i < y.len() && #[trigger] y[i] == chain(t, b)[0];
        assert((x + y)[x.len() + i] == chain(t, b)[0]);
        assert(chain(t, b)[0].0 == t.metas()[b].2);
        assert forall|j: int| 0 <= j < x.len() implies key_lt(#[trigger] x[j].0, key) by {
            assert(key_lt(x[j].0, y[i].0));
            lemma_cmp_trans(x[j].0, y[i].0, key);
        }
        lemma_from_key_skip(x, y, key);
    }
}

/// In a stream with strictly increasing keys, the entries from `k` on start
/// with `k` exactly when the stream holds `k`, and then with its entry.
pub proof fn lemma_from_key_finds(s: Seq<Entry>, k: Seq<u8>)
    requires
        keys_strictly_sorted(s),
    ensures
        holds_key(s, k) ==> from_key(s, k).len() > 0 && value_of(s, k) == Some(from_key(s, k)[0].1) && from_key(s, k)[0].0 == k,
        !holds_key(s, k) ==> from_key(s, k).len() == 0 || from_key(s, k)[0].0 != k,
    decreases s.len(),
{
    if s.len() > 0 {
        let t = s.drop_first();
        assert(keys_strictly_sorted(t)) by {
            assert forall|a: int, b: int| 0 <= a < b < t.len() implies key_lt(#[trigger] t[a].0, #[trigger] t[b].0) by {
                assert(t[a] == s[a + 1]);
                assert(t[b] == s[b + 1]);
            }
        }
        lemma_from_key_finds(t, k);
        if key_lt(s[0].0, k) {
            crate::key::lemma_cmp_refl(k);
            if holds_key(s, k) {
                let q = choose|q: int| 0 <= q < s.len() && (#[trigger] s[q]).0 == k;
                assert(q != 0);
                assert(t[q - 1] == s[q]);
                assert(holds_key(t, k));
                lemma_unique_value(s, q);
                let q2 = choose|q2: int| 0 <= q2 < t.len() && (#[trigger] t[q2]).0 == k;
                lemma_unique_value(t, q2);
                assert(t[q2] == s[q2 + 1]);
                lemma_unique_value(s, q2 + 1);
            } else {
                if holds_key(t, k) {
                    let q2 = choose|q2: int| 0 <= q2 < t.len() && (#[trigger] t[q2]).0 == k;
                    assert(s[q2 + 1] == t[q2]);
                }
            }
        } else {
            if s[0].0 == k {
                lemma_unique_value(s, 0);
            } else {
                lemma_cmp_antisym(s[0].0, k);
                lemma_cmp_eq(s[0].0, k);
                if holds_key(s, k) {
                    let q = choose|q: int| 0 <= q < s.len() && (#[trigger] s[q]).0 == k;
                    assert(q != 0);
                    assert(key_lt(s[0].0, s[q].0));
                }
            }
        }
    }
}

proof fn lemma_suffix_sorted(t: SsTable, b: int)
    requires
        well_built(t),
        0 <= b < t.metas().len(),
    ensures
        keys_strictly_sorted(chain(t, b)),
    decreases b,
{
    if b > 0 {
        lemma_suffix_sorted(t, b - 1);
        assert(t.block_readable(b - 1) && t.block_entries(b - 1).len() > 0);
        assert(chain(t, b - 1) == t.block_entries(b - 1) + chain(t, b));
        lemma_sorted_split(t.block_entries(b - 1), chain(t, b));
    }
}

/// A cursor over the entries of one table, block after block.
pub struct SsTableIterator {
    table: Arc<SsTable>,
    block_idx: usize,
    block_iter: BlockIterator,
}

/// A cursor over no entries.
fn empty_block_iter() -> (r: BlockIterator)
    ensures
        r.wf(),
        r.remaining().len() == 0,
        r.position() == 0,
        r.block_entries().len() == 0,
{
    let b = BlockBuilder::new(0).build();
    let it = BlockIterator::create_and_seek_to_first(Arc::new(b));
    it
}

/// Where a cursor at block `idx` may stand in `t`.
pub open spec fn placed(t: SsTable, idx: int, it: BlockIterator) -> bool {
    &&& it.wf()
    &&& 0 <= idx <= t.metas().len()
    &&& idx < t.metas().len() ==> t.block_readable(idx) && it.block_entries() == t.block_entries(idx)
    &&& idx == t.metas().len() ==> it.remaining().len() == 0
}

fn seek_table_to_first(table: &Arc<SsTable>) -> (r: Result<(usize, BlockIterator), StorageError>)
    ensures
        r matches Ok((idx, it)) ==> placed(**table, idx as int, it) && it.position() == 0
            && (table.metas().len() == 0 || idx == 0),
        r is Err ==> table.metas().len() > 0 && !table.block_readable(0),
{
    if table.num_of_blocks() == 0 {
        return Ok((0, empty_block_iter()));
    }
    Ok((0, BlockIterator::create_and_seek_to_first(table.read_block_cached(0)?)))
}

spec fn table_of(table: &Arc<SsTable>) -> SsTable {
    **table
}

fn seek_table_to_key(table: &Arc<SsTable>, key: &[u8]) -> (r: Result<(usize, BlockIterator), StorageError>)
    ensures
        r matches Ok((idx, it)) ==> placed(**table, idx as int, it)
            && (table.first_keys_match() && it.remaining().len() > 0 ==> key_le(key@, it.remaining()[0].0))
            && (well_built(**table) ==> rest_from(**table, idx as int, it) == from_key(chain(**table, 0), key@)),
        blocks_readable(**table) ==> r is Ok,
{
    let n = table.num_of_blocks();
    if n == 0 {
        let it = empty_block_iter();
        assert(chain(**table, 0) =~= Seq::<Entry>::empty());
        return Ok((0, it));
    }
    let block_idx = table.find_block_idx(key);
    let mut block_iter = BlockIterator::create_and_seek_to_key(table.read_block_cached(block_idx)?, key);
    let ghost t = table_of(table);
    let ghost b = block_idx as int;
    proof {
        if well_built(t) {
            if b > 0 {
                assert(t.block_readable(b) && t.block_entries(b).len() > 0);
            }
            lemma_blocks_before(t, 0, b, key@);
            let blk = t.block_entries(b);
            assert(chain(t, b) == blk + chain(t, b + 1));
            lemma_suffix_sorted(t, b);
            lemma_sorted_split(blk, chain(t, b + 1));
            let p = block_iter.position();
            assert forall|j: int| 0 <= j < p implies key_lt(#[trigger] (blk + chain(t, b + 1))[j].0, key@) by {
                assert((blk + chain(t, b + 1))[j] == blk[j]);
                if p < blk.len() && blk[p].0 == key@ {
                    assert((blk + chain(t, b + 1))[p] == blk[p]);
                }
            }
            if p < blk.len() {
                assert((blk + chain(t, b + 1))[p] == blk[p]);
                lemma_from_key_at(blk + chain(t, b + 1), p, key@);
                assert((blk + chain(t, b + 1)).subrange(p, (blk + chain(t, b + 1)).len() as int)
                    =~= block_iter.remaining() + chain(t, b + 1));
            } else {
                lemma_from_key_skip(blk, chain(t, b + 1), key@);
            }
        }
    }
    if !block_iter.is_valid() {
        // Every key of this block is below `key`: the answer is the next block's first entry.
        let block_idx = block_idx + 1;
        if block_idx < n {
            block_iter = BlockIterator::create_and_seek_to_first(table.read_block_cached(block_idx)?);
            proof {
                if block_iter.remaining().len() > 0 {
                    assert(table.block_entries(block_idx as int)[0] == block_iter.remaining()[0]);
                    crate::key::lemma_cmp_antisym(key@, block_iter.remaining()[0].0);
                }
                if well_built(t) {
                    let c = chain(t, block_idx as int);
                    assert(c == t.block_entries(block_idx as int) + chain(t, block_idx + 1));
                    assert(block_iter.remaining() =~= t.block_entries(block_idx as int));
                    lemma_from_key_at(c, 0, key@);
                    assert(c.subrange(0, c.len() as int) =~= c);
                }
            }
        } else {
            proof {
                if well_built(t) {
                    assert(chain(t, block_idx as int) =~= Seq::<Entry>::empty());
                }
            }
        }
        return Ok((block_idx, block_iter));
    }
    Ok((block_idx, block_iter))
}

impl SsTableIterator {
    pub closed spec fn table(&self) -> SsTable {
        *self.table
    }

    /// Creates a cursor on the first entry of `table`.
    pub fn create_and_seek_to_first(table: Arc<SsTable>) -> (r: Result<Self, StorageError>)
        ensures
            r matches Ok(it) ==> it.inv() && it.entries() == chain(*table, 0) && it.table() == *table,
            r is Err ==> table.metas().len() > 0 && !table.block_readable(0),
    {
        let (block_idx, block_iter) = seek_table_to_first(&table)?;
        Ok(Self { table, block_idx, block_iter })
    }

    /// Moves to the first entry of the table.
    pub fn seek_to_first(&mut self) -> (r: Result<(), StorageError>)
        requires
            old(self).inv(),
        ensures
            r is Ok ==> final(self).inv() && final(self).entries() == chain(old(self).table(), 0),
            final(self).table() == old(self).table(),
            r is Err ==> old(self).table().metas().len() > 0 && !old(self).table().block_readable(0),
    {
        let (block_idx, block_iter) = seek_table_to_first(&self.table)?;
        self.block_idx = block_idx;
        self.block_iter = block_iter;
        Ok(())
    }

    /// Creates a cursor on the first entry of `table` whose key is at least `key`.
    pub fn create_and_seek_to_key(table: Arc<SsTable>, key: &[u8]) -> (r: Result<Self, StorageError>)
        ensures
            r matches Ok(it) ==> it.inv() && it.table() == *table
                && (table.first_keys_match() && it.entries().len() > 0 ==> key_le(key@, it.entries()[0].0))
                && (well_built(*table) ==> it.entries() == from_key(chain(*table, 0), key@)),
            blocks_readable(*table) ==> r is Ok,
    {
        let (block_idx, block_iter) = seek_table_to_key(&table, key)?;
        Ok(Self { table, block_idx, block_iter })
    }

    /// Moves to the first entry whose key is at least `key`.
    pub fn seek_to_key(&mut self, key: &[u8]) -> (r: Result<(), StorageError>)
        requires
            old(self).inv(),
        ensures
            r is Ok ==> final(self).inv() && (old(self).table().first_keys_match() && final(self).entries().len() > 0
                ==> key_le(key@, final(self).entries()[0].0)),
            r is Ok && well_built(old(self).table()) ==> final(self).entries() == from_key(chain(old(self).table(), 0), key@),
            blocks_readable(old(self).table()) ==> r is Ok,
            final(self).table() == old(self).table(),
    {
        let (block_idx, block_iter) = seek_table_to_key(&self.table, key)?;
        self.block_idx = block_idx;
        self.block_iter = block_iter;
        Ok(())
    }
}

impl StorageIterator for SsTableIterator {
    open spec fn entries(&self) -> Seq<Entry> {
        if self.current_block().len() == 0 {
            Seq::empty()
        } else {
            self.current_block() + chain(self.table(), self.block_index() + 1)
        }
    }

    open spec fn fused(&self) -> bool {
        false
    }

    open spec fn cannot_fail(&self) -> bool {
        blocks_readable(self.table())
    }

    closed spec fn inv(&self) -> bool {
        placed(*self.table, self.block_idx as int, self.block_iter)
    }

    fn value(&self) -> (r: &[u8]) {
        self.block_iter.value()
    }

    fn key(&self) -> (r: &[u8]) {
        self.block_iter.key()
    }

    fn is_valid(&self) -> (r: bool) {
        self.block_iter.is_valid()
    }

    fn next(&mut self) -> (r: Result<(), StorageError>) {
        let ghost old_rem = self.block_iter.remaining();
        self.block_iter.next();
        if !self.block_iter.is_valid() {
            let n = self.table.num_of_blocks();
            if self.block_idx < n && n - self.block_idx > 1 {
                let next_block_idx = self.block_idx + 1;
                proof {
                    if blocks_readable(self.table()) {
                        assert(self.table().block_readable(next_block_idx as int));
                    }
                }
                let next_block_iter = BlockIterator::create_and_seek_to_first(self.table.read_block_cached(next_block_idx)?);
                self.block_idx = next_block_idx;
                self.block_iter = next_block_iter;
                assert(self.block_iter.remaining() =~= self.table().block_entries(next_block_idx as int));
            }
        } else {
            assert(self.block_iter.remaining() =~= old_rem.drop_first());
            assert(self.entries() =~= old(self).entries().drop_first());
        }
        Ok(())
    }
}

impl SsTableIterator {
    /// The rest of the current block.
    pub closed spec fn current_block(&self) -> Seq<Entry> {
        self.block_iter.remaining()
    }

    /// The index of the current block.
    pub closed spec fn block_index(&self) -> int {
        self.block_idx as int
    }
}

} // verus!
