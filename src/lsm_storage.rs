//! The state of the store: the memory tables and the level-0 tables, and the
//! reads and writes over them. Locking and files are the caller's.
use std::sync::Arc;
use vstd::prelude::*;
use vstd::slice::slice_to_vec;
use crate::iterators::{StorageError, StorageIterator};
use crate::iterators::merge_iterator::{MergeIterator, merge_all, views, holds_key, has_first_holder, from_first_holder, lemma_merge_sorted_and_prioritized, lemma_merge_complete};
use crate::iterators::two_merge_iterator::{TwoMergeIterator, merge_two, from_a_first, lemma_merge_two_sorted_prefers_a, lemma_merge_two_complete};
use crate::key::{Entry, keys_equal, keys_strictly_sorted, key_le, key_lt};
use crate::lsm_iterator::{FusedIterator, LsmIterator, visible, lemma_visible_respects_bound_and_deletes};
use crate::mem_table::{MemTable, MemTableIterator, value_of, in_bounds, in_range, bound_copies, lemma_filter_member, lemma_filter_keeps_order, lemma_unique_value};
use crate::table::{SsTable, SsTableBuilder, SsTableIterator};
use crate::table::builder::{fill, records_start};
use crate::table::iterator::{chain, from_key, well_built, lemma_from_key_finds};
use crate::util::{Bound, map_bound, above_lower, below_upper};

verus! {

/// The block size of flushed tables.
pub const FLUSH_BLOCK_SIZE: usize = 4096;

/// What the memory tables, newest first, hold under `k`: the first that holds it decides.
pub open spec fn newest_value(mems: Seq<Seq<Entry>>, k: Seq<u8>) -> Option<Seq<u8>>
    decreases mems.len(),
{
    if mems.len() == 0 {
        None
    } else {
        match value_of(mems[0], k) {
            Some(v) => Some(v),
            None => newest_value(mems.drop_first(), k),
        }
    }
}

/// `r` is the outcome of a read whose newest write is `v`: the value, or
/// `None` where there is none or it is a deletion.
pub open spec fn read_result(v: Option<Seq<u8>>, r: Result<Option<Vec<u8>>, StorageError>) -> bool {
    match v {
        None => r matches Ok(None),
        Some(w) => if w.len() == 0 {
            r matches Ok(None)
        } else {
            r matches Ok(Some(x)) && x@ == w
        },
    }
}

proof fn lemma_newest_append(a: Seq<Seq<Entry>>, b: Seq<Seq<Entry>>, k: Seq<u8>)
    ensures
        newest_value(a + b, k) == match newest_value(a, k) {
            Some(v) => Some(v),
            None => newest_value(b, k),
        },
    decreases a.len(),
{
    if a.len() > 0 {
        assert((a + b)[0] == a[0]);
        assert((a + b).drop_first() =~= a.drop_first() + b);
        lemma_newest_append(a.drop_first(), b, k);
    } else {
        assert(a + b =~= b);
    }
}

/// Lays out the entries of `mem` as a level-0 table with blocks of
/// `FLUSH_BLOCK_SIZE` bytes. This reads `mem` only, so it can run while the
/// store serves other reads.
pub fn build_table(mem: &MemTable, id: usize) -> (r: Result<SsTable, StorageError>)
    requires
        mem.wf(),
    ensures
        (r is Err) == (mem.view_entries().len() > usize::MAX / 210000 - 3
            || records_start(fill(mem.view_entries(), 4096)) >= 4294967295),
        r matches Ok(t) ==> chain(t, 0) == mem.view_entries() && well_built(t),
{
    let n = mem.len();
    if n > usize::MAX / 210000 - 3 {
        return Err(StorageError::TooLarge);
    }
    let mut builder = SsTableBuilder::new(FLUSH_BLOCK_SIZE);
    proof {
        assert(210000 * (n + 3) < usize::MAX) by (nonlinear_arith)
            requires
                n <= usize::MAX / 210000 - 3,
        ;
    }
    mem.flush(&mut builder);
    assert(builder.added() =~= mem.view_entries());
    assert(builder.data_len() + 500000 < usize::MAX) by (nonlinear_arith)
        requires
            builder.data_len() <= 210000 * n,
            210000 * (n + 3) < usize::MAX,
    ;
    if builder.finished_size() >= 4294967295 {
        return Err(StorageError::TooLarge);
    }
    Ok(builder.build(id))
}

/// The scan cursor over the store.
pub type ScanIterator = FusedIterator<LsmIterator<TwoMergeIterator<MergeIterator<MemTableIterator>, MergeIterator<SsTableIterator>>>>;

/// The memory tables and level-0 tables of the store.
pub struct LsmStorageInner {
    memtable: MemTable,
    imm_memtable: Option<Arc<MemTable>>,
    l0_sstables: Vec<Arc<SsTable>>,
    next_sst_id: usize,
}

impl LsmStorageInner {
    /// The memory tables, newest first.
    pub closed spec fn mems(&self) -> Seq<Seq<Entry>> {
        seq![self.memtable.view_entries()] + match self.imm_memtable {
            Some(m) => seq![m.view_entries()],
            None => Seq::empty(),
        }
    }

    /// Whether a frozen memory table is waiting to be written out.
    pub closed spec fn has_frozen(&self) -> bool {
        self.imm_memtable is Some
    }

    /// The number of level-0 tables.
    pub closed spec fn l0_count(&self) -> int {
        self.l0_sstables@.len() as int
    }

    /// The id the next flushed table gets.
    pub closed spec fn next_id(&self) -> int {
        self.next_sst_id as int
    }

    /// What the level-0 tables hold, newest first.
    pub closed spec fn l0_chains(&self) -> Seq<Seq<Entry>> {
        Seq::new(self.l0_sstables@.len(), |i: int| chain(*self.l0_sstables@[self.l0_sstables@.len() - 1 - i], 0))
    }

    pub closed spec fn wf(&self) -> bool {
        &&& forall|i: int| 0 <= i < self.l0_sstables@.len() ==> well_built(*#[trigger] self.l0_sstables@[i])
        &&& self.memtable.wf()
        &&& self.imm_memtable matches Some(m) ==> m.wf() && self.next_sst_id < usize::MAX
    }

    /// An empty store.
    pub fn create() -> (r: Self)
        ensures
            r.wf(),
            r.mems() == seq![Seq::<Entry>::empty()],
            r.l0_count() == 0,
            r.next_id() == 1,
            !r.has_frozen(),
    {
        let r = LsmStorageInner { memtable: MemTable::create(), imm_memtable: None, l0_sstables: Vec::new(), next_sst_id: 1 };
        assert(r.mems() =~= seq![Seq::<Entry>::empty()]);
        r
    }

    /// The value of `key`: from the newest memory table that holds it, else from
    /// the newest level-0 table that holds it; `None` where that is a deletion.
    pub fn get(&self, key: &[u8]) -> (r: Result<Option<Vec<u8>>, StorageError>)
        requires
            self.wf(),
        ensures
            read_result(newest_value(self.mems() + self.l0_chains(), key@), r),
    {
        proof {
            lemma_newest_append(self.mems(), self.l0_chains(), key@);
        }
        let ghost mems = self.mems();
        match self.memtable.get(key) {
            Some(v) => {
                return Ok(if v.len() == 0 { None } else { Some(v) });
            },
            None => {},
        }
        assert(newest_value(mems, key@) == newest_value(mems.drop_first(), key@));
        match &self.imm_memtable {
            Some(m) => {
                assert(mems.drop_first()[0] == m.view_entries());
                assert(mems.drop_first().drop_first().len() == 0);
                match m.get(key) {
                    Some(v) => {
                        return Ok(if v.len() == 0 { None } else { Some(v) });
                    },
                    None => {},
                }
                assert(newest_value(mems.drop_first(), key@) == newest_value(mems.drop_first().drop_first(), key@));
            },
            None => {
                assert(mems.drop_first().len() == 0);
            },
        }
        let ghost chains = self.l0_chains();
        let l = self.l0_sstables.len();
        let mut j: usize = l;
        assert(chains.subrange(0, l as int) =~= chains);
        proof {
            lemma_newest_append(mems, chains, key@);
        }
        while j > 0
            invariant
                l == self.l0_sstables@.len(),
                j <= l,
                self.wf(),
                mems == self.mems(),
                chains == self.l0_chains(),
                newest_value(mems, key@) is None,
                newest_value(chains, key@) == newest_value(chains.subrange(l - j, l as int), key@),
                newest_value(mems + chains, key@) == newest_value(chains, key@),
            decreases j,
        {
            j = j - 1;
            let ghost sub = chains.subrange(l - 1 - j, l as int);
            let ghost c = chains[l - 1 - j];
            assert(sub[0] == c);
            assert(sub.drop_first() =~= chains.subrange(l - j, l as int));
            assert(well_built(*self.l0_sstables@[j as int]));
            assert(c == chain(*self.l0_sstables@[j as int], 0));
            let iter = SsTableIterator::create_and_seek_to_key(self.l0_sstables[j].clone(), key)?;
            proof {
                lemma_from_key_finds(c, key@);
            }
            if iter.is_valid() && keys_equal(iter.key(), key) {
                let v = iter.value();
                return Ok(if v.len() == 0 { None } else { Some(slice_to_vec(v)) });
            }
        }
        assert(chains.subrange(l as int, l as int).len() == 0);
        Ok(None)
    }

    /// Stores `value` under `key` in the current memory table.
    pub fn put(&mut self, key: &[u8], value: &[u8])
        requires
            old(self).wf(),
            0 < key@.len() < 65536,
            0 < value@.len() < 65536,
        ensures
            final(self).wf(),
            value_of(final(self).mems()[0], key@) == Some(value@),
            forall|k: Seq<u8>| k != key@ ==> value_of(final(self).mems()[0], k) == value_of(old(self).mems()[0], k),
            final(self).mems().drop_first() == old(self).mems().drop_first(),
            final(self).l0_count() == old(self).l0_count(),
            final(self).l0_chains() == old(self).l0_chains(),
            final(self).mems().len() == old(self).mems().len(),
            final(self).has_frozen() == old(self).has_frozen(),
            final(self).next_id() == old(self).next_id(),
    {
        self.memtable.put(key, value);
        assert(self.mems().drop_first() =~= old(self).mems().drop_first());
    }

    /// Deletes `key`: stores an empty value under it in the current memory table.
    pub fn delete(&mut self, key: &[u8])
        requires
            old(self).wf(),
            0 < key@.len() < 65536,
        ensures
            final(self).wf(),
            value_of(final(self).mems()[0], key@) == Some(Seq::<u8>::empty()),
            forall|k: Seq<u8>| k != key@ ==> value_of(final(self).mems()[0], k) == value_of(old(self).mems()[0], k),
            final(self).mems().drop_first() == old(self).mems().drop_first(),
            final(self).l0_count() == old(self).l0_count(),
            final(self).l0_chains() == old(self).l0_chains(),
            final(self).mems().len() == old(self).mems().len(),
            final(self).has_frozen() == old(self).has_frozen(),
            final(self).next_id() == old(self).next_id(),
    {
        let empty: Vec<u8> = Vec::new();
        self.memtable.put(key, empty.as_slice());
        assert(empty@ =~= Seq::<u8>::empty());
        assert(self.mems().drop_first() =~= old(self).mems().drop_first());
    }

    /// Level-0 table `i`, oldest first.
    pub closed spec fn l0_table(&self, i: int) -> SsTable {
        *self.l0_sstables@[i]
    }

    /// Freezes the current memory table: it stays readable, below a new empty
    /// one, until its level-0 table is installed. Returns the id that table gets.
    pub fn freeze_memtable(&mut self) -> (r: Result<(usize, Arc<MemTable>), StorageError>)
        requires
            old(self).wf(),
            !old(self).has_frozen(),
        ensures
            final(self).wf(),
            (r is Err) == (old(self).next_id() == usize::MAX),
            r is Err ==> *final(self) == *old(self),
            r matches Ok((id, m)) ==> id == old(self).next_id() && m.wf() && m.view_entries() == old(self).mems()[0]
                && final(self).has_frozen()
                && final(self).mems() == seq![Seq::<Entry>::empty(), old(self).mems()[0]]
                && final(self).l0_chains() == old(self).l0_chains()
                && final(self).next_id() == old(self).next_id(),
    {
        if self.next_sst_id == usize::MAX {
            return Err(StorageError::TooLarge);
        }
        let mut fresh = MemTable::create();
        core::mem::swap(&mut fresh, &mut self.memtable);
        let frozen = Arc::new(fresh);
        self.imm_memtable = Some(frozen.clone());
        assert(self.mems() =~= seq![Seq::<Entry>::empty(), old(self).mems()[0]]);
        assert(self.l0_chains() =~= old(self).l0_chains());
        Ok((self.next_sst_id, frozen))
    }

    /// The frozen memory table, if one is waiting, with the id its table gets.
    pub fn frozen_memtable(&self) -> (r: Option<(usize, Arc<MemTable>)>)
        requires
            self.wf(),
        ensures
            (r is Some) == self.has_frozen(),
            r matches Some((id, m)) ==> id == self.next_id() && m.wf() && m.view_entries() == self.mems()[1],
    {
        match &self.imm_memtable {
            Some(m) => Some((self.next_sst_id, m.clone())),
            None => None,
        }
    }

    /// Puts the level-0 table of the frozen memory table in its place.
    pub fn install_flushed(&mut self, sst: Arc<SsTable>)
        requires
            old(self).wf(),
            old(self).has_frozen(),
            well_built(*sst),
        ensures
            final(self).wf(),
            !final(self).has_frozen(),
            final(self).mems() == seq![old(self).mems()[0]],
            final(self).l0_chains() == seq![chain(*sst, 0)] + old(self).l0_chains(),
            final(self).next_id() == old(self).next_id() + 1,
            final(self).l0_count() == old(self).l0_count() + 1,
            final(self).l0_table(old(self).l0_count()) == *sst,
    {
        self.imm_memtable = None;
        self.l0_sstables.push(sst);
        self.next_sst_id = self.next_sst_id + 1;
        assert(self.mems() =~= seq![old(self).mems()[0]]);
        assert(self.l0_chains() =~= seq![chain(*sst, 0)] + old(self).l0_chains());
    }

    /// Flushes the current memory table into a new level-0 table and starts an
    /// empty one: freeze, build, install in one step. Returns the new table and
    /// its id; writing its file is the caller's.
    pub fn sync(&mut self) -> (r: Result<(usize, Arc<SsTable>), StorageError>)
        requires
            old(self).wf(),
            !old(self).has_frozen(),
        ensures
            final(self).wf(),
            !final(self).has_frozen(),
            r matches Ok((id, t)) ==> id == old(self).next_id() && final(self).next_id() == old(self).next_id() + 1
                && chain(*t, 0) == old(self).mems()[0]
                && final(self).l0_count() == old(self).l0_count() + 1
                && final(self).l0_table(old(self).l0_count()) == *t
                && final(self).mems() == seq![Seq::<Entry>::empty()]
                && final(self).l0_chains() == seq![old(self).mems()[0]] + old(self).l0_chains(),
            r is Err ==> *final(self) == *old(self),
            (r is Err) == (old(self).next_id() == usize::MAX || old(self).mems()[0].len() > usize::MAX / 210000 - 3
                || records_start(fill(old(self).mems()[0], 4096)) >= 4294967295),
    {
        if self.next_sst_id == usize::MAX {
            return Err(StorageError::TooLarge);
        }
        let sst = Arc::new(build_table(&self.memtable, self.next_sst_id)?);
        let (id, _frozen) = self.freeze_memtable()?;
        self.install_flushed(sst.clone());
        Ok((id, sst))
    }

    /// A cursor over the live entries whose keys lie within the bounds: memory
    /// tables before level-0 tables, newer before older.
    pub fn scan(&self, lower: Bound<&[u8]>, upper: Bound<&[u8]>) -> (r: Result<ScanIterator, StorageError>)
        requires
            self.wf(),
        ensures
            r is Ok,
            r is Ok ==> r->Ok_0.inv() && r->Ok_0.cannot_fail(),
            r is Ok ==> scan_result(self.mems(), self.l0_chains(), lower, upper, r->Ok_0.entries()),
    {
        let lo = map_bound(lower);
        let hi = map_bound(upper);
        let ghost mems = self.mems();
        let ghost want = Seq::new(mems.len(), |i: int| in_bounds(mems[i], lo, hi));
        let mut memtable_iters: Vec<Box<MemTableIterator>> = Vec::new();
        memtable_iters.push(Box::new(self.memtable.scan(&lo, &hi)));
        assert(memtable_iters@[0].cannot_fail());
        match &self.imm_memtable {
            Some(m) => {
                let ghost before = views(memtable_iters@);
                let it = m.scan(&lo, &hi);
                assert(mems[1] == m.view_entries());
                memtable_iters.push(Box::new(it));
                assert(views(memtable_iters@) =~= before.push(want[1]));
            },
            None => {},
        }
        assert(views(memtable_iters@) =~= want);
        let merged_memtable_iter = MergeIterator::create(memtable_iters);
        assert(merged_memtable_iter.entries() == merge_all(want));
        let mut l0_iters: Vec<Box<SsTableIterator>> = Vec::new();
        let l = self.l0_sstables.len();
        let ghost chains = self.l0_chains();
        let ghost ssts = Seq::new(l as nat, |i: int| seeked(chains[i], lower));
        let mut j: usize = l;
        while j > 0
            invariant
                l == self.l0_sstables@.len(),
                self.wf(),
                chains == self.l0_chains(),
                ssts == Seq::new(l as nat, |i: int| seeked(chains[i], lower)),
                j <= l,
                views(l0_iters@) == ssts.take(l - j),
                forall|k: int| 0 <= k < l0_iters@.len() ==> #[trigger] l0_iters@[k].inv(),
                forall|k: int| 0 <= k < l0_iters@.len() ==> #[trigger] l0_iters@[k].cannot_fail(),
            decreases j,
        {
            j = j - 1;
            let table = self.l0_sstables[j].clone();
            let ghost c = chains[l - 1 - j];
            assert(c == chain(*self.l0_sstables@[j as int], 0));
            assert(well_built(*self.l0_sstables@[j as int]));
            let iter = match lower {
                Bound::Unbounded => SsTableIterator::create_and_seek_to_first(table)?,
                Bound::Included(key) => SsTableIterator::create_and_seek_to_key(table, key)?,
                Bound::Excluded(key) => {
                    let mut iter = SsTableIterator::create_and_seek_to_key(table, key)?;
                    if iter.is_valid() && keys_equal(iter.key(), key) {
                        iter.next()?;
                    }
                    iter
                },
            };
            assert(iter.entries() == ssts[l - 1 - j]);
            assert(iter.cannot_fail());
            let ghost before = views(l0_iters@);
            l0_iters.push(Box::new(iter));
            assert(views(l0_iters@) =~= before.push(ssts[l - 1 - j]));
            assert(ssts.take(l - j) =~= ssts.take(l - 1 - j).push(ssts[l - 1 - j]));
        }
        assert(ssts.take(l as int) =~= ssts);
        let merged_l0_iter = MergeIterator::create(l0_iters);
        assert(merged_l0_iter.entries() == merge_all(ssts));
        let iter = TwoMergeIterator::create(merged_memtable_iter, merged_l0_iter)?;
        assert(iter.entries() == merge_two(merge_all(want), merge_all(ssts)));
        let lsm = LsmIterator::new_with_upper_bound(iter, hi)?;
        assert(lsm.entries() == visible(merge_two(merge_all(want), merge_all(ssts)), hi));
        let r = FusedIterator::new(lsm);
                assert(bound_copies(lower, lo)) by {
            match lower {
                Bound::Included(x) => {},
                Bound::Excluded(x) => {},
                Bound::Unbounded => {},
            }
        }
        assert(bound_copies(upper, hi)) by {
            match upper {
                Bound::Included(x) => {},
                Bound::Excluded(x) => {},
                Bound::Unbounded => {},
            }
        }
        assert(scan_shape(self.mems(), self.l0_chains(), lower, upper, lo, hi, r.entries()));
        assert(r.inv());
        assert(scan_result(self.mems(), self.l0_chains(), lower, upper, r.entries()));
        Ok(r)
    }
}

/// What a level-0 stream `c` gives once seeked to the lower bound.
pub open spec fn seeked(c: Seq<Entry>, lower: Bound<&[u8]>) -> Seq<Entry> {
    match lower {
        Bound::Unbounded => c,
        Bound::Included(x) => from_key(c, x@),
        Bound::Excluded(x) => if from_key(c, x@).len() > 0 && from_key(c, x@)[0].0 == x@ {
            from_key(c, x@).drop_first()
        } else {
            from_key(c, x@)
        },
    }
}

/// The entries of a scan over memory tables `mems` and level-0 streams `chains`.
pub open spec fn scan_result(mems: Seq<Seq<Entry>>, chains: Seq<Seq<Entry>>, lower: Bound<&[u8]>, upper: Bound<&[u8]>, out: Seq<Entry>) -> bool {
    exists|lo: Bound<Vec<u8>>, hi: Bound<Vec<u8>>| #[trigger] scan_shape(mems, chains, lower, upper, lo, hi, out)
}

/// The entries of a scan: the merge of the memory tables cut to the bounds,
/// then of the level-0 streams seeked to the lower bound, without tombstones and
/// up to `hi`.
pub open spec fn scan_shape(mems: Seq<Seq<Entry>>, chains: Seq<Seq<Entry>>, lower: Bound<&[u8]>, upper: Bound<&[u8]>,
    lo: Bound<Vec<u8>>, hi: Bound<Vec<u8>>, out: Seq<Entry>) -> bool {
    &&& bound_copies(lower, lo)
    &&& bound_copies(upper, hi)
    &&& out == visible(merge_two(merge_all(Seq::new(mems.len(), |i: int| in_bounds(mems[i], lo, hi))),
        merge_all(Seq::new(chains.len(), |i: int| seeked(chains[i], lower)))), hi)
}


/// Every entry a scan shows is an entry of its source.
pub proof fn lemma_visible_member(s: Seq<Entry>, hi: Bound<Vec<u8>>, j: int)
    requires
        0 <= j < visible(s, hi).len(),
    ensures
        exists|q: int| 0 <= q < s.len() && #[trigger] s[q] == visible(s, hi)[j],
    decreases s.len(),
{
    let t = visible(s.drop_first(), hi);
    if s[0].1.len() == 0 {
        lemma_visible_member(s.drop_first(), hi, j);
        let q = choose|q: int| 0 <= q < s.drop_first().len() && #[trigger] s.drop_first()[q] == t[j];
        assert(s[q + 1] == visible(s, hi)[j]);
    } else if j > 0 {
        lemma_visible_member(s.drop_first(), hi, j - 1);
        let q = choose|q: int| 0 <= q < s.drop_first().len() && #[trigger] s.drop_first()[q] == t[j - 1];
        assert(s[q + 1] == visible(s, hi)[j]);
    } else {
        assert(s[0] == visible(s, hi)[j]);
    }
}


proof fn lemma_filter_all(m: Seq<Entry>, pred: spec_fn(Entry) -> bool)
    requires
        forall|e: Entry| #[trigger] pred(e),
    ensures
        m.filter(pred) == m,
    decreases m.len(),
{
    reveal(Seq::filter);
    if m.len() > 0 {
        lemma_filter_all(m.drop_last(), pred);
        assert(m.drop_last().push(m.last()) =~= m);
    }
}

proof fn lemma_visible_all(m: Seq<Entry>)
    requires
        forall|i: int| 0 <= i < m.len() ==> (#[trigger] m[i]).1.len() > 0,
    ensures
        visible(m, Bound::Unbounded) == m,
    decreases m.len(),
{
    if m.len() > 0 {
        assert(m[0].1.len() > 0);
        assert forall|i: int| 0 <= i < m.drop_first().len() implies (#[trigger] m.drop_first()[i]).1.len() > 0 by {
            assert(m.drop_first()[i] == m[i + 1]);
        }
        lemma_visible_all(m.drop_first());
        assert(seq![m[0]] + m.drop_first() =~= m);
    }
}

proof fn lemma_newest_at_first_holder(mems: Seq<Seq<Entry>>, k: Seq<u8>, i: int)
    requires
        0 <= i < mems.len(),
        holds_key(mems[i], k),
        forall|j: int| 0 <= j < i ==> !holds_key(#[trigger] mems[j], k),
    ensures
        newest_value(mems, k) == value_of(mems[i], k),
    decreases i,
{
    if i > 0 {
        assert(!holds_key(mems[0], k));
        assert forall|j: int| 0 <= j < i - 1 implies !holds_key(#[trigger] mems.drop_first()[j], k) by {
            assert(mems.drop_first()[j] == mems[j + 1]);
        }
        lemma_newest_at_first_holder(mems.drop_first(), k, i - 1);
    }
}



proof fn lemma_filter_pred_holds(s: Seq<Entry>, pred: spec_fn(Entry) -> bool, a: int)
    requires
        0 <= a < s.filter(pred).len(),
    ensures
        pred(s.filter(pred)[a]),
    decreases s.len(),
{
    reveal(Seq::filter);
    if s.len() == 0 {
        assert(s.filter(pred) == s);
    }
    let sub = s.drop_last().filter(pred);
    if a < sub.len() {
        lemma_filter_pred_holds(s.drop_last(), pred, a);
    }
}

proof fn lemma_filter_keeps_in_range(s: Seq<Entry>, pred: spec_fn(Entry) -> bool, q: int)
    requires
        0 <= q < s.len(),
        pred(s[q]),
    ensures
        exists|r: int| 0 <= r < s.filter(pred).len() && #[trigger] s.filter(pred)[r] == s[q],
    decreases s.len(),
{
    reveal(Seq::filter);
    let sub = s.drop_last().filter(pred);
    if q == s.len() - 1 {
        assert(s.filter(pred)[sub.len() as int] == s[q]);
    } else {
        lemma_filter_keeps_in_range(s.drop_last(), pred, q);
        let r = choose|r: int| 0 <= r < sub.len() && #[trigger] sub[r] == s.drop_last()[q];
        assert(s.filter(pred)[r] == s[q]);
    }
}

/// Some table holds `k` exactly when the newest-first lookup finds a value.
proof fn lemma_newest_found(mems: Seq<Seq<Entry>>, k: Seq<u8>)
    ensures
        (newest_value(mems, k) is Some) == (exists|i: int| 0 <= i < mems.len() && holds_key(#[trigger] mems[i], k)),
    decreases mems.len(),
{
    if mems.len() > 0 {
        lemma_newest_found(mems.drop_first(), k);
        if exists|i: int| 0 <= i < mems.len() && holds_key(#[trigger] mems[i], k) {
            let i = choose|i: int| 0 <= i < mems.len() && holds_key(#[trigger] mems[i], k);
            if i > 0 && !holds_key(mems[0], k) {
                assert(holds_key(mems.drop_first()[i - 1], k));
            }
        }
        if exists|i: int| 0 <= i < mems.drop_first().len() && holds_key(#[trigger] mems.drop_first()[i], k) {
            let i = choose|i: int| 0 <= i < mems.drop_first().len() && holds_key(#[trigger] mems.drop_first()[i], k);
            assert(holds_key(mems[i + 1], k));
        }
    }
}

/// The merge of tables with strictly increasing keys gives, for each key it
/// holds, the newest-first lookup of that key.
proof fn lemma_merge_gives_newest(ss: Seq<Seq<Entry>>, e: Entry)
    requires
        forall|i: int| 0 <= i < ss.len() ==> keys_strictly_sorted(#[trigger] ss[i]),
        has_first_holder(ss, e),
    ensures
        newest_value(ss, e.0) == Some(e.1),
{
    let i = choose|i: int| from_first_holder(ss, e, i);
    let q = choose|q: int| 0 <= q < ss[i].len() && #[trigger] ss[i][q] == e;
    assert(holds_key(ss[i], e.0));
    lemma_newest_at_first_holder(ss, e.0, i);
    lemma_unique_value(ss[i], q);
}

/// After writes with non-empty values only, a scan with no bounds shows each
/// key that any table holds once, in increasing order, with its newest value.
pub proof fn lemma_scan_after_puts(mems: Seq<Seq<Entry>>, chains: Seq<Seq<Entry>>, lo: Bound<Vec<u8>>, hi: Bound<Vec<u8>>, out: Seq<Entry>)
    requires
        forall|i: int| 0 <= i < mems.len() ==> keys_strictly_sorted(#[trigger] mems[i]),
        forall|i: int| 0 <= i < chains.len() ==> keys_strictly_sorted(#[trigger] chains[i]),
        forall|i: int, j: int| 0 <= i < mems.len() && 0 <= j < mems[i].len() ==> (#[trigger] mems[i][j]).1.len() > 0,
        forall|i: int, j: int| 0 <= i < chains.len() && 0 <= j < chains[i].len() ==> (#[trigger] chains[i][j]).1.len() > 0,
        scan_shape(mems, chains, Bound::Unbounded, Bound::Unbounded, lo, hi, out),
    ensures
        keys_strictly_sorted(out),
        forall|k: Seq<u8>| holds_key(out, k) == (newest_value(mems + chains, k) is Some),
        forall|j: int| 0 <= j < out.len() ==> newest_value(mems + chains, (#[trigger] out[j]).0) == Some(out[j].1),
{
    assert(lo is Unbounded && hi is Unbounded);
    let fm = Seq::new(mems.len(), |i: int| in_bounds(mems[i], lo, hi));
    assert forall|i: int| 0 <= i < mems.len() implies #[trigger] fm[i] == mems[i] by {
        lemma_filter_all(mems[i], |e: Entry| in_range(e.0, lo, hi));
    }
    assert(fm =~= mems);
    let sc = Seq::new(chains.len(), |i: int| seeked(chains[i], Bound::<&[u8]>::Unbounded));
    assert(sc =~= chains);
    let a = merge_all(mems);
    let b = merge_all(chains);
    lemma_merge_sorted_and_prioritized(mems);
    lemma_merge_sorted_and_prioritized(chains);
    lemma_merge_two_sorted_prefers_a(a, b);
    lemma_merge_two_complete(a, b);
    let m = merge_two(a, b);
    // Each entry of the merge is an entry of some table, so its value is not empty.
    assert forall|j: int| 0 <= j < m.len() implies newest_value(mems + chains, (#[trigger] m[j]).0) == Some(m[j].1)
        && m[j].1.len() > 0 by {
        let e = m[j];
        assert(from_a_first(a, b, e));
        if exists|q: int| 0 <= q < a.len() && #[trigger] a[q] == e {
            let q = choose|q: int| 0 <= q < a.len() && #[trigger] a[q] == e;
            assert(has_first_holder(mems, a[q]));
            lemma_merge_gives_newest(mems, e);
            let i = choose|i: int| from_first_holder(mems, e, i);
            let p = choose|p: int| 0 <= p < mems[i].len() && #[trigger] mems[i][p] == e;
            lemma_newest_append(mems, chains, e.0);
        } else {
            let q = choose|q: int| 0 <= q < b.len() && #[trigger] b[q] == e;
            assert(has_first_holder(chains, b[q]));
            lemma_merge_gives_newest(chains, e);
            let i = choose|i: int| from_first_holder(chains, e, i);
            let p = choose|p: int| 0 <= p < chains[i].len() && #[trigger] chains[i][p] == e;
            assert(!holds_key(a, e.0));
            lemma_newest_found(mems, e.0);
            if newest_value(mems, e.0) is Some {
                let i2 = choose|i2: int| 0 <= i2 < mems.len() && holds_key(#[trigger] mems[i2], e.0);
                let q2 = choose|q2: int| 0 <= q2 < mems[i2].len() && (#[trigger] mems[i2][q2]).0 == e.0;
                lemma_merge_complete(mems, i2, q2);
            }
            lemma_newest_append(mems, chains, e.0);
        }
    }
    assert forall|j: int| 0 <= j < m.len() implies (#[trigger] m[j]).1.len() > 0 by {
        assert(newest_value(mems + chains, m[j].0) == Some(m[j].1) && m[j].1.len() > 0);
    }
    lemma_visible_all(m);
    assert(out == m);
    assert forall|k: Seq<u8>| holds_key(out, k) == (newest_value(mems + chains, k) is Some) by {
        if holds_key(out, k) {
            let j = choose|j: int| 0 <= j < out.len() && (#[trigger] out[j]).0 == k;
            assert(newest_value(mems + chains, out[j].0) == Some(out[j].1) && out[j].1.len() > 0);
        }
        if newest_value(mems + chains, k) is Some {
            lemma_newest_found(mems + chains, k);
            let i = choose|i: int| 0 <= i < (mems + chains).len() && holds_key(#[trigger] (mems + chains)[i], k);
            let q = choose|q: int| 0 <= q < (mems + chains)[i].len() && (#[trigger] (mems + chains)[i][q]).0 == k;
            if i < mems.len() {
                assert(mems[i] == (mems + chains)[i]);
                lemma_merge_complete(mems, i, q);
                let r = choose|r: int| 0 <= r < a.len() && (#[trigger] a[r]).0 == k;
                assert(holds_key(m, a[r].0));
            } else {
                assert(chains[i - mems.len()] == (mems + chains)[i]);
                lemma_merge_complete(chains, i - mems.len(), q);
                let r = choose|r: int| 0 <= r < b.len() && (#[trigger] b[r]).0 == k;
                assert(holds_key(m, b[r].0));
            }
        }
    }
}

/// `k` is at or past the lower bound as a seek treats it.
pub open spec fn survives(k: Seq<u8>, lower: Bound<&[u8]>) -> bool {
    match lower {
        Bound::Unbounded => true,
        Bound::Included(x) => key_le(x@, k),
        Bound::Excluded(x) => key_lt(x@, k),
    }
}

proof fn lemma_from_key_shape(c: Seq<Entry>, x: Seq<u8>) -> (p: int)
    ensures
        0 <= p <= c.len(),
        from_key(c, x) == c.subrange(p, c.len() as int),
        forall|j: int| 0 <= j < p ==> key_lt(#[trigger] c[j].0, x),
        p < c.len() ==> !key_lt(c[p].0, x),
    decreases c.len(),
{
    if c.len() == 0 {
        assert(c.subrange(0, 0) =~= c);
        0
    } else if key_lt(c[0].0, x) {
        let p1 = lemma_from_key_shape(c.drop_first(), x);
        assert(c.drop_first().subrange(p1, c.len() - 1) =~= c.subrange(p1 + 1, c.len() as int));
        assert forall|j: int| 0 <= j < p1 + 1 implies key_lt(#[trigger] c[j].0, x) by {
            if j > 0 {
                assert(c[j] == c.drop_first()[j - 1]);
            }
        }
        if p1 + 1 < c.len() {
            assert(c[p1 + 1] == c.drop_first()[p1]);
        }
        p1 + 1
    } else {
        assert(c.subrange(0, c.len() as int) =~= c);
        0
    }
}

/// Seeking a stream with strictly increasing keys keeps exactly its entries
/// whose keys survive the lower bound.
proof fn lemma_seeked(c: Seq<Entry>, lower: Bound<&[u8]>)
    requires
        keys_strictly_sorted(c),
    ensures
        forall|r: int| 0 <= r < seeked(c, lower).len() ==> survives((#[trigger] seeked(c, lower)[r]).0, lower)
            && exists|q: int| 0 <= q < c.len() && #[trigger] c[q] == seeked(c, lower)[r],
        forall|q: int| 0 <= q < c.len() && survives(c[q].0, lower) ==> holds_key(seeked(c, lower), #[trigger] c[q].0),
{
    match lower {
        Bound::Unbounded => {
            assert forall|r: int| 0 <= r < seeked(c, lower).len() implies survives((#[trigger] seeked(c, lower)[r]).0, lower)
                && exists|q: int| 0 <= q < c.len() && #[trigger] c[q] == seeked(c, lower)[r] by {
                assert(c[r] == seeked(c, lower)[r]);
            }
        },
        Bound::Included(x) | Bound::Excluded(x) => {
            let f = from_key(c, x@);
            let p = lemma_from_key_shape(c, x@);
            // The kept entries are those from `p` on, each at or above `x`, and above it after the first.
            assert forall|r: int| 0 <= r < f.len() implies key_le(x@, (#[trigger] f[r]).0) && (r > 0 ==> key_lt(x@, f[r].0)) by {
                assert(f[r] == c[p + r]);
                assert(f[0] == c[p]);
                crate::key::lemma_cmp_antisym(c[p].0, x@);
                if r > 0 {
                    crate::key::lemma_cmp_trans(x@, c[p].0, c[p + r].0);
                }
            }
            assert forall|q: int| 0 <= q < c.len() && survives(c[q].0, lower) implies holds_key(seeked(c, lower), #[trigger] c[q].0) by {
                if q < p {
                    crate::key::lemma_cmp_antisym(c[q].0, x@);
                    crate::key::lemma_cmp_eq(c[q].0, x@);
                }
                assert(f[q - p] == c[q]);
                if lower is Excluded && f.len() > 0 && f[0].0 == x@ {
                    crate::key::lemma_cmp_refl(x@);
                    assert(q - p > 0);
                    assert(seeked(c, lower)[q - p - 1] == c[q]);
                }
            }
            assert forall|r: int| 0 <= r < seeked(c, lower).len() implies survives((#[trigger] seeked(c, lower)[r]).0, lower)
                && exists|q: int| 0 <= q < c.len() && #[trigger] c[q] == seeked(c, lower)[r] by {
                if lower is Excluded && f.len() > 0 && f[0].0 == x@ {
                    assert(seeked(c, lower)[r] == f[r + 1]);
                    assert(c[p + r + 1] == f[r + 1]);
                } else {
                    assert(seeked(c, lower)[r] == f[r]);
                    assert(c[p + r] == f[r]);
                    if lower is Excluded && r == 0 {
                        crate::key::lemma_cmp_eq(x@, f[0].0);
                    }
                }
            }
        },
    }
}

/// Cutting a table to the bounds keeps exactly its entries within them.
proof fn lemma_in_bounds(m: Seq<Entry>, lo: Bound<Vec<u8>>, hi: Bound<Vec<u8>>)
    ensures
        forall|r: int| 0 <= r < in_bounds(m, lo, hi).len() ==> in_range((#[trigger] in_bounds(m, lo, hi)[r]).0, lo, hi)
            && exists|q: int| 0 <= q < m.len() && #[trigger] m[q] == in_bounds(m, lo, hi)[r],
        forall|q: int| 0 <= q < m.len() && in_range(m[q].0, lo, hi) ==> holds_key(in_bounds(m, lo, hi), #[trigger] m[q].0),
{
    let pred = |e: Entry| in_range(e.0, lo, hi);
    assert forall|r: int| 0 <= r < in_bounds(m, lo, hi).len() implies in_range((#[trigger] in_bounds(m, lo, hi)[r]).0, lo, hi)
        && exists|q: int| 0 <= q < m.len() && #[trigger] m[q] == in_bounds(m, lo, hi)[r] by {
        assert(in_bounds(m, lo, hi) == m.filter(pred));
        lemma_filter_pred_holds(m, pred, r);
        assert(pred(m.filter(pred)[r]));
        lemma_filter_member(m, pred, r);
    }
    assert forall|q: int| 0 <= q < m.len() && in_range(m[q].0, lo, hi) implies holds_key(in_bounds(m, lo, hi), #[trigger] m[q].0) by {
        lemma_filter_keeps_in_range(m, pred, q);
        let r = choose|r: int| 0 <= r < m.filter(pred).len() && #[trigger] m.filter(pred)[r] == m[q];
        assert(in_bounds(m, lo, hi)[r].0 == m[q].0);
    }
}

/// The memory tables cut to the bounds.
pub open spec fn mem_streams(mems: Seq<Seq<Entry>>, lo: Bound<Vec<u8>>, hi: Bound<Vec<u8>>) -> Seq<Seq<Entry>> {
    Seq::new(mems.len(), |i: int| in_bounds(mems[i], lo, hi))
}

/// The level-0 streams seeked to the lower bound.
pub open spec fn l0_streams(chains: Seq<Seq<Entry>>, lower: Bound<&[u8]>) -> Seq<Seq<Entry>> {
    Seq::new(chains.len(), |i: int| seeked(chains[i], lower))
}

/// The streams a scan merges have strictly increasing keys when the tables do.
proof fn lemma_scan_streams_sorted(mems: Seq<Seq<Entry>>, chains: Seq<Seq<Entry>>, lower: Bound<&[u8]>,
    lo: Bound<Vec<u8>>, hi: Bound<Vec<u8>>)
    requires
        forall|i: int| 0 <= i < mems.len() ==> keys_strictly_sorted(#[trigger] mems[i]),
        forall|i: int| 0 <= i < chains.len() ==> keys_strictly_sorted(#[trigger] chains[i]),
    ensures
        forall|i: int| 0 <= i < mems.len() ==> keys_strictly_sorted(#[trigger] mem_streams(mems, lo, hi)[i]),
        forall|i: int| 0 <= i < chains.len() ==> keys_strictly_sorted(#[trigger] l0_streams(chains, lower)[i]),
{
    let fm = mem_streams(mems, lo, hi);
    let sc = l0_streams(chains, lower);
    let pred = |e: Entry| in_range(e.0, lo, hi);
    assert forall|i: int| 0 <= i < fm.len() implies keys_strictly_sorted(#[trigger] fm[i]) by {
        assert forall|a: int, b: int| 0 <= a < b < fm[i].len() implies key_lt(#[trigger] fm[i][a].0, #[trigger] fm[i][b].0) by {
            lemma_filter_keeps_order(mems[i], pred, a, b);
        }
    }
    assert forall|i: int| 0 <= i < sc.len() implies keys_strictly_sorted(#[trigger] sc[i]) by {
        let c = chains[i];
        match lower {
            Bound::Unbounded => {},
            Bound::Included(x) | Bound::Excluded(x) => {
                let p = lemma_from_key_shape(c, x@);
                let f = from_key(c, x@);
                assert forall|a: int, b: int| 0 <= a < b < sc[i].len() implies key_lt(#[trigger] sc[i][a].0, #[trigger] sc[i][b].0) by {
                    if lower is Excluded && f.len() > 0 && f[0].0 == x@ {
                        assert(sc[i][a] == c[p + a + 1]);
                        assert(sc[i][b] == c[p + b + 1]);
                    } else {
                        assert(sc[i][a] == c[p + a]);
                        assert(sc[i][b] == c[p + b]);
                    }
                }
            },
        }
    }
}

/// A key survives a seek to the lower bound exactly when it lies at or above the bound's copy.
proof fn lemma_survives_above(k: Seq<u8>, lower: Bound<&[u8]>, lo: Bound<Vec<u8>>)
    requires
        bound_copies(lower, lo),
    ensures
        survives(k, lower) == above_lower(k, lo),
{
    match lower {
        Bound::Included(x) => {},
        Bound::Excluded(x) => {},
        Bound::Unbounded => {},
    }
}

/// An entry of the merged streams that lies at or below the upper bound is the
/// newest write to its key, and lies within both bounds.
#[verifier::rlimit(80)]
proof fn lemma_merged_entry(mems: Seq<Seq<Entry>>, chains: Seq<Seq<Entry>>, lower: Bound<&[u8]>,
    lo: Bound<Vec<u8>>, hi: Bound<Vec<u8>>, q0: int)
    requires
        forall|i: int| 0 <= i < mems.len() ==> keys_strictly_sorted(#[trigger] mems[i]),
        forall|i: int| 0 <= i < chains.len() ==> keys_strictly_sorted(#[trigger] chains[i]),
        bound_copies(lower, lo),
        0 <= q0 < merge_two(merge_all(Seq::new(mems.len(), |i: int| in_bounds(mems[i], lo, hi))),
            merge_all(Seq::new(chains.len(), |i: int| seeked(chains[i], lower)))).len(),
        below_upper(merge_two(merge_all(Seq::new(mems.len(), |i: int| in_bounds(mems[i], lo, hi))),
            merge_all(Seq::new(chains.len(), |i: int| seeked(chains[i], lower))))[q0].0, hi),
    ensures
        ({
            let e = merge_two(merge_all(Seq::new(mems.len(), |i: int| in_bounds(mems[i], lo, hi))),
                merge_all(Seq::new(chains.len(), |i: int| seeked(chains[i], lower))))[q0];
            newest_value(mems + chains, e.0) == Some(e.1) && in_range(e.0, lo, hi)
        }),
{
    let fm = mem_streams(mems, lo, hi);
    let sc = l0_streams(chains, lower);
    lemma_scan_streams_sorted(mems, chains, lower, lo, hi);
    lemma_merge_sorted_and_prioritized(fm);
    lemma_merge_sorted_and_prioritized(sc);
    let a = merge_all(fm);
    let b = merge_all(sc);
    lemma_merge_two_sorted_prefers_a(a, b);
    let m = merge_two(a, b);
    let e = m[q0];
    let k = e.0;
    lemma_newest_append(mems, chains, k);
    assert(from_a_first(a, b, m[q0]));
    if exists|q: int| 0 <= q < a.len() && #[trigger] a[q] == e {
        let q = choose|q: int| 0 <= q < a.len() && #[trigger] a[q] == e;
        assert(has_first_holder(fm, a[q]));
        let i = choose|i: int| from_first_holder(fm, e, i);
        let p = choose|p: int| 0 <= p < fm[i].len() && #[trigger] fm[i][p] == e;
        lemma_in_bounds(mems[i], lo, hi);
        let p2 = choose|p2: int| 0 <= p2 < mems[i].len() && #[trigger] mems[i][p2] == fm[i][p];
        assert(in_range(fm[i][p].0, lo, hi));
        assert forall|i2: int| 0 <= i2 < i implies !holds_key(#[trigger] mems[i2], k) by {
            lemma_in_bounds(mems[i2], lo, hi);
            if holds_key(mems[i2], k) {
                let q2 = choose|q2: int| 0 <= q2 < mems[i2].len() && (#[trigger] mems[i2][q2]).0 == k;
                assert(holds_key(fm[i2], mems[i2][q2].0));
            }
        }
        assert(holds_key(mems[i], k));
        lemma_newest_at_first_holder(mems, k, i);
        lemma_unique_value(mems[i], p2);
    } else {
        let q = choose|q: int| 0 <= q < b.len() && #[trigger] b[q] == e;
        assert(!holds_key(a, k));
        assert(has_first_holder(sc, b[q]));
        let i = choose|i: int| from_first_holder(sc, e, i);
        let p = choose|p: int| 0 <= p < sc[i].len() && #[trigger] sc[i][p] == e;
        lemma_seeked(chains[i], lower);
        let p2 = choose|p2: int| 0 <= p2 < chains[i].len() && #[trigger] chains[i][p2] == sc[i][p];
        assert(survives(k, lower));
        lemma_survives_above(k, lower, lo);
        assert(in_range(k, lo, hi));
        assert forall|i2: int| 0 <= i2 < i implies !holds_key(#[trigger] chains[i2], k) by {
            lemma_seeked(chains[i2], lower);
            if holds_key(chains[i2], k) {
                let q2 = choose|q2: int| 0 <= q2 < chains[i2].len() && (#[trigger] chains[i2][q2]).0 == k;
                assert(holds_key(sc[i2], chains[i2][q2].0));
            }
        }
        assert(holds_key(chains[i], k));
        lemma_newest_at_first_holder(chains, k, i);
        lemma_unique_value(chains[i], p2);
        lemma_newest_found(mems, k);
        if newest_value(mems, k) is Some {
            let i2 = choose|i2: int| 0 <= i2 < mems.len() && holds_key(#[trigger] mems[i2], k);
            let q2 = choose|q2: int| 0 <= q2 < mems[i2].len() && (#[trigger] mems[i2][q2]).0 == k;
            lemma_in_bounds(mems[i2], lo, hi);
            assert(holds_key(fm[i2], mems[i2][q2].0));
            let r2 = choose|r2: int| 0 <= r2 < fm[i2].len() && (#[trigger] fm[i2][r2]).0 == k;
            lemma_merge_complete(fm, i2, r2);
        }
    }
}

proof fn lemma_below_upper_down(a: Seq<u8>, b: Seq<u8>, hi: Bound<Vec<u8>>)
    requires
        key_lt(a, b),
        below_upper(b, hi),
    ensures
        below_upper(a, hi),
{
    match hi {
        Bound::Included(x) => { crate::key::lemma_cmp_trans(a, b, x@); },
        Bound::Excluded(x) => { crate::key::lemma_cmp_trans(a, b, x@); },
        Bound::Unbounded => {},
    }
}

/// In a stream with strictly increasing keys, a live entry at or below the
/// upper bound is shown by the scan.
proof fn lemma_visible_keeps(m: Seq<Entry>, hi: Bound<Vec<u8>>, q: int)
    requires
        keys_strictly_sorted(m),
        0 <= q < m.len(),
        m[q].1.len() > 0,
        below_upper(m[q].0, hi),
    ensures
        exists|j: int| 0 <= j < visible(m, hi).len() && #[trigger] visible(m, hi)[j] == m[q],
    decreases q,
{
    if q > 0 {
        lemma_below_upper_down(m[0].0, m[q].0, hi);
    }
    let t = m.drop_first();
    if q == 0 {
        assert(visible(m, hi)[0] == m[0]);
    } else {
        assert(keys_strictly_sorted(t)) by {
            assert forall|x: int, y: int| 0 <= x < y < t.len() implies key_lt(#[trigger] t[x].0, #[trigger] t[y].0) by {
                assert(t[x] == m[x + 1]);
                assert(t[y] == m[y + 1]);
            }
        }
        assert(t[q - 1] == m[q]);
        lemma_visible_keeps(t, hi, q - 1);
        let j = choose|j: int| 0 <= j < visible(t, hi).len() && #[trigger] visible(t, hi)[j] == t[q - 1];
        if m[0].1.len() == 0 {
            assert(visible(m, hi)[j] == m[q]);
        } else {
            assert(visible(m, hi)[j + 1] == m[q]);
        }
    }
}

/// The scan of a stream with strictly increasing keys has strictly increasing keys.
proof fn lemma_visible_sorted(m: Seq<Entry>, hi: Bound<Vec<u8>>)
    requires
        keys_strictly_sorted(m),
    ensures
        keys_strictly_sorted(visible(m, hi)),
    decreases m.len(),
{
    if m.len() > 0 && below_upper(m[0].0, hi) {
        let t = m.drop_first();
        assert(keys_strictly_sorted(t)) by {
            assert forall|x: int, y: int| 0 <= x < y < t.len() implies key_lt(#[trigger] t[x].0, #[trigger] t[y].0) by {
                assert(t[x] == m[x + 1]);
                assert(t[y] == m[y + 1]);
            }
        }
        lemma_visible_sorted(t, hi);
        let v = visible(m, hi);
        let w = visible(t, hi);
        if m[0].1.len() > 0 {
            assert forall|x: int, y: int| 0 <= x < y < v.len() implies key_lt(#[trigger] v[x].0, #[trigger] v[y].0) by {
                lemma_visible_member(t, hi, y - 1);
                let qq = choose|qq: int| 0 <= qq < t.len() && #[trigger] t[qq] == w[y - 1];
                assert(v[y] == w[y - 1]);
                assert(t[qq] == m[qq + 1]);
                if x > 0 {
                    assert(v[x] == w[x - 1]);
                }
            }
        } else {
            assert(v == w);
        }
    }
}

/// `k` lies within the bounds and its newest write among `layers` is live.
pub open spec fn shows_live(layers: Seq<Seq<Entry>>, k: Seq<u8>, lo: Bound<Vec<u8>>, hi: Bound<Vec<u8>>) -> bool {
    in_range(k, lo, hi) && match newest_value(layers, k) {
        Some(v) => v.len() > 0,
        None => false,
    }
}

/// A scan gives, in increasing key order, exactly the keys within its bounds
/// whose newest write is live, each with that write's value.
pub proof fn lemma_scan_exact(mems: Seq<Seq<Entry>>, chains: Seq<Seq<Entry>>, lower: Bound<&[u8]>,
    upper: Bound<&[u8]>, lo: Bound<Vec<u8>>, hi: Bound<Vec<u8>>, out: Seq<Entry>)
    requires
        forall|i: int| 0 <= i < mems.len() ==> keys_strictly_sorted(#[trigger] mems[i]),
        forall|i: int| 0 <= i < chains.len() ==> keys_strictly_sorted(#[trigger] chains[i]),
        scan_shape(mems, chains, lower, upper, lo, hi, out),
    ensures
        keys_strictly_sorted(out),
        forall|j: int| 0 <= j < out.len() ==> newest_value(mems + chains, (#[trigger] out[j]).0) == Some(out[j].1)
            && out[j].1.len() > 0 && in_range(out[j].0, lo, hi),
        forall|k: Seq<u8>| #[trigger] holds_key(out, k) == shows_live(mems + chains, k, lo, hi),
{
    let fm = mem_streams(mems, lo, hi);
    let sc = l0_streams(chains, lower);
    lemma_scan_streams_sorted(mems, chains, lower, lo, hi);
    lemma_merge_sorted_and_prioritized(fm);
    lemma_merge_sorted_and_prioritized(sc);
    let a = merge_all(fm);
    let b = merge_all(sc);
    lemma_merge_two_sorted_prefers_a(a, b);
    lemma_merge_two_complete(a, b);
    let m = merge_two(a, b);
    lemma_visible_respects_bound_and_deletes(m, hi);
    lemma_visible_sorted(m, hi);
    assert forall|j: int| 0 <= j < out.len() implies newest_value(mems + chains, (#[trigger] out[j]).0) == Some(out[j].1)
        && out[j].1.len() > 0 && in_range(out[j].0, lo, hi) by {
        lemma_visible_member(m, hi, j);
        let q0 = choose|q0: int| 0 <= q0 < m.len() && #[trigger] m[q0] == out[j];
        lemma_merged_entry(mems, chains, lower, lo, hi, q0);
    }
    assert forall|k: Seq<u8>| #[trigger] holds_key(out, k) == shows_live(mems + chains, k, lo, hi) by {
        if holds_key(out, k) {
            let j = choose|j: int| 0 <= j < out.len() && (#[trigger] out[j]).0 == k;
            assert(newest_value(mems + chains, out[j].0) == Some(out[j].1) && out[j].1.len() > 0 && in_range(out[j].0, lo, hi));
        }
        if shows_live(mems + chains, k, lo, hi) {
            lemma_newest_found(mems + chains, k);
            let i = choose|i: int| 0 <= i < (mems + chains).len() && holds_key(#[trigger] (mems + chains)[i], k);
            let q = choose|q: int| 0 <= q < (mems + chains)[i].len() && (#[trigger] (mems + chains)[i][q]).0 == k;
            if i < mems.len() {
                assert(mems[i] == (mems + chains)[i]);
                lemma_in_bounds(mems[i], lo, hi);
                assert(holds_key(fm[i], mems[i][q].0));
                let r = choose|r: int| 0 <= r < fm[i].len() && (#[trigger] fm[i][r]).0 == k;
                lemma_merge_complete(fm, i, r);
                let r2 = choose|r2: int| 0 <= r2 < a.len() && (#[trigger] a[r2]).0 == k;
                assert(holds_key(m, a[r2].0));
            } else {
                let c = i - mems.len();
                assert(chains[c] == (mems + chains)[i]);
                lemma_survives_above(k, lower, lo);
                lemma_seeked(chains[c], lower);
                assert(holds_key(sc[c], chains[c][q].0));
                let r = choose|r: int| 0 <= r < sc[c].len() && (#[trigger] sc[c][r]).0 == k;
                lemma_merge_complete(sc, c, r);
                let r2 = choose|r2: int| 0 <= r2 < b.len() && (#[trigger] b[r2]).0 == k;
                assert(holds_key(m, b[r2].0));
            }
            let q0 = choose|q0: int| 0 <= q0 < m.len() && (#[trigger] m[q0]).0 == k;
            lemma_merged_entry(mems, chains, lower, lo, hi, q0);
            lemma_visible_keeps(m, hi, q0);
            let j = choose|j: int| 0 <= j < out.len() && #[trigger] out[j] == m[q0];
            assert(out[j].0 == k);
        }
    }
}

/// While the newest write to `k` is a deletion, no scan shows `k`, whatever its bounds.
pub proof fn lemma_deleted_key_never_scanned(mems: Seq<Seq<Entry>>, chains: Seq<Seq<Entry>>, k: Seq<u8>,
    lower: Bound<&[u8]>, upper: Bound<&[u8]>, lo: Bound<Vec<u8>>, hi: Bound<Vec<u8>>, out: Seq<Entry>)
    requires
        forall|i: int| 0 <= i < mems.len() ==> keys_strictly_sorted(#[trigger] mems[i]),
        forall|i: int| 0 <= i < chains.len() ==> keys_strictly_sorted(#[trigger] chains[i]),
        newest_value(mems + chains, k) == Some(Seq::<u8>::empty()),
        scan_shape(mems, chains, lower, upper, lo, hi, out),
    ensures
        forall|j: int| 0 <= j < out.len() ==> (#[trigger] out[j]).0 != k,
{
    lemma_scan_exact(mems, chains, lower, upper, lo, hi, out);
    assert forall|j: int| 0 <= j < out.len() implies (#[trigger] out[j]).0 != k by {
        assert(newest_value(mems + chains, out[j].0) == Some(out[j].1) && out[j].1.len() > 0);
    }
}

/// Two streams with strictly increasing keys that hold the same entries are the same.
pub proof fn lemma_sorted_unique(a: Seq<Entry>, b: Seq<Entry>)
    requires
        keys_strictly_sorted(a),
        keys_strictly_sorted(b),
        forall|e: Entry| a.contains(e) == b.contains(e),
    ensures
        a == b,
    decreases a.len() + b.len(),
{
    if a.len() == 0 || b.len() == 0 {
        if a.len() > 0 {
            assert(a.contains(a[0]));
        }
        if b.len() > 0 {
            assert(b.contains(b[0]));
        }
        assert(a =~= b);
    } else {
        assert(a.contains(a[0]));
        assert(b.contains(b[0]));
        let j = choose|j: int| 0 <= j < b.len() && b[j] == a[0];
        let i = choose|i: int| 0 <= i < a.len() && a[i] == b[0];
        crate::key::lemma_cmp_refl(a[0].0);
        if j > 0 {
            assert(key_lt(b[0].0, b[j].0));
            if i > 0 {
                assert(key_lt(a[0].0, a[i].0));
                crate::key::lemma_cmp_trans(b[0].0, a[0].0, b[0].0);
                crate::key::lemma_cmp_refl(b[0].0);
            }
        }
        assert(a[0] == b[0]);
        let a2 = a.drop_first();
        let b2 = b.drop_first();
        assert(keys_strictly_sorted(a2)) by {
            assert forall|x: int, y: int| 0 <= x < y < a2.len() implies key_lt(#[trigger] a2[x].0, #[trigger] a2[y].0) by {
                assert(a2[x] == a[x + 1]);
                assert(a2[y] == a[y + 1]);
            }
        }
        assert(keys_strictly_sorted(b2)) by {
            assert forall|x: int, y: int| 0 <= x < y < b2.len() implies key_lt(#[trigger] b2[x].0, #[trigger] b2[y].0) by {
                assert(b2[x] == b[x + 1]);
                assert(b2[y] == b[y + 1]);
            }
        }
        assert forall|e: Entry| a2.contains(e) == b2.contains(e) by {
            if a2.contains(e) {
                let x = choose|x: int| 0 <= x < a2.len() && a2[x] == e;
                assert(a[x + 1] == e);
                assert(key_lt(a[0].0, e.0));
                assert(b.contains(e));
                let y = choose|y: int| 0 <= y < b.len() && b[y] == e;
                if y == 0 {
                    crate::key::lemma_cmp_refl(e.0);
                }
                assert(b2[y - 1] == e);
            }
            if b2.contains(e) {
                let x = choose|x: int| 0 <= x < b2.len() && b2[x] == e;
                assert(b[x + 1] == e);
                assert(key_lt(b[0].0, e.0));
                assert(a.contains(e));
                let y = choose|y: int| 0 <= y < a.len() && a[y] == e;
                if y == 0 {
                    crate::key::lemma_cmp_refl(e.0);
                }
                assert(a2[y - 1] == e);
            }
        }
        lemma_sorted_unique(a2, b2);
        assert(a =~= seq![a[0]] + a2);
        assert(b =~= seq![b[0]] + b2);
    }
}

proof fn lemma_same_range(k: Seq<u8>, lower: Bound<&[u8]>, upper: Bound<&[u8]>, lo1: Bound<Vec<u8>>, hi1: Bound<Vec<u8>>,
    lo2: Bound<Vec<u8>>, hi2: Bound<Vec<u8>>)
    requires
        bound_copies(lower, lo1),
        bound_copies(lower, lo2),
        bound_copies(upper, hi1),
        bound_copies(upper, hi2),
    ensures
        in_range(k, lo1, hi1) == in_range(k, lo2, hi2),
{
    match lower {
        Bound::Included(x) => {},
        Bound::Excluded(x) => {},
        Bound::Unbounded => {},
    }
    match upper {
        Bound::Included(x) => {},
        Bound::Excluded(x) => {},
        Bound::Unbounded => {},
    }
}

/// Two stores whose newest writes agree on every key give the same scan for
/// the same bounds.
pub proof fn lemma_same_reads_same_scan(mems1: Seq<Seq<Entry>>, chains1: Seq<Seq<Entry>>, mems2: Seq<Seq<Entry>>,
    chains2: Seq<Seq<Entry>>, lower: Bound<&[u8]>, upper: Bound<&[u8]>, lo1: Bound<Vec<u8>>, hi1: Bound<Vec<u8>>,
    out1: Seq<Entry>, lo2: Bound<Vec<u8>>, hi2: Bound<Vec<u8>>, out2: Seq<Entry>)
    requires
        forall|i: int| 0 <= i < mems1.len() ==> keys_strictly_sorted(#[trigger] mems1[i]),
        forall|i: int| 0 <= i < chains1.len() ==> keys_strictly_sorted(#[trigger] chains1[i]),
        forall|i: int| 0 <= i < mems2.len() ==> keys_strictly_sorted(#[trigger] mems2[i]),
        forall|i: int| 0 <= i < chains2.len() ==> keys_strictly_sorted(#[trigger] chains2[i]),
        forall|k: Seq<u8>| newest_value(mems1 + chains1, k) == newest_value(mems2 + chains2, k),
        scan_shape(mems1, chains1, lower, upper, lo1, hi1, out1),
        scan_shape(mems2, chains2, lower, upper, lo2, hi2, out2),
    ensures
        out1 == out2,
{
    lemma_scan_exact(mems1, chains1, lower, upper, lo1, hi1, out1);
    lemma_scan_exact(mems2, chains2, lower, upper, lo2, hi2, out2);
    assert forall|e: Entry| out1.contains(e) == out2.contains(e) by {
        if out1.contains(e) {
            let j = choose|j: int| 0 <= j < out1.len() && out1[j] == e;
            assert(newest_value(mems1 + chains1, out1[j].0) == Some(out1[j].1) && out1[j].1.len() > 0 && in_range(out1[j].0, lo1, hi1));
            lemma_same_range(e.0, lower, upper, lo1, hi1, lo2, hi2);
            assert(shows_live(mems2 + chains2, e.0, lo2, hi2));
            assert(holds_key(out2, e.0));
            let j2 = choose|j2: int| 0 <= j2 < out2.len() && (#[trigger] out2[j2]).0 == e.0;
            assert(newest_value(mems2 + chains2, out2[j2].0) == Some(out2[j2].1));
            assert(out2[j2] == e);
        }
        if out2.contains(e) {
            let j = choose|j: int| 0 <= j < out2.len() && out2[j] == e;
            assert(newest_value(mems2 + chains2, out2[j].0) == Some(out2[j].1) && out2[j].1.len() > 0 && in_range(out2[j].0, lo2, hi2));
            lemma_same_range(e.0, lower, upper, lo1, hi1, lo2, hi2);
            assert(shows_live(mems1 + chains1, e.0, lo1, hi1));
            assert(holds_key(out1, e.0));
            let j1 = choose|j1: int| 0 <= j1 < out1.len() && (#[trigger] out1[j1]).0 == e.0;
            assert(newest_value(mems1 + chains1, out1[j1].0) == Some(out1[j1].1));
            assert(out1[j1] == e);
        }
    }
    lemma_sorted_unique(out1, out2);
}

/// Flushing the current memory table to level 0, in one step or through a
/// frozen table, leaves every scan as it was.
pub proof fn lemma_flush_keeps_scans(m: Seq<Entry>, chains: Seq<Seq<Entry>>, mems2: Seq<Seq<Entry>>, chains2: Seq<Seq<Entry>>,
    lower: Bound<&[u8]>, upper: Bound<&[u8]>, lo1: Bound<Vec<u8>>, hi1: Bound<Vec<u8>>, out1: Seq<Entry>,
    lo2: Bound<Vec<u8>>, hi2: Bound<Vec<u8>>, out2: Seq<Entry>)
    requires
        keys_strictly_sorted(m),
        forall|i: int| 0 <= i < chains.len() ==> keys_strictly_sorted(#[trigger] chains[i]),
        (mems2 == seq![Seq::<Entry>::empty(), m] && chains2 == chains)
            || (mems2 == seq![Seq::<Entry>::empty()] && chains2 == seq![m] + chains),
        scan_shape(seq![m], chains, lower, upper, lo1, hi1, out1),
        scan_shape(mems2, chains2, lower, upper, lo2, hi2, out2),
    ensures
        out1 == out2,
{
    assert(mems2 + chains2 =~= seq![Seq::<Entry>::empty()] + (seq![m] + chains));
    assert forall|k: Seq<u8>| newest_value(seq![m] + chains, k) == newest_value(mems2 + chains2, k) by {
        lemma_flush_keeps_newest(m, chains, k);
    }
    assert(keys_strictly_sorted(Seq::<Entry>::empty()));
    assert forall|i: int| 0 <= i < mems2.len() implies keys_strictly_sorted(#[trigger] mems2[i]) by {}
    assert forall|i: int| 0 <= i < chains2.len() implies keys_strictly_sorted(#[trigger] chains2[i]) by {
        if chains2 != chains {
            if i > 0 {
                assert(chains2[i] == chains[i - 1]);
            }
        }
    }
    lemma_same_reads_same_scan(seq![m], chains, mems2, chains2, lower, upper, lo1, hi1, out1, lo2, hi2, out2);
}

/// A scan from `key` to `key` shows `key` with its value exactly when `get` finds one.
pub proof fn lemma_point_scan(mems: Seq<Seq<Entry>>, chains: Seq<Seq<Entry>>, key: &[u8], lo: Bound<Vec<u8>>,
    hi: Bound<Vec<u8>>, out: Seq<Entry>)
    requires
        forall|i: int| 0 <= i < mems.len() ==> keys_strictly_sorted(#[trigger] mems[i]),
        forall|i: int| 0 <= i < chains.len() ==> keys_strictly_sorted(#[trigger] chains[i]),
        scan_shape(mems, chains, Bound::Included(key), Bound::Included(key), lo, hi, out),
    ensures
        match newest_value(mems + chains, key@) {
            Some(v) => if v.len() > 0 { out == seq![(key@, v)] } else { out.len() == 0 },
            None => out.len() == 0,
        },
{
    lemma_scan_exact(mems, chains, Bound::Included(key), Bound::Included(key), lo, hi, out);
    assert forall|j: int| 0 <= j < out.len() implies (#[trigger] out[j]).0 == key@ by {
        assert(in_range(out[j].0, lo, hi));
        crate::key::lemma_cmp_antisym(out[j].0, key@);
        crate::key::lemma_cmp_eq(out[j].0, key@);
    }
    if out.len() > 1 {
        assert(key_lt(out[0].0, out[1].0));
        crate::key::lemma_cmp_refl(key@);
    }
    crate::key::lemma_cmp_refl(key@);
    assert(in_range(key@, lo, hi));
    match newest_value(mems + chains, key@) {
        Some(v) => {
            if v.len() > 0 {
                assert(holds_key(out, key@));
                assert(out[0].0 == key@);
                assert(newest_value(mems + chains, out[0].0) == Some(out[0].1));
                assert(out =~= seq![(key@, v)]);
            } else {
                if out.len() > 0 {
                    assert(out[0].0 == key@);
                }
            }
        },
        None => {
            if out.len() > 0 {
                assert(out[0].0 == key@);
            }
        },
    }
}

/// The tables of a sound store have strictly increasing keys.
pub proof fn lemma_store_layers_sorted(s: LsmStorageInner)
    requires
        s.wf(),
    ensures
        1 <= s.mems().len() <= 2,
        s.has_frozen() == (s.mems().len() == 2),
        forall|i: int| 0 <= i < s.mems().len() ==> keys_strictly_sorted(#[trigger] s.mems()[i]),
        forall|i: int| 0 <= i < s.l0_chains().len() ==> keys_strictly_sorted(#[trigger] s.l0_chains()[i]),
{
    assert forall|i: int| 0 <= i < s.l0_chains().len() implies keys_strictly_sorted(#[trigger] s.l0_chains()[i]) by {
        let n = s.l0_sstables@.len();
        assert(well_built(*s.l0_sstables@[n - 1 - i]));
    }
}

/// While the current memory table holds `k`, its write is the newest.
pub proof fn lemma_current_is_newest(mems: Seq<Seq<Entry>>, chains: Seq<Seq<Entry>>, k: Seq<u8>)
    requires
        mems.len() > 0,
        value_of(mems[0], k) is Some,
    ensures
        newest_value(mems + chains, k) == value_of(mems[0], k),
{
    assert((mems + chains)[0] == mems[0]);
}

/// Right after `k` is deleted from the current table, the newest write to `k` is that deletion.
pub proof fn lemma_delete_is_newest(mems: Seq<Seq<Entry>>, chains: Seq<Seq<Entry>>, k: Seq<u8>)
    requires
        mems.len() > 0,
        value_of(mems[0], k) == Some(Seq::<u8>::empty()),
    ensures
        newest_value(mems + chains, k) == Some(Seq::<u8>::empty()),
{
    assert((mems + chains)[0] == mems[0]);
}

/// Writing another key leaves the newest write to `k` as it was.
pub proof fn lemma_other_write_keeps_newest(before: Seq<Seq<Entry>>, after: Seq<Seq<Entry>>, chains: Seq<Seq<Entry>>, k: Seq<u8>)
    requires
        before.len() > 0,
        after.len() > 0,
        value_of(after[0], k) == value_of(before[0], k),
        after.drop_first() == before.drop_first(),
    ensures
        newest_value(after + chains, k) == newest_value(before + chains, k),
{
    assert((after + chains)[0] == after[0]);
    assert((before + chains)[0] == before[0]);
    assert(after.len() == before.drop_first().len() + 1);
    assert((after + chains).drop_first() =~= after.drop_first() + chains);
    assert((before + chains).drop_first() =~= before.drop_first() + chains);
}

/// Flushing moves the current table below an empty one and leaves every newest write as it was.
pub proof fn lemma_flush_keeps_newest(m: Seq<Entry>, chains: Seq<Seq<Entry>>, k: Seq<u8>)
    ensures
        newest_value(seq![Seq::<Entry>::empty()] + (seq![m] + chains), k)
            == newest_value(seq![m] + chains, k),
{
    let x = seq![Seq::<Entry>::empty()] + (seq![m] + chains);
    assert(x[0] == Seq::<Entry>::empty());
    assert(!holds_key(Seq::<Entry>::empty(), k));
    assert(x.drop_first() =~= seq![m] + chains);
}

} // verus!
