use std::sync::Arc;
use vstd::prelude::*;
use vstd::slice::slice_to_vec;
use crate::block::Block;
use crate::key::{Entry, compare_keys, key_le, key_lt, lemma_cmp_eq, lemma_cmp_trans, lemma_cmp_antisym};

verus! {

/// A cursor over the entries of one block.
pub struct BlockIterator {
    block: Arc<Block>,
    key: Vec<u8>,
    value: Vec<u8>,
    idx: usize,
}

impl BlockIterator {
    /// The entries of the block under the cursor.
    pub closed spec fn block_entries(&self) -> Seq<Entry> {
        self.block.entries()
    }

    /// The index of the current entry; the number of entries once past the end.
    pub closed spec fn position(&self) -> int {
        self.idx as int
    }

    /// The cursor is consistent: on an entry, or just past the last one.
    pub open spec fn wf(&self) -> bool {
        &&& self.loaded()
        &&& 0 <= self.position() <= self.block_entries().len()
    }

    /// The block is sound and the current entry's bytes are held.
    pub closed spec fn loaded(&self) -> bool {
        &&& self.block.wf()
        &&& self.idx <= self.block.entries().len()
        &&& self.idx < self.block.entries().len() ==> self.key@ == self.block.entries()[self.idx as int].0
            && self.value@ == self.block.entries()[self.idx as int].1
    }

    /// The entries from the cursor to the end of the block.
    pub open spec fn remaining(&self) -> Seq<Entry> {
        self.block_entries().subrange(self.position(), self.block_entries().len() as int)
    }

    fn new(block: Arc<Block>) -> (r: Self)
        requires
            block.wf(),
        ensures
            r.wf(),
            r.block_entries() == block.entries(),
    {
        let idx = block.len();
        Self { block, key: Vec::new(), value: Vec::new(), idx }
    }

    /// Creates a cursor on the first entry of `block`.
    pub fn create_and_seek_to_first(block: Arc<Block>) -> (r: Self)
        requires
            block.wf(),
        ensures
            r.wf(),
            r.block_entries() == block.entries(),
            r.position() == 0,
    {
        let mut this = Self::new(block);
        this.seek_to_first();
        this
    }

    /// Creates a cursor sought to `key` in `block`, as `seek_to_key` does.
    pub fn create_and_seek_to_key(block: Arc<Block>, key: &[u8]) -> (r: Self)
        requires
            block.wf(),
        ensures
            r.wf(),
            r.block_entries() == block.entries(),
            Self::seek_result(r.block_entries(), key@, r.position()),
            r.position() == Self::search(block.entries(), key@, 0, block.entries().len() as int),
    {
        let mut this = Self::new(block);
        this.seek_to_key(key);
        this
    }

    /// Where the binary search for `target` over `es[l..r]` stops: at the
    /// midpoint whose key equals `target`, else where the range closes.
    pub open spec fn search(es: Seq<Entry>, target: Seq<u8>, l: int, r: int) -> int
        decreases r - l,
    {
        if l >= r {
            l
        } else {
            let mid = l + (r - l) / 2;
            if key_lt(es[mid].0, target) {
                Self::search(es, target, mid + 1, r)
            } else if es[mid].0 == target {
                mid
            } else {
                Self::search(es, target, l, mid)
            }
        }
    }

    /// Where a seek to `target` may stop in `es`: at the first entry whose key is at
    /// least `target`, or at an entry whose key is `target`.
    pub open spec fn seek_result(es: Seq<Entry>, target: Seq<u8>, pos: int) -> bool {
        &&& 0 <= pos <= es.len()
        &&& pos < es.len() ==> key_le(target, es[pos].0)
        &&& forall|j: int| 0 <= j < pos ==> key_le(#[trigger] es[j].0, target)
        &&& (pos == es.len() || es[pos].0 != target) ==> forall|j: int| 0 <= j < pos ==> key_lt(#[trigger] es[j].0, target)
    }

    /// The key of the current entry.
    pub fn key(&self) -> (r: &[u8])
        requires
            self.wf(),
            self.position() < self.block_entries().len(),
        ensures
            r@ == self.block_entries()[self.position()].0,
    {
        self.key.as_slice()
    }

    /// The value of the current entry.
    pub fn value(&self) -> (r: &[u8])
        requires
            self.wf(),
            self.position() < self.block_entries().len(),
        ensures
            r@ == self.block_entries()[self.position()].1,
    {
        self.value.as_slice()
    }

    /// Whether the cursor is on an entry.
    pub fn is_valid(&self) -> (r: bool)
        requires
            self.wf(),
        ensures
            r == (self.position() < self.block_entries().len()),
    {
        self.idx < self.block.len()
    }

    fn seek_to_idx(&mut self, idx: usize)
        requires
            old(self).wf(),
            idx <= old(self).block_entries().len(),
        ensures
            final(self).wf(),
            final(self).block_entries() == old(self).block_entries(),
            final(self).position() == idx,
    {
        self.idx = idx;
        if idx >= self.block.len() {
            self.key.clear();
            self.value.clear();
        } else {
            let (key, value) = self.block.get_entry(idx);
            self.key = slice_to_vec(key);
            self.value = slice_to_vec(value);
        }
    }

    /// Moves to the first entry.
    pub fn seek_to_first(&mut self)
        requires
            old(self).wf(),
        ensures
            final(self).wf(),
            final(self).block_entries() == old(self).block_entries(),
            final(self).position() == 0,
    {
        self.seek_to_idx(0);
    }

    /// Moves to the next entry; past the end the cursor stays invalid.
    pub fn next(&mut self)
        requires
            old(self).wf(),
        ensures
            final(self).wf(),
            final(self).block_entries() == old(self).block_entries(),
            final(self).position() == if old(self).position() < old(self).block_entries().len() {
                old(self).position() + 1
            } else {
                old(self).position()
            },
    {
        if self.idx < self.block.len() {
            self.seek_to_idx(self.idx + 1);
        }
    }

    /// Moves, by binary search, to an entry whose key equals `key` where there is
    /// one (among repeated keys, whichever the search meets first), else to the
    /// first entry whose key is above `key`, or past the end.
    pub fn seek_to_key(&mut self, key: &[u8])
        requires
            old(self).wf(),
        ensures
            final(self).wf(),
            final(self).block_entries() == old(self).block_entries(),
            Self::seek_result(final(self).block_entries(), key@, final(self).position()),
            final(self).position() == Self::search(old(self).block_entries(), key@, 0, old(self).block_entries().len() as int),
    {
        let ghost es = self.block_entries();
        let mut l: usize = 0;
        let mut r: usize = self.block.len();
        while l < r
            invariant
                self.wf(),
                self.block_entries() == es,
                es == old(self).block_entries(),
                l <= r <= es.len(),
                forall|j: int| 0 <= j < l ==> key_lt(#[trigger] es[j].0, key@),
                forall|j: int| r <= j < es.len() ==> key_lt(key@, #[trigger] es[j].0),
                Self::search(es, key@, l as int, r as int) == Self::search(es, key@, 0, es.len() as int),
            decreases r - l,
        {
            let mid = l + (r - l) / 2;
            self.seek_to_idx(mid);
            match compare_keys(self.key(), key) {
                core::cmp::Ordering::Less => {
                    proof {
                        assert forall|j: int| 0 <= j < mid + 1 implies key_lt(#[trigger] es[j].0, key@) by {
                            if j < mid {
                                lemma_cmp_trans(es[j].0, es[mid as int].0, key@);
                            }
                        }
                    }
                    l = mid + 1;
                }
                core::cmp::Ordering::Equal => {
                    proof {
                        lemma_cmp_eq(es[mid as int].0, key@);
                        assert forall|j: int| 0 <= j < mid implies key_le(#[trigger] es[j].0, key@) by {
                            lemma_cmp_trans(es[j].0, es[mid as int].0, key@);
                        }
                        lemma_cmp_antisym(es[mid as int].0, key@);
                    }
                    return;
                }
                core::cmp::Ordering::Greater => {
                    proof {
                        lemma_cmp_antisym(es[mid as int].0, key@);
                        assert forall|j: int| mid <= j < es.len() implies key_lt(key@, #[trigger] es[j].0) by {
                            if j > mid {
                                lemma_cmp_trans(key@, es[mid as int].0, es[j].0);
                            }
                        }
                    }
                    r = mid;
                }
            }
        }
        self.seek_to_idx(l);
        proof {
            if l < es.len() {
                assert(key_lt(key@, es[l as int].0));
            }
        }
    }
}

} // verus!
