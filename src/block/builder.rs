use vstd::prelude::*;
use crate::block::{Block, layout_ok, layout_entries, slot_ok, slot_end, entry_at, key_len_at, value_len_at};
use crate::key::{Entry, put_u16_le, u16_le, keys_sorted, key_le, lemma_cmp_trans};

verus! {

/// Bytes an entry takes in a block: two lengths, key, value, and its offset slot.
pub open spec fn entry_cost(key: Seq<u8>, value: Seq<u8>) -> int {
    (2 + key.len() + 2 + value.len() + 2) as int
}

/// Builds a block under a soft byte budget.
pub struct BlockBuilder {
    data: Vec<u8>,
    offsets: Vec<u16>,
    block_size: usize,
    current_block_size: usize,
}

impl BlockBuilder {
    /// The entries added so far.
    pub closed spec fn entries(&self) -> Seq<Entry> {
        layout_entries(self.data@, self.offsets@)
    }

    /// The byte budget.
    pub closed spec fn budget(&self) -> int {
        self.block_size as int
    }

    /// The encoded size of the block so far: entries, offsets and count.
    pub closed spec fn size(&self) -> int {
        self.current_block_size as int
    }

    pub closed spec fn wf(&self) -> bool {
        &&& layout_ok(self.data@, self.offsets@)
        &&& keys_sorted(self.entries())
        &&& self.block_size <= 65535
        &&& self.current_block_size == 2 + self.data@.len() + 2 * self.offsets@.len()
        &&& self.offsets@.len() > 1 ==> self.current_block_size <= self.block_size
        &&& self.current_block_size <= 200000
    }

    /// Creates an empty builder with budget `block_size`.
    pub fn new(block_size: usize) -> (r: Self)
        requires
            block_size <= 65535,
        ensures
            r.wf(),
            r.entries() == Seq::<Entry>::empty(),
            r.budget() == block_size,
            r.size() == 2,
    {
        let r = Self { data: Vec::with_capacity(block_size), offsets: Vec::new(), block_size, current_block_size: 2 };
        assert(r.entries() =~= Seq::<Entry>::empty());
        r
    }

    /// The encoded size of the block so far.
    pub fn estimated_size(&self) -> (r: usize)
        requires
            self.wf(),
        ensures
            r == self.size(),
            r <= 200000,
    {
        self.current_block_size
    }

    /// Whether no entry was added yet.
    pub fn is_empty(&self) -> (r: bool)
        requires
            self.wf(),
        ensures
            r == (self.entries().len() == 0),
    {
        self.offsets.len() == 0
    }

    /// Adds an entry. The first entry is always taken; a later one is refused,
    /// leaving the builder unchanged, when it would take the block over budget.
    /// Keys must come in non-decreasing order.
    pub fn add(&mut self, key: &[u8], value: &[u8]) -> (r: bool)
        requires
            old(self).wf(),
            key@.len() > 0,
            key@.len() < 65536,
            value@.len() < 65536,
            old(self).entries().len() > 0 ==> key_le(old(self).entries().last().0, key@),
        ensures
            final(self).wf(),
            r == (old(self).entries().len() == 0 || old(self).size() + entry_cost(key@, value@) <= old(self).budget()),
            r ==> final(self).entries() == old(self).entries().push((key@, value@)),
            r ==> final(self).size() == old(self).size() + entry_cost(key@, value@),
            !r ==> *final(self) == *old(self),
            final(self).budget() == old(self).budget(),
    {
        let entry_total = 2 + key.len() + 2 + value.len() + 2;
        if !self.is_empty() && self.current_block_size + entry_total > self.block_size {
            return false;
        }
        let ghost old_data = self.data@;
        let ghost old_offsets = self.offsets@;
        let ghost old_entries = self.entries();
        let ghost n = old_offsets.len() as int;
        let start = self.data.len();
        self.offsets.push(start as u16);
        put_u16_le(&mut self.data, key.len() as u16);
        self.data.extend_from_slice(key);
        put_u16_le(&mut self.data, value.len() as u16);
        self.data.extend_from_slice(value);
        assert(self.data@ =~= old_data + u16_le(key@.len()) + key@ + u16_le(value@.len()) + value@);
        self.current_block_size = self.current_block_size + entry_total;
        proof {
            lemma_push_entry(old_data, old_offsets, key@, value@);
            let es = self.entries();
            assert forall|a: int, b: int| 0 <= a < b < es.len() implies key_le(#[trigger] es[a].0, #[trigger] es[b].0) by {
                if b == n && a < n - 1 {
                    lemma_cmp_trans(es[a].0, es[n - 1].0, es[b].0);
                }
            }
        }
        true
    }

    /// Turns the entries into a block.
    pub fn build(self) -> (r: Block)
        requires
            self.wf(),
        ensures
            r.wf(),
            r.entries() == self.entries(),
            r.offset_values().len() < 65536,
            r.encoded().len() == self.size(),
            self.size() <= 200000,
    {
        Block::from_parts(self.data, self.offsets)
    }
}

/// Appending an entry at the end of a sound layout keeps it sound and adds that entry.
proof fn lemma_push_entry(old_data: Seq<u8>, old_offsets: Seq<u16>, key: Seq<u8>, value: Seq<u8>)
    requires
        layout_ok(old_data, old_offsets),
        old_offsets.len() + 1 < 65536,
        old_data.len() < 65536,
        0 < key.len() < 65536,
        value.len() < 65536,
    ensures
        ({
            let d = old_data + u16_le(key.len()) + key + u16_le(value.len()) + value;
            let o = old_offsets.push(old_data.len() as u16);
            layout_ok(d, o) && layout_entries(d, o) == layout_entries(old_data, old_offsets).push((key, value))
        }),
{
    let d = old_data + u16_le(key.len()) + key + u16_le(value.len()) + value;
    let o = old_offsets.push(old_data.len() as u16);
    let n = old_offsets.len() as int;
    let start = old_data.len() as int;
    let old_entries = layout_entries(old_data, old_offsets);
    assert(key_len_at(d, start) == key.len());
    assert(d.subrange(start + 2, start + 2 + key.len()) =~= key);
    assert(value_len_at(d, start) == value.len());
    assert(d.subrange(start + 4 + key.len(), d.len() as int) =~= value);
    assert(slot_ok(d, o, n));
    assert forall|i: int| 0 <= i < n implies #[trigger] slot_ok(d, o, i) && layout_entries(d, o)[i] == old_entries[i] by {
        assert(slot_ok(old_data, old_offsets, i));
        let oi = o[i] as int;
        let e = slot_end(d, o, i);
        assert(e == slot_end(old_data, old_offsets, i));
        assert(d[oi] == old_data[oi]);
        assert(d[oi + 1] == old_data[oi + 1]);
        let kl = key_len_at(d, oi);
        assert(d[oi + 2 + kl] == old_data[oi + 2 + kl]);
        assert(d[oi + 3 + kl] == old_data[oi + 3 + kl]);
        assert(entry_at(d, oi).0 =~= entry_at(old_data, oi).0);
        assert(entry_at(d, oi).1 =~= entry_at(old_data, oi).1);
    }
    assert(layout_entries(d, o)[n] == (key, value));
    assert forall|i: int| 0 <= i < n + 1 implies #[trigger] layout_entries(d, o)[i] == old_entries.push((key, value))[i] by {
        if i < n {
            assert(slot_ok(d, o, i));
        }
    }
    assert(layout_entries(d, o) =~= old_entries.push((key, value)));
}

} // verus!
