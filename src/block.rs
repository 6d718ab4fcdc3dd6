//! Blocks: the smallest unit of reading and caching, a run of sorted entries
//! laid out as `entries | u16 offsets | u16 count`.
pub mod builder;
pub mod iterator;

pub use builder::BlockBuilder;
pub use iterator::BlockIterator;


use vstd::prelude::*;
use vstd::slice::{slice_subrange, slice_to_vec};
use crate::key::{Entry, get_u16_le, put_u16_le, read_u16, u16_le, keys_sorted, key_le, lemma_cmp_trans, compare_keys};

verus! {

/// Length of the key of the entry that starts at `o`.
pub open spec fn key_len_at(data: Seq<u8>, o: int) -> int {
    read_u16(data, o) as int
}

/// Length of the value of the entry that starts at `o`.
pub open spec fn value_len_at(data: Seq<u8>, o: int) -> int {
    read_u16(data, o + 2 + key_len_at(data, o)) as int
}

/// Where the entry that starts at `o` ends.
pub open spec fn entry_end(data: Seq<u8>, o: int) -> int {
    o + 4 + key_len_at(data, o) + value_len_at(data, o)
}

/// The entry that starts at `o`: `u16 key_len | key | u16 value_len | value`.
pub open spec fn entry_at(data: Seq<u8>, o: int) -> Entry {
    let kl = key_len_at(data, o);
    (data.subrange(o + 2, o + 2 + kl), data.subrange(o + 4 + kl, entry_end(data, o)))
}

/// The entry starting at `o` has a non-empty key and takes exactly the bytes up to `end`.
pub open spec fn entry_fits(data: Seq<u8>, o: int, end: int) -> bool {
    &&& 0 <= o
    &&& end <= data.len()
    &&& o + 2 <= end
    &&& o + 4 + key_len_at(data, o) <= end
    &&& key_len_at(data, o) > 0
    &&& entry_end(data, o) == end
}

/// Where entry `i` of a layout ends: at the next offset, or at the end of the data.
pub open spec fn slot_end(data: Seq<u8>, offsets: Seq<u16>, i: int) -> int {
    if i + 1 < offsets.len() {
        offsets[i + 1] as int
    } else {
        data.len() as int
    }
}

pub open spec fn slot_ok(data: Seq<u8>, offsets: Seq<u16>, i: int) -> bool {
    entry_fits(data, offsets[i] as int, slot_end(data, offsets, i))
}

/// The entries that a data region and its offsets hold.
pub open spec fn layout_entries(data: Seq<u8>, offsets: Seq<u16>) -> Seq<Entry> {
    Seq::new(offsets.len(), |i: int| entry_at(data, offsets[i] as int))
}

/// The offsets chain the entries one after another from the start to the end of the data.
pub open spec fn layout_ok(data: Seq<u8>, offsets: Seq<u16>) -> bool {
    &&& offsets.len() < 65536
    &&& offsets.len() == 0 ==> data.len() == 0
    &&& offsets.len() > 0 ==> offsets[0] == 0
    &&& forall|i: int| 0 <= i < offsets.len() ==> #[trigger] slot_ok(data, offsets, i)
}

/// The little-endian bytes of a sequence of 16-bit offsets.
pub open spec fn offsets_le(s: Seq<u16>) -> Seq<u8> {
    Seq::new(2 * s.len(), |j: int| if j % 2 == 0 { (s[j / 2] % 256) as u8 } else { (s[j / 2] / 256) as u8 })
}

/// The count of entries, read from the last two bytes of an encoded block.
pub open spec fn encoded_count(bytes: Seq<u8>) -> int {
    read_u16(bytes, bytes.len() - 2) as int
}

/// Where the entry region of an encoded block ends.
pub open spec fn encoded_data_end(bytes: Seq<u8>) -> int {
    bytes.len() - 2 - 2 * encoded_count(bytes)
}

/// An encoded block is long enough for its count and offsets.
pub open spec fn encoded_sizes_ok(bytes: Seq<u8>) -> bool {
    bytes.len() >= 2 && encoded_data_end(bytes) >= 0
}

/// The entry region of an encoded block.
pub open spec fn decoded_data(bytes: Seq<u8>) -> Seq<u8> {
    bytes.subrange(0, encoded_data_end(bytes))
}

/// The offsets of an encoded block.
pub open spec fn decoded_offsets(bytes: Seq<u8>) -> Seq<u16> {
    Seq::new(encoded_count(bytes) as nat, |i: int| read_u16(bytes, encoded_data_end(bytes) + 2 * i) as u16)
}

/// A block: sorted entries sharing one byte region, with the start of each.
pub struct Block {
    data: Vec<u8>,
    offsets: Vec<u16>,
}

impl Block {
    /// The entry region.
    pub closed spec fn data_bytes(&self) -> Seq<u8> {
        self.data@
    }

    /// The start of each entry.
    pub closed spec fn offset_values(&self) -> Seq<u16> {
        self.offsets@
    }

    /// The entries, in order.
    pub open spec fn entries(&self) -> Seq<Entry> {
        layout_entries(self.data_bytes(), self.offset_values())
    }

    /// The layout is sound and the keys are sorted.
    pub open spec fn wf(&self) -> bool {
        layout_ok(self.data_bytes(), self.offset_values()) && keys_sorted(self.entries())
    }

    /// The on-disk bytes: entries, then each offset, then the count.
    pub open spec fn encoded(&self) -> Seq<u8> {
        self.data_bytes() + offsets_le(self.offset_values()) + u16_le(self.offset_values().len())
    }

    pub(crate) fn from_parts(data: Vec<u8>, offsets: Vec<u16>) -> (r: Block)
        ensures
            r.data_bytes() == data@,
            r.offset_values() == offsets@,
    {
        Block { data, offsets }
    }

    /// The number of entries.
    pub fn len(&self) -> (r: usize)
        ensures
            r == self.entries().len(),
    {
        self.offsets.len()
    }

    /// The key and value of entry `idx`.
    pub fn get_entry(&self, idx: usize) -> (r: (&[u8], &[u8]))
        requires
            self.wf(),
            idx < self.entries().len(),
        ensures
            r.0@ == self.entries()[idx as int].0,
            r.1@ == self.entries()[idx as int].1,
    {
        proof {
            assert(slot_ok(self.data@, self.offsets@, idx as int));
        }
        let offset = self.offsets[idx] as usize;
        let end = if idx == self.offsets.len() - 1 {
            self.data.len()
        } else {
            self.offsets[idx + 1] as usize
        };
        let entry = slice_subrange(self.data.as_slice(), offset, end);
        let key_len = get_u16_le(entry, 0) as usize;
        assert(key_len == key_len_at(self.data@, offset as int));
        let key = slice_subrange(entry, 2, 2 + key_len);
        let value_len = get_u16_le(entry, 2 + key_len) as usize;
        assert(value_len == value_len_at(self.data@, offset as int));
        let value = slice_subrange(entry, 4 + key_len, 4 + key_len + value_len);
        assert(key@ =~= self.entries()[idx as int].0);
        assert(value@ =~= self.entries()[idx as int].1);
        (key, value)
    }

    /// Encodes the block: entries, then each offset, then the count, all little-endian.
    pub fn encode(&self) -> (r: Vec<u8>)
        requires
            self.offset_values().len() < 65536,
        ensures
            r@ == self.encoded(),
    {
        let mut b: Vec<u8> = Vec::with_capacity(self.data.len());
        b.extend_from_slice(self.data.as_slice());
        assert(b@ =~= self.data@);
        let mut i: usize = 0;
        while i < self.offsets.len()
            invariant
                i <= self.offsets@.len(),
                b@ == self.data@ + offsets_le(self.offsets@.take(i as int)),
            decreases self.offsets.len() - i,
        {
            let ghost before = b@;
            put_u16_le(&mut b, self.offsets[i]);
            assert(offsets_le(self.offsets@.take(i + 1)) =~= offsets_le(self.offsets@.take(i as int))
                + u16_le(self.offsets@[i as int] as nat));
            i = i + 1;
        }
        assert(self.offsets@.take(i as int) =~= self.offsets@);
        put_u16_le(&mut b, self.offsets.len() as u16);
        b
    }

    /// Decodes a block from its encoded bytes.
    pub fn decode(data: &[u8]) -> (r: Block)
        requires
            encoded_sizes_ok(data@),
        ensures
            r.data_bytes() == decoded_data(data@),
            r.offset_values() == decoded_offsets(data@),
    {
        let total: usize = data.len();
        let num = get_u16_le(data, total - 2) as usize;
        let data_end = data.len() - 2 - 2 * num;
        let body = slice_subrange(data, 0, data_end);
        let mut offsets: Vec<u16> = Vec::new();
        let mut i: usize = 0;
        let mut pos: usize = data_end;
        while i < num
            invariant
                pos == data_end + 2 * i,
                total == data@.len(),
                pos + 2 * (num - i) + 2 == data@.len(),
                num == encoded_count(data@),
                data_end == encoded_data_end(data@),
                data_end + 2 * num + 2 == data@.len(),
                encoded_sizes_ok(data@),
                i <= num,
                offsets@ =~= decoded_offsets(data@).take(i as int),
            decreases num - i,
        {
            let v = get_u16_le(data, pos);
            offsets.push(v);
            i = i + 1;
            pos = pos + 2;
        }
        Block { data: slice_to_vec(body), offsets }
    }

    /// Whether the layout is sound and the keys sorted: what a block read from
    /// outside must be before its entries are used.
    pub fn is_well_formed(&self) -> (r: bool)
        ensures
            r == self.wf(),
    {
        let n = self.offsets.len();
        if n >= 65536 {
            return false;
        }
        if n == 0 {
            return self.data.len() == 0;
        }
        if self.offsets[0] != 0 {
            return false;
        }
        let mut i: usize = 0;
        while i < n
            invariant
                n == self.offsets@.len(),
                0 < n < 65536,
                self.offsets@[0] == 0,
                i <= n,
                forall|j: int| 0 <= j < i ==> #[trigger] slot_ok(self.data@, self.offsets@, j),
                keys_sorted(layout_entries(self.data@, self.offsets@).take(i as int)),
            decreases n - i,
        {
            let o = self.offsets[i] as usize;
            let end = if i + 1 < n { self.offsets[i + 1] as usize } else { self.data.len() };
            if end > self.data.len() || o + 4 > end {
                assert(!slot_ok(self.data@, self.offsets@, i as int));
                return false;
            }
            let kl = get_u16_le(self.data.as_slice(), o) as usize;
            if kl == 0 || o + 4 + kl > end {
                assert(!slot_ok(self.data@, self.offsets@, i as int));
                return false;
            }
            let vl = get_u16_le(self.data.as_slice(), o + 2 + kl) as usize;
            if o + 4 + kl + vl != end {
                assert(!slot_ok(self.data@, self.offsets@, i as int));
                return false;
            }
            assert(slot_ok(self.data@, self.offsets@, i as int));
            let ghost es = layout_entries(self.data@, self.offsets@);
            if i > 0 {
                assert(slot_ok(self.data@, self.offsets@, i - 1));
                let (pk, _) = self.get_entry_unchecked(i - 1);
                let ck = slice_subrange(self.data.as_slice(), o + 2, o + 2 + kl);
                assert(ck@ =~= es[i as int].0);
                match compare_keys(pk, ck) {
                    core::cmp::Ordering::Greater => {
                        assert(!keys_sorted(es));
                        return false;
                    }
                    _ => {}
                }
                proof {
                    assert forall|a: int, b: int| 0 <= a < b < i + 1 implies
                        key_le(#[trigger] es.take(i + 1)[a].0, #[trigger] es.take(i + 1)[b].0) by {
                        if b == i && a < i - 1 {
                            assert(es.take(i as int)[a] == es[a]);
                            assert(es.take(i as int)[i - 1] == es[i - 1]);
                            lemma_cmp_trans(es[a].0, es[i - 1].0, es[b].0);
                        } else if b < i {
                            assert(es.take(i as int)[a] == es[a]);
                            assert(es.take(i as int)[b] == es[b]);
                        }
                    }
                }
            } else {
                assert(keys_sorted(es.take(1)));
            }
            i = i + 1;
        }
        assert(layout_entries(self.data@, self.offsets@).take(n as int) =~= layout_entries(self.data@, self.offsets@));
        true
    }

    /// The key and value of entry `idx`, where only entries up to `idx` are known to fit.
    fn get_entry_unchecked(&self, idx: usize) -> (r: (&[u8], &[u8]))
        requires
            idx < self.offsets@.len(),
            slot_ok(self.data@, self.offsets@, idx as int),
        ensures
            r.0@ == layout_entries(self.data@, self.offsets@)[idx as int].0,
            r.1@ == layout_entries(self.data@, self.offsets@)[idx as int].1,
    {
        let offset = self.offsets[idx] as usize;
        let end = if idx == self.offsets.len() - 1 {
            self.data.len()
        } else {
            self.offsets[idx + 1] as usize
        };
        let entry = slice_subrange(self.data.as_slice(), offset, end);
        let key_len = get_u16_le(entry, 0) as usize;
        assert(key_len == key_len_at(self.data@, offset as int));
        let key = slice_subrange(entry, 2, 2 + key_len);
        let value_len = get_u16_le(entry, 2 + key_len) as usize;
        assert(value_len == value_len_at(self.data@, offset as int));
        let value = slice_subrange(entry, 4 + key_len, 4 + key_len + value_len);
        assert(key@ =~= layout_entries(self.data@, self.offsets@)[idx as int].0);
        assert(value@ =~= layout_entries(self.data@, self.offsets@)[idx as int].1);
        (key, value)
    }
}

/// Decoding the encoding of a block gives back its entry region and offsets,
/// hence the same entries.
pub proof fn lemma_block_round_trip(b: Block)
    requires
        b.offset_values().len() < 65536,
    ensures
        encoded_sizes_ok(b.encoded()),
        decoded_data(b.encoded()) == b.data_bytes(),
        decoded_offsets(b.encoded()) == b.offset_values(),
        layout_entries(decoded_data(b.encoded()), decoded_offsets(b.encoded())) == b.entries(),
{
    let e = b.encoded();
    let n = b.offset_values().len();
    let dl = b.data_bytes().len();
    assert(e.len() == dl + 2 * n + 2);
    assert(e[e.len() - 2] == u16_le(n)[0]);
    assert(e[e.len() - 1] == u16_le(n)[1]);
    assert(encoded_count(e) == n);
    assert(decoded_data(e) =~= b.data_bytes());
    assert forall|i: int| 0 <= i < n implies #[trigger] decoded_offsets(e)[i] == b.offset_values()[i] by {
        assert(e[dl + 2 * i] == offsets_le(b.offset_values())[2 * i]);
        assert(e[dl + 2 * i + 1] == offsets_le(b.offset_values())[2 * i + 1]);
        assert((2 * i) / 2 == i);
        assert((2 * i + 1) / 2 == i);
        assert((2 * i) % 2 == 0);
        assert((2 * i + 1) % 2 == 1);
    }
    assert(decoded_offsets(e) =~= b.offset_values());
}

/// The entries of a well-formed block are in non-decreasing key order.
pub proof fn lemma_block_sorted(b: Block)
    requires
        b.wf(),
    ensures
        forall|i: int, j: int| 0 <= i < j < b.entries().len() ==> key_le(#[trigger] b.entries()[i].0, #[trigger] b.entries()[j].0),
{
}

} // verus!
