use vstd::prelude::*;
use vstd::slice::slice_to_vec;
use crate::block::{BlockBuilder, lemma_block_round_trip};
use crate::block::builder::entry_cost;
use crate::key::{Entry, key_le, keys_sorted, keys_strictly_sorted, put_u32_le, u32_le, lemma_u32_round_trip};
use crate::table::{BlockMeta, FileObject, MetaView, SsTable, encode_metas, meta_ok, meta_views, region_entries, region_ok, lemma_meta_round_trip};
use crate::table::iterator::{chain, well_built};

verus! {

/// Blocks start on multiples of this many bytes.
pub const BLOCK_ALIGN: usize = 4096;

/// The entries of a sequence of blocks, one block after another.
pub open spec fn flatten(bs: Seq<Seq<Entry>>) -> Seq<Entry>
    decreases bs.len(),
{
    if bs.len() == 0 {
        Seq::empty()
    } else {
        flatten(bs.drop_last()) + bs.last()
    }
}

/// `n` rounded up to the next multiple of the block alignment.
pub open spec fn round_up(n: int) -> int {
    n + (4096 - n % 4096) % 4096
}

/// A builder's layout in numbers: bytes of finished blocks, encoded size of the
/// block being filled, and how many entries that block holds.
pub type Fill = (int, int, int);

/// The layout after adding an entry under budget `bs`: the entry opens a new
/// block exactly when the block being filled holds entries and would go over budget.
pub open spec fn fill_add(st: Fill, key: Seq<u8>, value: Seq<u8>, bs: int) -> Fill {
    if st.2 > 0 && st.1 + entry_cost(key, value) > bs {
        (round_up(st.0 + st.1), 2 + entry_cost(key, value), 1)
    } else {
        (st.0, st.1 + entry_cost(key, value), st.2 + 1)
    }
}

/// The layout after adding `es` in order to an empty builder with budget `bs`.
pub open spec fn fill(es: Seq<Entry>, bs: int) -> Fill
    decreases es.len(),
{
    if es.len() == 0 {
        (0, 2, 0)
    } else {
        fill_add(fill(es.drop_last(), bs), es.last().0, es.last().1, bs)
    }
}

/// Where the block records of a layout start once its last block is finished.
pub open spec fn records_start(st: Fill) -> int {
    if st.2 == 0 { st.0 } else { round_up(st.0 + st.1) }
}

/// The records lie on aligned offsets, the first at 0, each block before the next.
pub open spec fn records_aligned(ms: Seq<MetaView>, end: int) -> bool {
    &&& forall|k: int| 0 <= k < ms.len() ==> (#[trigger] ms[k]).0 % 4096 == 0
    &&& ms.len() > 0 ==> ms[0].0 == 0
    &&& forall|k: int| 0 <= k < ms.len() - 1 ==> (#[trigger] ms[k]).0 + ms[k].1 <= ms[k + 1].0
    &&& ms.len() > 0 ==> ms.last().0 + ms.last().1 <= end
    &&& ms.len() == 0 ==> end == 0
}

/// The record `m` locates in `d` a sound block that holds `es`, and names its first key.
pub open spec fn block_placed(d: Seq<u8>, m: MetaView, es: Seq<Entry>) -> bool {
    &&& m.0 + m.1 <= d.len()
    &&& region_ok(d.subrange(m.0 as int, (m.0 + m.1) as int))
    &&& region_entries(d.subrange(m.0 as int, (m.0 + m.1) as int)) == es
    &&& es.len() > 0
    &&& m.2 == es[0].0
}

/// Builds a table from entries given in key order.
pub struct SsTableBuilder {
    pub(crate) meta: Vec<BlockMeta>,
    block_size: usize,
    data: Vec<u8>,
    current_block_builder: BlockBuilder,
    current_block_first_key: Vec<u8>,
    blocks: Ghost<Seq<Seq<Entry>>>,
}

impl SsTableBuilder {
    /// The entries added so far, in order.
    pub closed spec fn added(&self) -> Seq<Entry> {
        flatten(self.blocks@) + self.current_block_builder.entries()
    }

    /// The bytes of the finished blocks.
    pub closed spec fn data_len(&self) -> int {
        self.data@.len() as int
    }

    /// The encoded size of the block being filled.
    pub closed spec fn pending_size(&self) -> int {
        self.current_block_builder.size()
    }

    /// The entries of the block being filled.
    pub closed spec fn pending(&self) -> Seq<Entry> {
        self.current_block_builder.entries()
    }

    /// The entries of each finished block.
    pub closed spec fn blocks(&self) -> Seq<Seq<Entry>> {
        self.blocks@
    }

    /// The records of the finished blocks.
    pub closed spec fn records(&self) -> Seq<MetaView> {
        meta_views(self.meta@)
    }

    /// The bytes of the finished blocks, with their padding.
    pub closed spec fn data_bytes(&self) -> Seq<u8> {
        self.data@
    }

    /// The byte budget of a block.
    pub closed spec fn budget(&self) -> int {
        self.block_size as int
    }

    /// The layout in numbers.
    pub open spec fn state(&self) -> Fill {
        (self.data_len(), self.pending_size(), self.pending().len() as int)
    }

    pub closed spec fn wf(&self) -> bool {
        &&& self.current_block_builder.wf()
        &&& self.current_block_builder.budget() == self.block_size
        &&& self.block_size <= 65535
        &&& self.meta@.len() == self.blocks@.len()
        &&& self.data@.len() % 4096 == 0
        &&& records_aligned(meta_views(self.meta@), self.data@.len() as int)
        &&& forall|k: int| 0 <= k < self.meta@.len() ==> #[trigger] block_placed(self.data@, self.meta@[k]@, self.blocks@[k])
        &&& self.current_block_first_key@ == if self.current_block_builder.entries().len() == 0 {
            Seq::<u8>::empty()
        } else {
            self.current_block_builder.entries()[0].0
        }
        &&& (self.current_block_first_key@.len() == 0) == (self.current_block_builder.entries().len() == 0)
        &&& keys_sorted(self.added())
        &&& forall|i: int| 0 <= i < self.added().len() ==> 0 < (#[trigger] self.added()[i]).0.len() < 65536
    }

    /// Where the block records will start once the block being filled is finished.
    pub open spec fn finished_len(&self) -> int {
        records_start(self.state())
    }

    /// Creates a builder whose blocks aim at `block_size` bytes.
    pub fn new(block_size: usize) -> (r: Self)
        requires
            block_size <= 65535,
        ensures
            r.wf(),
            r.added() == Seq::<Entry>::empty(),
            r.data_len() == 0,
            r.state() == (0int, 2int, 0int),
            r.blocks() == Seq::<Seq<Entry>>::empty(),
            r.records() == Seq::<MetaView>::empty(),
            r.budget() == block_size,
    {
        let r = Self {
            meta: Vec::new(),
            block_size,
            data: Vec::new(),
            current_block_builder: BlockBuilder::new(block_size),
            current_block_first_key: Vec::new(),
            blocks: Ghost(Seq::empty()),
        };
        assert(r.added() =~= Seq::<Entry>::empty());
        assert(r.records() =~= Seq::<MetaView>::empty());
        r
    }

    /// Adds an entry; keys must come in non-decreasing order.
    pub fn add(&mut self, key: &[u8], value: &[u8])
        requires
            old(self).wf(),
            key@.len() > 0,
            key@.len() < 65536,
            value@.len() < 65536,
            old(self).added().len() > 0 ==> key_le(old(self).added().last().0, key@),
            old(self).data_len() + 500000 < usize::MAX,
        ensures
            final(self).wf(),
            final(self).added() == old(self).added().push((key@, value@)),
            final(self).data_len() <= old(self).data_len() + 210000,
            final(self).state() == fill_add(old(self).state(), key@, value@, old(self).budget()),
            final(self).budget() == old(self).budget(),
            ({
                let refused = old(self).pending().len() > 0 && old(self).pending_size() + entry_cost(key@, value@) > old(self).budget();
                &&& refused ==> final(self).blocks() == old(self).blocks().push(old(self).pending())
                    && final(self).pending() == seq![(key@, value@)]
                    && final(self).records() == old(self).records().push(
                        (old(self).data_len() as nat, old(self).pending_size() as nat, old(self).pending()[0].0))
                &&& !refused ==> final(self).blocks() == old(self).blocks()
                    && final(self).pending() == old(self).pending().push((key@, value@))
                    && final(self).records() == old(self).records()
                    && final(self).data_bytes() == old(self).data_bytes()
                &&& refused ==> final(self).data_bytes().subrange(0, old(self).data_len()) == old(self).data_bytes()
                    && block_placed(final(self).data_bytes(), final(self).records().last(), old(self).pending())
                    && forall|i: int| old(self).data_len() + old(self).pending_size() <= i < final(self).data_len()
                        ==> final(self).data_bytes()[i] == 0
            }),
    {
        let ghost prev = self.added();
        proof {
            if self.current_block_builder.entries().len() > 0 {
                assert(self.added().last() == self.current_block_builder.entries().last());
            }
        }
        let ghost cur_before = self.current_block_builder.entries();
        let added = self.current_block_builder.add(key, value);
        if self.current_block_first_key.len() == 0 {
            self.current_block_first_key = slice_to_vec(key);
        }
        if !added {
            self.finish_current_block();
            let added_again = self.current_block_builder.add(key, value);
            self.current_block_first_key = slice_to_vec(key);
        }
        proof {
            if added && cur_before.len() > 0 {
                assert(self.current_block_builder.entries()[0] == cur_before[0]);
            }
            assert(self.added() =~= prev.push((key@, value@)));
            let a = self.added();
            assert forall|i: int, j: int| 0 <= i < j < a.len() implies key_le(#[trigger] a[i].0, #[trigger] a[j].0) by {
                if j == a.len() - 1 && i < j - 1 {
                    crate::key::lemma_cmp_trans(a[i].0, a[j - 1].0, a[j].0);
                }
            }
        }
    }

    #[verifier::rlimit(60)]
    fn finish_current_block(&mut self)
        requires
            old(self).wf(),
            old(self).current_block_builder.entries().len() > 0,
            old(self).data_len() + 500000 < usize::MAX,
        ensures
            final(self).wf(),
            final(self).added() == old(self).added(),
            final(self).current_block_builder.entries().len() == 0,
            final(self).data_len() <= old(self).data_len() + 210000,
            final(self).data_len() == old(self).finished_len(),
            final(self).pending_size() == 2,
            final(self).blocks() == old(self).blocks().push(old(self).pending()),
            final(self).records() == old(self).records().push(
                (old(self).data_len() as nat, old(self).pending_size() as nat, old(self).pending()[0].0)),
            final(self).budget() == old(self).budget(),
            final(self).data_bytes().subrange(0, old(self).data_len()) == old(self).data_bytes(),
            block_placed(final(self).data_bytes(), final(self).records().last(), old(self).pending()),
            forall|i: int| old(self).data_len() + old(self).pending_size() <= i < final(self).data_len()
                ==> final(self).data_bytes()[i] == 0,
    {
        let ghost cur = self.current_block_builder.entries();
        let ghost old_data = self.data@;
        assert(self.added()[flatten(self.blocks@).len() as int] == cur[0]);
        let mut builder = BlockBuilder::new(self.block_size);
        core::mem::swap(&mut builder, &mut self.current_block_builder);
        let block = builder.build();
        let encoded = block.encode();
        proof {
            lemma_block_round_trip(block);
        }
        let mut first_key: Vec<u8> = Vec::new();
        core::mem::swap(&mut first_key, &mut self.current_block_first_key);
        let meta = BlockMeta { offset: self.data.len(), len: encoded.len(), first_key };
        self.data.extend_from_slice(encoded.as_slice());
        assert(self.data@ =~= old_data + encoded@);
        self.meta.push(meta);
        let len = self.data.len();
        let ghost before_pad = self.data@;
        let padding = (BLOCK_ALIGN - len % BLOCK_ALIGN) % BLOCK_ALIGN;
        self.data.resize(len + padding, 0);
        self.blocks = Ghost(self.blocks@.push(cur));
        proof {
            let d = self.data@;
            assert(d.subrange(0, len as int) == before_pad) by {
                if padding == 0 {
                    assert(before_pad.subrange(0, len as int) =~= before_pad);
                }
            }
            assert(d.subrange(0, old_data.len() as int) == old_data) by {
                assert(d.subrange(0, len as int).subrange(0, old_data.len() as int) =~= d.subrange(0, old_data.len() as int));
                assert(before_pad.subrange(0, old_data.len() as int) =~= old_data);
            }
            assert forall|k: int| 0 <= k < self.meta@.len() implies #[trigger] block_placed(d, self.meta@[k]@, self.blocks@[k]) by {
                let m = self.meta@[k]@;
                if k < self.meta@.len() - 1 {
                    assert(block_placed(old_data, m, self.blocks@[k]));
                    assert(d.subrange(m.0 as int, (m.0 + m.1) as int) =~= old_data.subrange(m.0 as int, (m.0 + m.1) as int));
                } else {
                    assert(d.subrange(m.0 as int, (m.0 + m.1) as int) =~= d.subrange(0, len as int).subrange(m.0 as int, (m.0 + m.1) as int));
                    assert(d.subrange(m.0 as int, (m.0 + m.1) as int) =~= encoded@);
                }
            }
            assert(flatten(self.blocks@).len() >= 0);
            assert(self.blocks@.drop_last() =~= old(self).blocks@);
            assert(self.current_block_builder.entries().len() == 0);
            assert(self.added() =~= old(self).added());
            assert(self.records() =~= old(self).records().push(
                (old(self).data_len() as nat, old(self).pending_size() as nat, old(self).pending()[0].0)));
            assert((len + padding) % 4096 == 0);
            lemma_push_record(meta_views(old(self).meta@), meta_views(self.meta@).last(), old_data.len() as int, d.len() as int);
            assert(block_placed(d, self.meta@[self.meta@.len() - 1]@, self.blocks@[self.meta@.len() - 1]));
            assert(meta_views(self.meta@) =~= meta_views(old(self).meta@).push(meta_views(self.meta@).last()));
        }
    }

    /// Finishes the last block and lays out the table: blocks, block records,
    /// and the offset of the records as a u32. The id would key a shared block
    /// cache; the table reads its blocks directly.
    pub fn build(self, _id: usize) -> (r: SsTable)
        requires
            self.wf(),
            self.finished_len() < 4294967295,
            self.data_len() + 500000 < usize::MAX,
        ensures
            r.opened_from(r.file_bytes()),
            r.meta_offset() == self.finished_len(),
            forall|k: int| 0 <= k < r.metas().len() ==> #[trigger] r.block_readable(k) && r.block_entries(k).len() > 0,
            r.first_keys_match(),
            chain(r, 0) == self.added(),
            keys_strictly_sorted(self.added()) ==> well_built(r),
            r.metas() == self.all_records(),
            records_aligned(r.metas(), r.meta_offset()),
    {
        let ghost ar = self.all_records();
        let mut this = self;
        if !this.current_block_builder.is_empty() {
            this.finish_current_block();
        }
        assert(this.records() == ar);
        assert(records_aligned(this.records(), this.data_len()));
        let block_meta_offset = this.data.len();
        let ghost data = this.data@;
        let ghost blocks = this.blocks@;
        let SsTableBuilder { meta, data: mut buf, .. } = this;
        proof {
            assert forall|i: int| 0 <= i < meta@.len() implies meta_ok(#[trigger] meta@[i]@) by {
                assert(block_placed(data, meta@[i]@, blocks[i]));
                lemma_flatten_index(blocks, i);
            }
        }
        BlockMeta::encode_block_meta(meta.as_slice(), &mut buf);
        put_u32_le(&mut buf, block_meta_offset as u32);
        let ghost file = buf@;
        let ghost ms = meta_views(meta@);
        let r = SsTable::from_parts(FileObject::create(buf), meta, block_meta_offset);
        proof {
            assert(file =~= data + encode_metas(ms) + u32_le(block_meta_offset as nat));
            lemma_laid_out(r, data, ms, blocks);
            assert(flatten(blocks) == self.added());
        }
        r
    }

    /// The entries of each block once the block being filled is finished.
    pub open spec fn all_blocks(&self) -> Seq<Seq<Entry>> {
        if self.pending().len() == 0 { self.blocks() } else { self.blocks().push(self.pending()) }
    }

    /// The block records once the block being filled is finished.
    pub open spec fn all_records(&self) -> Seq<MetaView> {
        if self.pending().len() == 0 {
            self.records()
        } else {
            self.records().push((self.data_len() as nat, self.pending_size() as nat, self.pending()[0].0))
        }
    }

    /// Where the block records will start once the block being filled is finished.
    pub fn finished_size(&self) -> (r: usize)
        requires
            self.wf(),
            self.data_len() + 500000 < usize::MAX,
        ensures
            r == self.finished_len(),
    {
        if self.current_block_builder.is_empty() {
            self.data.len()
        } else {
            let l = self.data.len() + self.current_block_builder.estimated_size();
            l + (BLOCK_ALIGN - l % BLOCK_ALIGN) % BLOCK_ALIGN
        }
    }

    /// The size of the table so far: finished blocks and the block being filled.
    pub fn estimated_size(&self) -> (r: usize)
        requires
            self.wf(),
            self.data_len() + 500000 < usize::MAX,
        ensures
            r == self.data_len() + if self.pending().len() == 0 { 0 } else { self.pending_size() },
    {
        let builder_size = if self.current_block_builder.is_empty() {
            0
        } else {
            self.current_block_builder.estimated_size()
        };
        self.data.len() + builder_size
    }
}

/// A file laid out as blocks, their records and the records' offset opens to
/// those records and reads back block by block as the blocks it was built from.
#[verifier::rlimit(60)]
proof fn lemma_laid_out(r: SsTable, data: Seq<u8>, ms: Seq<MetaView>, blocks: Seq<Seq<Entry>>)
    requires
        r.file_bytes() == data + encode_metas(ms) + u32_le(data.len()),
        data.len() < 4294967295,
        r.metas() == ms,
        r.meta_offset() == data.len(),
        ms.len() == blocks.len(),
        forall|k: int| 0 <= k < ms.len() ==> #[trigger] block_placed(data, ms[k], blocks[k]),
        forall|k: int| 0 <= k < ms.len() ==> meta_ok(#[trigger] ms[k]),
    ensures
        r.opened_from(r.file_bytes()),
        forall|k: int| 0 <= k < r.metas().len() ==> #[trigger] r.block_readable(k) && r.block_entries(k).len() > 0
            && r.block_entries(k) == blocks[k],
        r.first_keys_match(),
        chain(r, 0) == flatten(blocks),
        keys_strictly_sorted(flatten(blocks)) ==> well_built(r),
{
    let file = r.file_bytes();
    let enc = encode_metas(ms);
    let off = data.len();
    lemma_u32_round_trip(off);
    let tail = u32_le(off);
    assert(file[file.len() - 4] == tail[0]);
    assert(file[file.len() - 3] == tail[1]);
    assert(file[file.len() - 2] == tail[2]);
    assert(file[file.len() - 1] == tail[3]);
    assert(file.subrange(off as int, file.len() - 4) =~= enc);
    lemma_meta_round_trip(ms);
    assert forall|k: int| 0 <= k < r.metas().len() implies #[trigger] r.block_readable(k) && r.block_entries(k).len() > 0
        && r.block_entries(k) == blocks[k] && r.block_entries(k)[0].0 == r.metas()[k].2 by {
        assert(block_placed(data, ms[k], blocks[k]));
        let m = ms[k];
        assert(file.subrange(m.0 as int, (m.0 + m.1) as int) =~= data.subrange(m.0 as int, (m.0 + m.1) as int));
    }
    lemma_chain_blocks(r, blocks, 0);
    assert(blocks.subrange(0, blocks.len() as int) =~= blocks);
}

proof fn lemma_push_record(oms: Seq<MetaView>, m: MetaView, old_len: int, new_len: int)
    requires
        records_aligned(oms, old_len),
        old_len % 4096 == 0,
        old_len <= new_len,
        m.0 == old_len,
        m.0 + m.1 <= new_len,
    ensures
        records_aligned(oms.push(m), new_len),
{
    let ms = oms.push(m);
    assert forall|k: int| 0 <= k < ms.len() - 1 implies (#[trigger] ms[k]).0 + ms[k].1 <= ms[k + 1].0 by {
        assert(ms[k] == oms[k]);
        if k < ms.len() - 2 {
            assert(ms[k + 1] == oms[k + 1]);
        }
    }
    assert forall|k: int| 0 <= k < ms.len() implies (#[trigger] ms[k]).0 % 4096 == 0 by {
        if k < ms.len() - 1 {
            assert(ms[k] == oms[k]);
        }
    }
    if oms.len() > 0 {
        assert(ms[0] == oms[0]);
    }
}

proof fn lemma_flatten_front(bs: Seq<Seq<Entry>>)
    requires
        bs.len() > 0,
    ensures
        flatten(bs) == bs[0] + flatten(bs.drop_first()),
    decreases bs.len(),
{
    if bs.len() > 1 {
        lemma_flatten_front(bs.drop_last());
        assert(bs.drop_last().drop_first() =~= bs.drop_first().drop_last());
        assert(flatten(bs) =~= bs[0] + flatten(bs.drop_first()));
    } else {
        assert(bs.drop_last() =~= Seq::<Seq<Entry>>::empty());
        assert(bs.drop_first() =~= Seq::<Seq<Entry>>::empty());
        assert(flatten(bs) =~= bs[0] + flatten(bs.drop_first()));
    }
}

/// The first entry of block `i` stands in the flattened sequence.
proof fn lemma_flatten_index(bs: Seq<Seq<Entry>>, i: int)
    requires
        0 <= i < bs.len(),
        bs[i].len() > 0,
    ensures
        exists|j: int| 0 <= j < flatten(bs).len() && #[trigger] flatten(bs)[j] == bs[i][0],
    decreases bs.len(),
{
    if i == bs.len() - 1 {
        assert(flatten(bs)[flatten(bs.drop_last()).len() as int] == bs[i][0]);
    } else {
        lemma_flatten_index(bs.drop_last(), i);
        let j = choose|j: int| 0 <= j < flatten(bs.drop_last()).len() && #[trigger] flatten(bs.drop_last())[j] == bs[i][0];
        assert(flatten(bs)[j] == bs[i][0]);
    }
}

/// Reading a table block after block gives the blocks it was built from.
proof fn lemma_chain_blocks(t: SsTable, bs: Seq<Seq<Entry>>, k: int)
    requires
        0 <= k <= bs.len(),
        t.metas().len() == bs.len(),
        forall|i: int| 0 <= i < t.metas().len() ==> #[trigger] t.block_readable(i) && t.block_entries(i).len() > 0
            && t.block_entries(i) == bs[i] && t.block_entries(i)[0].0 == t.metas()[i].2,
    ensures
        chain(t, k) == flatten(bs.subrange(k, bs.len() as int)),
    decreases bs.len() - k,
{
    if k == bs.len() {
        assert(bs.subrange(k, bs.len() as int) =~= Seq::<Seq<Entry>>::empty());
    } else {
        assert(t.block_readable(k));
        lemma_chain_blocks(t, bs, k + 1);
        let sub = bs.subrange(k, bs.len() as int);
        lemma_flatten_front(sub);
        assert(sub.drop_first() =~= bs.subrange(k + 1, bs.len() as int));
    }
}

} // verus!
