//! Sorted string tables: aligned blocks, then the block index, then the index's offset.
pub mod builder;
pub mod iterator;

pub use builder::SsTableBuilder;
pub use iterator::SsTableIterator;

use std::sync::Arc;
use vstd::prelude::*;
use vstd::slice::{slice_subrange, slice_to_vec};
use crate::block::{Block, encoded_sizes_ok, layout_ok, layout_entries, decoded_data, decoded_offsets};
use crate::iterators::StorageError;
use crate::key::{Entry, get_u16_le, get_u32_le, key_le, key_lt, keys_sorted, put_u16_le, put_u32_le, read_u16, read_u32, u16_le, u32_le, compare_keys};

verus! {

/// Where a block lies in the file, and its first key.
#[derive(Debug)]
pub struct BlockMeta {
    /// Offset of the block, encoded as a u32.
    pub offset: usize,
    /// Length of the block, encoded as a u32.
    pub len: usize,
    /// The first key of the block, encoded as a u16 length and the key.
    pub first_key: Vec<u8>,
}

/// A block record: offset, length, first key.
pub type MetaView = (nat, nat, Seq<u8>);

impl View for BlockMeta {
    type V = MetaView;

    open spec fn view(&self) -> MetaView {
        (self.offset as nat, self.len as nat, self.first_key@)
    }
}

/// The record fits its encoding.
pub open spec fn meta_ok(m: MetaView) -> bool {
    m.0 < 4294967296 && m.1 < 4294967296 && m.2.len() < 65536
}

/// The encoding of one record: `u32 offset | u32 len | u16 key_len | key`.
pub open spec fn meta_bytes(m: MetaView) -> Seq<u8> {
    u32_le(m.0) + u32_le(m.1) + u16_le(m.2.len()) + m.2
}

/// The encoding of a sequence of records, one after another.
pub open spec fn encode_metas(ms: Seq<MetaView>) -> Seq<u8>
    decreases ms.len(),
{
    if ms.len() == 0 {
        Seq::empty()
    } else {
        encode_metas(ms.drop_last()) + meta_bytes(ms.last())
    }
}

/// The records that `s` holds, read until it is drained; `None` where a record is cut short.
pub open spec fn parse_metas(s: Seq<u8>) -> Option<Seq<MetaView>>
    decreases s.len(),
{
    if s.len() == 0 {
        Some(Seq::empty())
    } else if s.len() < 10 || s.len() < 10 + read_u16(s, 8) {
        None
    } else {
        let kl = read_u16(s, 8) as int;
        match parse_metas(s.subrange(10 + kl, s.len() as int)) {
            Some(rest) => Some(seq![(read_u32(s, 0), read_u32(s, 4), s.subrange(10, 10 + kl))] + rest),
            None => None,
        }
    }
}

pub open spec fn meta_views(ms: Seq<BlockMeta>) -> Seq<MetaView> {
    ms.map_values(|m: BlockMeta| m@)
}

proof fn lemma_encode_metas_front(ms: Seq<MetaView>)
    requires
        ms.len() > 0,
    ensures
        encode_metas(ms) == meta_bytes(ms[0]) + encode_metas(ms.drop_first()),
    decreases ms.len(),
{
    if ms.len() > 1 {
        lemma_encode_metas_front(ms.drop_last());
        assert(ms.drop_last().drop_first() =~= ms.drop_first().drop_last());
        assert(ms.drop_first().last() == ms.last());
        assert(encode_metas(ms) =~= meta_bytes(ms[0]) + encode_metas(ms.drop_first()));
    } else {
        assert(ms.drop_last() =~= Seq::<MetaView>::empty());
        assert(ms.drop_first() =~= Seq::<MetaView>::empty());
        assert(encode_metas(ms) =~= meta_bytes(ms[0]) + encode_metas(ms.drop_first()));
    }
}

/// Reading back encoded block records gives the same records.
pub proof fn lemma_meta_round_trip(ms: Seq<MetaView>)
    requires
        forall|i: int| 0 <= i < ms.len() ==> meta_ok(#[trigger] ms[i]),
    ensures
        parse_metas(encode_metas(ms)) == Some(ms),
    decreases ms.len(),
{
    if ms.len() == 0 {
        assert(encode_metas(ms).len() == 0);
        assert(ms =~= Seq::<MetaView>::empty());
    } else {
        lemma_encode_metas_front(ms);
        let m = ms[0];
        assert(meta_ok(m));
        let s = encode_metas(ms);
        let kl = m.2.len() as int;
        let a = u32_le(m.0);
        let b = u32_le(m.1);
        let c = u16_le(m.2.len());
        crate::key::lemma_u32_round_trip(m.0);
        crate::key::lemma_u32_round_trip(m.1);
        crate::key::lemma_u16_round_trip(m.2.len());
        assert(s.len() == 10 + kl + encode_metas(ms.drop_first()).len());
        assert(s[0] == a[0] && s[1] == a[1] && s[2] == a[2] && s[3] == a[3]);
        assert(s[4] == b[0] && s[5] == b[1] && s[6] == b[2] && s[7] == b[3]);
        assert(s[8] == c[0] && s[9] == c[1]);
        assert(s.subrange(10 + kl, s.len() as int) =~= encode_metas(ms.drop_first()));
        assert(s.subrange(10, 10 + kl) =~= m.2);
        assert(read_u16(s, 8) == kl);
        assert(read_u32(s, 0) == m.0);
        assert(read_u32(s, 4) == m.1);
        lemma_meta_round_trip(ms.drop_first());
        assert(seq![m] + ms.drop_first() =~= ms);
    }
}

impl BlockMeta {
    /// Appends the encoding of `block_meta` to `buf`.
    pub fn encode_block_meta(block_meta: &[BlockMeta], buf: &mut Vec<u8>)
        requires
            forall|i: int| 0 <= i < block_meta@.len() ==> meta_ok(#[trigger] block_meta@[i]@),
        ensures
            final(buf)@ == old(buf)@ + encode_metas(meta_views(block_meta@)),
    {
        let ghost ms = meta_views(block_meta@);
        let mut i: usize = 0;
        assert(encode_metas(ms.take(0)) =~= Seq::<u8>::empty());
        assert(buf@ =~= old(buf)@ + encode_metas(ms.take(0)));
        while i < block_meta.len()
            invariant
                i <= block_meta@.len(),
                ms == meta_views(block_meta@),
                forall|j: int| 0 <= j < block_meta@.len() ==> meta_ok(#[trigger] block_meta@[j]@),
                buf@ == old(buf)@ + encode_metas(ms.take(i as int)),
            decreases block_meta.len() - i,
        {
            let meta = &block_meta[i];
            assert(meta_ok(block_meta@[i as int]@));
            put_u32_le(buf, meta.offset as u32);
            put_u32_le(buf, meta.len as u32);
            put_u16_le(buf, meta.first_key.len() as u16);
            buf.extend_from_slice(meta.first_key.as_slice());
            assert(ms.take(i + 1).drop_last() =~= ms.take(i as int));
            assert(buf@ =~= old(buf)@ + encode_metas(ms.take(i + 1)));
            i = i + 1;
        }
        assert(ms.take(i as int) =~= ms);
    }

    /// Reads block records until `buf` is drained.
    pub fn decode_block_meta(buf: &[u8]) -> (r: Result<Vec<BlockMeta>, StorageError>)
        ensures
            parse_metas(buf@) matches Some(ms) ==> (r matches Ok(v) && meta_views(v@) == ms),
            parse_metas(buf@) is None ==> r == Err::<Vec<BlockMeta>, StorageError>(StorageError::Corruption),
    {
        let total: usize = buf.len();
        let mut res: Vec<BlockMeta> = Vec::new();
        let mut pos: usize = 0;
        assert(buf@.subrange(0, total as int) =~= buf@);
        while pos < total
            invariant
                total == buf@.len(),
                pos <= total,
                parse_metas(buf@.subrange(pos as int, total as int)) matches Some(rest) ==> parse_metas(buf@)
                    == Some(meta_views(res@) + rest),
                parse_metas(buf@.subrange(pos as int, total as int)) is None ==> parse_metas(buf@) is None,
            decreases total - pos,
        {
            let ghost s = buf@.subrange(pos as int, total as int);
            if total - pos < 10 {
                return Err(StorageError::Corruption);
            }
            let offset = get_u32_le(buf, pos) as usize;
            let len = get_u32_le(buf, pos + 4) as usize;
            let key_len = get_u16_le(buf, pos + 8) as usize;
            assert(read_u16(s, 8) == key_len);
            assert(read_u32(s, 0) == offset);
            assert(read_u32(s, 4) == len);
            if total - pos - 10 < key_len {
                return Err(StorageError::Corruption);
            }
            let first_key = slice_to_vec(slice_subrange(buf, pos + 10, pos + 10 + key_len));
            assert(first_key@ =~= s.subrange(10, 10 + key_len));
            assert(s.subrange(10 + key_len, s.len() as int) =~= buf@.subrange(pos + 10 + key_len, total as int));
            let ghost before = res@;
            res.push(BlockMeta { offset, len, first_key });
            assert(meta_views(res@) =~= meta_views(before).push(res@.last()@));
            proof {
                let rest_s = buf@.subrange(pos + 10 + key_len, total as int);
                match parse_metas(rest_s) {
                    Some(rest) => {
                        assert(meta_views(res@) + rest =~= meta_views(before) + (seq![res@.last()@] + rest));
                    },
                    None => {},
                }
            }
            pos = pos + 10 + key_len;
        }
        assert(meta_views(res@) + Seq::<MetaView>::empty() =~= meta_views(res@));
        Ok(res)
    }
}

/// The bytes of a table file, held for random-access reads.
pub struct FileObject {
    data: Vec<u8>,
}

impl FileObject {
    pub closed spec fn bytes(&self) -> Seq<u8> {
        self.data@
    }

    /// Reads `len` bytes at `offset`; fails where the file is shorter.
    pub fn read(&self, offset: u64, len: u64) -> (r: Result<Vec<u8>, StorageError>)
        ensures
            offset + len <= self.bytes().len() ==> (r matches Ok(v) && v@ == self.bytes().subrange(offset as int, offset + len)),
            offset + len > self.bytes().len() ==> r == Err::<Vec<u8>, StorageError>(StorageError::Io),
    {
        let size = self.data.len() as u64;
        if offset > size || len > size - offset {
            return Err(StorageError::Io);
        }
        Ok(slice_to_vec(slice_subrange(self.data.as_slice(), offset as usize, (offset + len) as usize)))
    }

    /// The file's size in bytes.
    pub fn size(&self) -> (r: u64)
        ensures
            r == self.bytes().len(),
    {
        self.data.len() as u64
    }

    /// A file that holds `data`.
    pub fn create(data: Vec<u8>) -> (r: Self)
        ensures
            r.bytes() == data@,
    {
        FileObject { data }
    }

    /// The file's bytes.
    pub fn contents(&self) -> (r: &[u8])
        ensures
            r@ == self.bytes(),
    {
        self.data.as_slice()
    }
}

/// An open table: its file, its block records, and where they start.
pub struct SsTable {
    file: FileObject,
    block_metas: Vec<BlockMeta>,
    block_meta_offset: usize,
}

/// The entries of the encoded block `region`.
pub open spec fn region_entries(region: Seq<u8>) -> Seq<Entry> {
    layout_entries(decoded_data(region), decoded_offsets(region))
}

/// `region` is the encoding of a sound block with sorted keys.
pub open spec fn region_ok(region: Seq<u8>) -> bool {
    encoded_sizes_ok(region) && layout_ok(decoded_data(region), decoded_offsets(region))
        && keys_sorted(region_entries(region))
}

impl SsTable {
    pub closed spec fn file_bytes(&self) -> Seq<u8> {
        self.file.bytes()
    }

    pub closed spec fn metas(&self) -> Seq<MetaView> {
        meta_views(self.block_metas@)
    }

    pub closed spec fn meta_offset(&self) -> int {
        self.block_meta_offset as int
    }

    /// Block `i` lies within the file.
    pub open spec fn block_in_file(&self, i: int) -> bool {
        self.metas()[i].0 + self.metas()[i].1 <= self.file_bytes().len()
    }

    /// The bytes of block `i`.
    pub open spec fn block_region(&self, i: int) -> Seq<u8> {
        self.file_bytes().subrange(self.metas()[i].0 as int, (self.metas()[i].0 + self.metas()[i].1) as int)
    }

    /// Block `i` can be read: it lies in the file and is a sound block.
    pub open spec fn block_readable(&self, i: int) -> bool {
        self.block_in_file(i) && region_ok(self.block_region(i))
    }

    /// The entries of block `i`.
    pub open spec fn block_entries(&self, i: int) -> Seq<Entry> {
        region_entries(self.block_region(i))
    }

    /// Each readable, non-empty block starts with the first key of its record.
    pub open spec fn first_keys_match(&self) -> bool {
        forall|i: int| 0 <= i < self.metas().len() && self.block_readable(i) && self.block_entries(i).len() > 0
            ==> #[trigger] self.block_entries(i)[0].0 == self.metas()[i].2
    }

    /// The file's footer and records as `open` reads them.
    pub open spec fn opened_from(&self, file: Seq<u8>) -> bool {
        &&& file.len() >= 4
        &&& self.meta_offset() == read_u32(file, file.len() - 4)
        &&& self.meta_offset() <= file.len() - 4
        &&& parse_metas(file.subrange(self.meta_offset(), file.len() - 4)) == Some(self.metas())
        &&& self.file_bytes() == file
    }

    pub(crate) fn from_parts(file: FileObject, block_metas: Vec<BlockMeta>, block_meta_offset: usize) -> (r: Self)
        ensures
            r.file_bytes() == file.bytes(),
            r.metas() == meta_views(block_metas@),
            r.meta_offset() == block_meta_offset,
    {
        SsTable { file, block_metas, block_meta_offset }
    }

    /// The bytes of the table's file.
    pub fn file(&self) -> (r: &FileObject)
        ensures
            r.bytes() == self.file_bytes(),
    {
        &self.file
    }

    /// Opens a table from its file: reads the footer, then the block records.
    /// The id would key a shared block cache; this table reads its blocks directly.
    pub fn open(_id: usize, file: FileObject) -> (r: Result<Self, StorageError>)
        ensures
            r matches Ok(t) ==> t.opened_from(file.bytes()),
            r is Err ==> file.bytes().len() < 4 || read_u32(file.bytes(), file.bytes().len() - 4) > file.bytes().len() - 4
                || parse_metas(file.bytes().subrange(read_u32(file.bytes(), file.bytes().len() - 4) as int, file.bytes().len() - 4)) is None,
    {
        let file_size = file.size();
        if file_size < 4 {
            return Err(StorageError::Io);
        }
        let footer = file.read(file_size - 4, 4)?;
        let block_meta_offset = get_u32_le(footer.as_slice(), 0) as u64;
        assert(read_u32(footer@, 0) == read_u32(file.bytes(), file.bytes().len() - 4));
        if block_meta_offset > file_size - 4 {
            return Err(StorageError::Corruption);
        }
        let meta_bytes = file.read(block_meta_offset, file_size - 4 - block_meta_offset)?;
        let block_metas = BlockMeta::decode_block_meta(meta_bytes.as_slice())?;
        Ok(SsTable { file, block_metas, block_meta_offset: block_meta_offset as usize })
    }

    /// Reads and decodes block `block_idx`.
    pub fn read_block(&self, block_idx: usize) -> (r: Result<Arc<Block>, StorageError>)
        requires
            block_idx < self.metas().len(),
        ensures
            r is Ok <==> self.block_readable(block_idx as int),
            r matches Ok(b) ==> b.wf() && b.entries() == self.block_entries(block_idx as int),
            !self.block_in_file(block_idx as int) ==> r == Err::<Arc<Block>, StorageError>(StorageError::Io),
    {
        let meta = &self.block_metas[block_idx];
        assert(meta@ == self.metas()[block_idx as int]);
        let buf = self.file.read(meta.offset as u64, meta.len as u64)?;
        let total = buf.len();
        if total < 2 {
            return Err(StorageError::Corruption);
        }
        let num = get_u16_le(buf.as_slice(), total - 2) as usize;
        if total - 2 < 2 * num {
            return Err(StorageError::Corruption);
        }
        let block = Block::decode(buf.as_slice());
        if !block.is_well_formed() {
            return Err(StorageError::Corruption);
        }
        Ok(Arc::new(block))
    }

    /// Reads block `block_idx`; this table keeps no cache of its own.
    pub fn read_block_cached(&self, block_idx: usize) -> (r: Result<Arc<Block>, StorageError>)
        requires
            block_idx < self.metas().len(),
        ensures
            r is Ok <==> self.block_readable(block_idx as int),
            r matches Ok(b) ==> b.wf() && b.entries() == self.block_entries(block_idx as int),
    {
        self.read_block(block_idx)
    }

    /// The block that may hold `key`: the last whose first key is at most `key`,
    /// or the first block where there is none.
    pub fn find_block_idx(&self, key: &[u8]) -> (r: usize)
        ensures
            self.metas().len() == 0 ==> r == 0,
            self.metas().len() > 0 ==> r < self.metas().len(),
            self.metas().len() > 0 && r > 0 ==> key_le(self.metas()[r as int].2, key@),
            r + 1 < self.metas().len() ==> key_lt(key@, self.metas()[r + 1].2),
    {
        let n = self.block_metas.len();
        if n == 0 {
            return 0;
        }
        let mut l: usize = 0;
        let mut r: usize = n;
        while r - l > 1
            invariant
                n == self.metas().len(),
                l < r <= n,
                l > 0 ==> key_le(self.metas()[l as int].2, key@),
                r < n ==> key_lt(key@, self.metas()[r as int].2),
            decreases r - l,
        {
            let mid = l + (r - l) / 2;
            assert(self.block_metas@[mid as int]@ == self.metas()[mid as int]);
            match compare_keys(self.block_metas[mid].first_key.as_slice(), key) {
                core::cmp::Ordering::Greater => {
                    proof {
                        crate::key::lemma_cmp_antisym(self.metas()[mid as int].2, key@);
                    }
                    r = mid;
                },
                _ => {
                    l = mid;
                },
            }
        }
        l
    }

    /// The number of blocks.
    pub fn num_of_blocks(&self) -> (r: usize)
        ensures
            r == self.metas().len(),
    {
        self.block_metas.len()
    }

    /// Where the block records start in the file.
    pub fn block_meta_offset(&self) -> (r: usize)
        ensures
            r == self.meta_offset(),
    {
        self.block_meta_offset
    }

    /// The record of block `idx`.
    pub fn block_meta(&self, idx: usize) -> (r: &BlockMeta)
        requires
            idx < self.metas().len(),
        ensures
            r@ == self.metas()[idx as int],
    {
        &self.block_metas[idx]
    }
}

} // verus!
