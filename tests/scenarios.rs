use std::cmp::Ordering;
use std::sync::Arc;

use mini_lsm::key::compare_keys;

use mini_lsm::block::{Block, BlockBuilder, BlockIterator};
use mini_lsm::iterators::merge_iterator::MergeIterator;
use mini_lsm::iterators::two_merge_iterator::TwoMergeIterator;
use mini_lsm::iterators::{StorageError, StorageIterator};
use mini_lsm::lsm_iterator::{FusedIterator, LsmIterator};
use mini_lsm::lsm_storage::{build_table, LsmStorageInner};
use mini_lsm::mem_table::{MemTable, MemTableIterator};
use mini_lsm::table::{BlockMeta, FileObject, SsTable, SsTableBuilder, SsTableIterator};
use mini_lsm::util::{map_bound, Bound};

fn collect<I: StorageIterator>(iter: &mut I) -> Vec<(Vec<u8>, Vec<u8>)> {
    let mut out = Vec::new();
    while iter.is_valid() {
        out.push((iter.key().to_vec(), iter.value().to_vec()));
        iter.next().unwrap();
    }
    out
}

fn pairs(items: &[(&str, &str)]) -> Vec<(Vec<u8>, Vec<u8>)> {
    items
        .iter()
        .map(|(k, v)| (k.as_bytes().to_vec(), v.as_bytes().to_vec()))
        .collect()
}

fn mem_iter(items: &[(&str, &str)]) -> MemTableIterator {
    let mut m = MemTable::create();
    for (k, v) in items {
        m.put(k.as_bytes(), v.as_bytes());
    }
    m.scan(&Bound::Unbounded, &Bound::Unbounded)
}

fn table_of(items: &[(&str, &str)], block_size: usize) -> SsTable {
    let mut b = SsTableBuilder::new(block_size);
    for (k, v) in items {
        b.add(k.as_bytes(), v.as_bytes());
    }
    b.build(0)
}

#[test]
fn block_round_trip() {
    let mut b = BlockBuilder::new(1024);
    assert!(b.add(b"a", b"1"));
    assert!(b.add(b"ab", b"22"));
    assert!(b.add(b"abc", b"333"));
    let block = b.build();
    let encoded = block.encode();
    let decoded = Block::decode(&encoded);
    assert!(decoded.is_well_formed());
    let mut it = BlockIterator::create_and_seek_to_first(Arc::new(decoded));
    let expected = [("a", "1"), ("ab", "22"), ("abc", "333")];
    for (k, v) in expected {
        assert!(it.is_valid());
        assert_eq!(it.key(), k.as_bytes());
        assert_eq!(it.value(), v.as_bytes());
        it.next();
    }
    assert!(!it.is_valid());
    it.next();
    assert!(!it.is_valid());
}

#[test]
fn block_encoding_layout() {
    let mut b = BlockBuilder::new(1024);
    assert!(b.add(b"k", b"vv"));
    assert_eq!(b.estimated_size(), 2 + 2 + 1 + 2 + 2 + 2);
    let block = b.build();
    let encoded = block.encode();
    assert_eq!(encoded, vec![1, 0, b'k', 2, 0, b'v', b'v', 0, 0, 1, 0]);
    let (k, v) = block.get_entry(0);
    assert_eq!(k, b"k");
    assert_eq!(v, b"vv");
}

#[test]
fn block_builder_refuses_when_full_but_takes_first() {
    let mut b = BlockBuilder::new(10);
    assert!(b.is_empty());
    assert!(b.add(b"key", b"a long value that overflows"));
    assert!(!b.is_empty());
    assert!(!b.add(b"key2", b"x"));
    let block = b.build();
    assert_eq!(block.len(), 1);
}

#[test]
fn block_seek_to_key() {
    let mut b = BlockBuilder::new(4096);
    for k in ["b", "d", "f"] {
        assert!(b.add(k.as_bytes(), b"v"));
    }
    let block = Arc::new(b.build());
    let it = BlockIterator::create_and_seek_to_key(block.clone(), b"c");
    assert_eq!(it.key(), b"d");
    let it = BlockIterator::create_and_seek_to_key(block.clone(), b"d");
    assert_eq!(it.key(), b"d");
    let it = BlockIterator::create_and_seek_to_key(block.clone(), b"a");
    assert_eq!(it.key(), b"b");
    let it = BlockIterator::create_and_seek_to_key(block, b"g");
    assert!(!it.is_valid());
}

#[test]
fn malformed_block_detected() {
    let bad = Block::decode(&[5, 0, 1, 2, 0, 0, 1, 0]);
    assert!(!bad.is_well_formed());
    let mut b = BlockBuilder::new(100);
    assert!(b.add(b"b", b"1"));
    assert!(b.add(b"b", b"2"));
    assert!(b.build().is_well_formed());
}

#[test]
fn sst_binary_search() {
    let keys: Vec<String> = (0..100).map(|i| format!("k{:02}", i)).collect();
    let items: Vec<(&str, &str)> = keys.iter().map(|k| (k.as_str(), "v")).collect();
    let table = Arc::new(table_of(&items, 40));
    assert!(table.num_of_blocks() > 1);
    let idx = table.find_block_idx(b"k55");
    assert_eq!(idx, 18);
    assert_eq!(table.block_meta(idx).first_key, b"k54".to_vec());
    for i in 0..table.num_of_blocks() {
        assert_eq!(table.block_meta(i).offset, 4096 * i);
    }
    assert!(table.block_meta(idx).first_key.as_slice() <= b"k55".as_slice());
    if idx + 1 < table.num_of_blocks() {
        assert!(table.block_meta(idx + 1).first_key.as_slice() > b"k55".as_slice());
    }
    let mut it = SsTableIterator::create_and_seek_to_key(table, b"k55").unwrap();
    let got = collect(&mut it);
    let want: Vec<(Vec<u8>, Vec<u8>)> = (55..100)
        .map(|i| (format!("k{:02}", i).into_bytes(), b"v".to_vec()))
        .collect();
    assert_eq!(got, want);
}

#[test]
fn sst_full_scan_round_trip() {
    let keys: Vec<String> = (0..300).map(|i| format!("key{:04}", i)).collect();
    let values: Vec<String> = (0..300).map(|i| format!("value{}", i * 7)).collect();
    let items: Vec<(&str, &str)> = keys.iter().zip(values.iter()).map(|(k, v)| (k.as_str(), v.as_str())).collect();
    let built = table_of(&items, 128);
    let file = FileObject::create(built.file().contents().to_vec());
    let table = Arc::new(SsTable::open(0, file).unwrap());
    assert_eq!(table.num_of_blocks(), built.num_of_blocks());
    assert_eq!(table.block_meta_offset(), built.block_meta_offset());
    assert_eq!(table.block_meta_offset() % 4096, 0);
    let mut it = SsTableIterator::create_and_seek_to_first(table).unwrap();
    assert_eq!(collect(&mut it), pairs(&items));
}

#[test]
fn sst_seek_past_last_key_is_invalid() {
    let table = Arc::new(table_of(&[("a", "1"), ("b", "2")], 4096));
    let mut it = SsTableIterator::create_and_seek_to_key(table.clone(), b"c").unwrap();
    assert!(!it.is_valid());
    it.seek_to_first().unwrap();
    assert_eq!(it.key(), b"a");
    it.seek_to_key(b"b").unwrap();
    assert_eq!(it.key(), b"b");
    assert_eq!(table.find_block_idx(b"zzz"), table.num_of_blocks() - 1);
    assert_eq!(table.find_block_idx(b"0"), 0);
}

#[test]
fn block_meta_round_trip() {
    let metas = vec![
        BlockMeta { offset: 0, len: 70, first_key: b"apple".to_vec() },
        BlockMeta { offset: 4096, len: 1000, first_key: b"m".to_vec() },
    ];
    let mut buf = vec![9u8];
    BlockMeta::encode_block_meta(&metas, &mut buf);
    assert_eq!(buf.len(), 1 + 10 + 5 + 10 + 1);
    assert_eq!(&buf[1..11], &[0, 0, 0, 0, 70, 0, 0, 0, 5, 0]);
    let back = BlockMeta::decode_block_meta(&buf[1..]).unwrap();
    assert_eq!(back.len(), 2);
    assert_eq!(back[1].offset, 4096);
    assert_eq!(back[1].len, 1000);
    assert_eq!(back[0].first_key, b"apple".to_vec());
}

#[test]
fn truncated_block_meta_is_corruption() {
    assert_eq!(BlockMeta::decode_block_meta(&[0, 0, 0, 0, 1]).unwrap_err(), StorageError::Corruption);
    assert_eq!(
        BlockMeta::decode_block_meta(&[0, 0, 0, 0, 0, 0, 0, 0, 4, 0, b'a']).unwrap_err(),
        StorageError::Corruption
    );
}

#[test]
fn open_rejects_bad_files() {
    assert_eq!(SsTable::open(1, FileObject::create(vec![1, 2])).err(), Some(StorageError::Io));
    assert_eq!(SsTable::open(1, FileObject::create(vec![0, 0, 0, 9])).err(), Some(StorageError::Corruption));
}

#[test]
fn file_read_past_end_is_io_error() {
    let f = FileObject::create(vec![1, 2, 3]);
    assert_eq!(f.size(), 3);
    assert_eq!(f.read(1, 2).unwrap(), vec![2, 3]);
    assert_eq!(f.read(2, 2).unwrap_err(), StorageError::Io);
}

#[test]
fn corrupt_block_read_is_corruption() {
    let built = table_of(&[("a", "1")], 4096);
    let mut bad = built.file().contents().to_vec();
    bad[0] = 0;
    bad[1] = 0;
    let table = SsTable::open(0, FileObject::create(bad)).unwrap();
    assert_eq!(table.read_block(0).err(), Some(StorageError::Corruption));
    let good = SsTable::open(0, FileObject::create(built.file().contents().to_vec())).unwrap();
    assert!(good.read_block_cached(0).is_ok());
}

#[test]
fn merge_priority() {
    let a = mem_iter(&[("a", "A0"), ("c", "C0")]);
    let b = mem_iter(&[("a", "A1"), ("b", "B1"), ("c", "C1")]);
    let mut m = MergeIterator::create(vec![Box::new(a), Box::new(b)]);
    assert_eq!(collect(&mut m), pairs(&[("a", "A0"), ("b", "B1"), ("c", "C0")]));
    assert!(m.next().is_ok());
    assert!(!m.is_valid());
}

#[test]
fn merge_of_nothing_is_invalid() {
    let m: MergeIterator<MemTableIterator> = MergeIterator::create(Vec::new());
    assert!(!m.is_valid());
}

#[test]
fn two_merge_prefers_a() {
    let a = mem_iter(&[("b", "A"), ("d", "A")]);
    let b = mem_iter(&[("a", "B"), ("b", "B"), ("e", "B")]);
    let mut t = TwoMergeIterator::create(a, b).unwrap();
    assert_eq!(collect(&mut t), pairs(&[("a", "B"), ("b", "A"), ("d", "A"), ("e", "B")]));
}

#[test]
fn lsm_iterator_hides_tombstones_and_stops_at_bound() {
    let inner = mem_iter(&[("a", ""), ("b", "1"), ("c", ""), ("d", "2"), ("e", "3")]);
    let mut it = LsmIterator::new_with_upper_bound(inner, map_bound(Bound::Included(b"d".as_slice()))).unwrap();
    assert_eq!(collect(&mut it), pairs(&[("b", "1"), ("d", "2")]));
}

#[test]
fn fused_iterator_stays_invalid() {
    let inner = mem_iter(&[("a", "1")]);
    let mut it = FusedIterator::new(inner);
    assert!(it.is_valid());
    it.next().unwrap();
    assert!(!it.is_valid());
    for _ in 0..3 {
        assert!(it.next().is_ok());
        assert!(!it.is_valid());
    }
}

#[test]
fn tombstone_masking() {
    let mut s = LsmStorageInner::create();
    s.put(b"b", b"OLD");
    s.put(b"c", b"3");
    let (id, _table) = s.sync().unwrap();
    assert_eq!(id, 1);
    s.put(b"a", b"1");
    s.delete(b"b");
    let mut it = s.scan(Bound::Unbounded, Bound::Unbounded).unwrap();
    assert_eq!(collect(&mut it), pairs(&[("a", "1"), ("c", "3")]));
    assert_eq!(s.get(b"b").unwrap(), None);
    assert_eq!(s.get(b"c").unwrap(), Some(b"3".to_vec()));
}

#[test]
fn exclusive_lower_bound() {
    let mut s = LsmStorageInner::create();
    for k in ["x", "y", "z"] {
        s.put(k.as_bytes(), b"v");
    }
    s.sync().unwrap();
    let mut it = s.scan(Bound::Excluded(b"x".as_slice()), Bound::Unbounded).unwrap();
    assert_eq!(collect(&mut it), pairs(&[("y", "v"), ("z", "v")]));
}

#[test]
fn upper_bound_inclusive_vs_exclusive() {
    let mut s = LsmStorageInner::create();
    s.put(b"m", b"1");
    s.put(b"n", b"2");
    s.put(b"o", b"3");
    let mut it = s.scan(Bound::Unbounded, Bound::Excluded(b"o".as_slice())).unwrap();
    assert_eq!(collect(&mut it), pairs(&[("m", "1"), ("n", "2")]));
    let mut it = s.scan(Bound::Unbounded, Bound::Included(b"o".as_slice())).unwrap();
    assert_eq!(collect(&mut it), pairs(&[("m", "1"), ("n", "2"), ("o", "3")]));
}

#[test]
fn puts_then_full_scan_give_latest_per_key() {
    let mut s = LsmStorageInner::create();
    let mut model = std::collections::BTreeMap::new();
    let mut x: u32 = 12345;
    for round in 0..400u32 {
        x = x.wrapping_mul(1103515245).wrapping_add(12345);
        let key = format!("k{}", (x >> 8) % 97);
        let value = format!("v{}", round);
        s.put(key.as_bytes(), value.as_bytes());
        model.insert(key.into_bytes(), value.into_bytes());
        if round == 150 || round == 300 {
            s.sync().unwrap();
        }
    }
    let mut it = s.scan(Bound::Unbounded, Bound::Unbounded).unwrap();
    let want: Vec<(Vec<u8>, Vec<u8>)> = model.into_iter().collect();
    assert_eq!(collect(&mut it), want);
}

#[test]
fn delete_hides_key_until_overwritten() {
    let mut s = LsmStorageInner::create();
    s.put(b"k", b"v1");
    s.put(b"j", b"w");
    s.sync().unwrap();
    s.delete(b"k");
    assert_eq!(s.get(b"k").unwrap(), None);
    let mut it = s.scan(Bound::Unbounded, Bound::Unbounded).unwrap();
    assert_eq!(collect(&mut it), pairs(&[("j", "w")]));
    s.sync().unwrap();
    assert_eq!(s.get(b"k").unwrap(), None);
    let mut it = s.scan(Bound::Included(b"k".as_slice()), Bound::Unbounded).unwrap();
    assert!(!it.is_valid());
    assert!(it.next().is_ok());
    s.put(b"k", b"v2");
    assert_eq!(s.get(b"k").unwrap(), Some(b"v2".to_vec()));
}

#[test]
fn memtable_get_and_overwrite() {
    let mut m = MemTable::create();
    assert_eq!(m.get(b"a"), None);
    m.put(b"b", b"1");
    m.put(b"a", b"2");
    m.put(b"b", b"3");
    assert_eq!(m.len(), 2);
    assert_eq!(m.get(b"b"), Some(b"3".to_vec()));
    let mut it = m.scan(&Bound::Excluded(b"a".to_vec()), &Bound::Unbounded);
    assert_eq!(collect(&mut it), pairs(&[("b", "3")]));
}

#[test]
fn sst_builder_sizes() {
    let mut b = SsTableBuilder::new(4096);
    assert_eq!(b.estimated_size(), 0);
    b.add(b"a", b"1");
    assert_eq!(b.estimated_size(), 2 + (2 + 1 + 2 + 1 + 2));
    assert_eq!(b.finished_size(), 4096);
}

#[test]
fn compare_keys_orders_lexicographically() {
    assert_eq!(compare_keys(b"ab", b"abc"), Ordering::Less);
    assert_eq!(compare_keys(b"b", b"abc"), Ordering::Greater);
    assert_eq!(compare_keys(b"", b""), Ordering::Equal);
}

#[test]
fn frozen_memtable_stays_readable_until_installed() {
    let mut s = LsmStorageInner::create();
    s.put(b"a", b"1");
    s.put(b"b", b"2");
    let (id, frozen) = s.freeze_memtable().unwrap();
    assert_eq!(id, 1);
    assert!(s.frozen_memtable().is_some());
    s.put(b"b", b"3");
    assert_eq!(s.get(b"a").unwrap(), Some(b"1".to_vec()));
    assert_eq!(s.get(b"b").unwrap(), Some(b"3".to_vec()));
    let mut it = s.scan(Bound::Unbounded, Bound::Unbounded).unwrap();
    assert_eq!(collect(&mut it), pairs(&[("a", "1"), ("b", "3")]));
    let table = build_table(&frozen, id).unwrap();
    s.install_flushed(Arc::new(table));
    assert!(s.frozen_memtable().is_none());
    assert_eq!(s.get(b"a").unwrap(), Some(b"1".to_vec()));
    let mut it = s.scan(Bound::Unbounded, Bound::Unbounded).unwrap();
    assert_eq!(collect(&mut it), pairs(&[("a", "1"), ("b", "3")]));
    let (id2, _) = s.sync().unwrap();
    assert_eq!(id2, 2);
}

#[test]
fn sync_leaves_scans_and_point_reads_unchanged() {
    let mut s = LsmStorageInner::create();
    s.put(b"a", b"1");
    s.put(b"b", b"2");
    s.delete(b"c");
    s.put(b"d", b"4");
    let mut before = s.scan(Bound::Included(b"b".as_slice()), Bound::Unbounded).unwrap();
    let before = collect(&mut before);
    s.sync().unwrap();
    let mut after = s.scan(Bound::Included(b"b".as_slice()), Bound::Unbounded).unwrap();
    assert_eq!(collect(&mut after), before);
    assert_eq!(before, pairs(&[("b", "2"), ("d", "4")]));
    for k in ["a", "b", "c", "d", "e"] {
        let key = k.as_bytes();
        let mut point = s.scan(Bound::Included(key), Bound::Included(key)).unwrap();
        let got = collect(&mut point);
        match s.get(key).unwrap() {
            Some(v) => assert_eq!(got, vec![(key.to_vec(), v)]),
            None => assert!(got.is_empty()),
        }
    }
}

#[test]
fn block_seek_functions_agree_on_repeated_keys() {
    let mut b = BlockBuilder::new(4096);
    for (k, v) in [("a", "1"), ("b", "2"), ("b", "3"), ("b", "4"), ("c", "5")] {
        assert!(b.add(k.as_bytes(), v.as_bytes()));
    }
    let block = Arc::new(b.build());
    let created = BlockIterator::create_and_seek_to_key(block.clone(), b"b");
    let mut moved = BlockIterator::create_and_seek_to_first(block);
    moved.seek_to_key(b"b");
    assert_eq!(created.key(), moved.key());
    assert_eq!(created.value(), moved.value());
    assert_eq!(created.value(), b"3");
}
