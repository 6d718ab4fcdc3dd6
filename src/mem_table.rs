//! The in-memory table that absorbs writes: a map from keys to values kept in
//! key order, where an empty value marks a deleted key.
use vstd::prelude::*;
use vstd::slice::slice_to_vec;
use crate::iterators::{StorageError, StorageIterator};
use crate::iterators::merge_iterator::holds_key;
use crate::key::{Entry, compare_keys, key_cmp, key_le, key_lt, keys_strictly_sorted, lemma_cmp_antisym, lemma_cmp_trans, lemma_cmp_eq};
use crate::table::SsTableBuilder;
use crate::table::builder::fill;
use crate::util::{Bound, above_lower, below_upper, is_below_upper, is_above_lower};

verus! {

pub open spec fn pair_view(e: (Vec<u8>, Vec<u8>)) -> Entry {
    (e.0@, e.1@)
}

pub open spec fn pairs_view(s: Seq<(Vec<u8>, Vec<u8>)>) -> Seq<Entry> {
    s.map_values(|e: (Vec<u8>, Vec<u8>)| pair_view(e))
}

/// What a table of entries with unique keys holds under `k`.
pub open spec fn value_of(s: Seq<Entry>, k: Seq<u8>) -> Option<Seq<u8>> {
    if holds_key(s, k) {
        Some(s[choose|q: int| 0 <= q < s.len() && (#[trigger] s[q]).0 == k].1)
    } else {
        None
    }
}

/// Entries fit a block: keys non-empty, keys and values shorter than 2^16.
pub open spec fn entries_fit(s: Seq<Entry>) -> bool {
    forall|i: int| 0 <= i < s.len() ==> 0 < (#[trigger] s[i]).0.len() < 65536 && s[i].1.len() < 65536
}

/// `k` lies within both bounds.
pub open spec fn in_range(k: Seq<u8>, lower: Bound<Vec<u8>>, upper: Bound<Vec<u8>>) -> bool {
    above_lower(k, lower) && below_upper(k, upper)
}

pub proof fn lemma_unique_value(s: Seq<Entry>, q: int)
    requires
        keys_strictly_sorted(s),
        0 <= q < s.len(),
    ensures
        value_of(s, s[q].0) == Some(s[q].1),
{
    assert(holds_key(s, s[q].0));
    let c = choose|c: int| 0 <= c < s.len() && (#[trigger] s[c]).0 == s[q].0;
    if c != q {
        crate::key::lemma_cmp_refl(s[q].0);
        if c < q {
            assert(key_lt(s[c].0, s[q].0));
        } else {
            assert(key_lt(s[q].0, s[c].0));
        }
    }
}

/// The in-memory table.
pub struct MemTable {
    entries: Vec<(Vec<u8>, Vec<u8>)>,
}

impl MemTable {
    /// The entries, in key order.
    pub closed spec fn view_entries(&self) -> Seq<Entry> {
        pairs_view(self.entries@)
    }

    pub open spec fn wf(&self) -> bool {
        keys_strictly_sorted(self.view_entries()) && entries_fit(self.view_entries())
    }

    /// An empty table.
    pub fn create() -> (r: Self)
        ensures
            r.wf(),
            r.view_entries() == Seq::<Entry>::empty(),
    {
        let r = MemTable { entries: Vec::new() };
        assert(r.view_entries() =~= Seq::<Entry>::empty());
        r
    }

    /// The number of entries.
    pub fn len(&self) -> (r: usize)
        ensures
            r == self.view_entries().len(),
    {
        self.entries.len()
    }

    /// The value stored under `key`, an empty one where the key was deleted.
    pub fn get(&self, key: &[u8]) -> (r: Option<Vec<u8>>)
        requires
            self.wf(),
        ensures
            r matches Some(v) ==> value_of(self.view_entries(), key@) == Some(v@),
            r is None ==> value_of(self.view_entries(), key@) is None,
    {
        let mut i: usize = 0;
        while i < self.entries.len()
            invariant
                i <= self.entries@.len(),
                self.wf(),
                forall|j: int| 0 <= j < i ==> (#[trigger] self.view_entries()[j]).0 != key@,
            decreases self.entries.len() - i,
        {
            assert(self.view_entries()[i as int] == pair_view(self.entries@[i as int]));
            match compare_keys(self.entries[i].0.as_slice(), key) {
                core::cmp::Ordering::Equal => {
                    proof {
                        lemma_cmp_eq(self.view_entries()[i as int].0, key@);
                        lemma_unique_value(self.view_entries(), i as int);
                    }
                    return Some(slice_to_vec(self.entries[i].1.as_slice()));
                },
                _ => {
                    proof {
                        lemma_cmp_eq(self.view_entries()[i as int].0, key@);
                    }
                },
            }
            i = i + 1;
        }
        None
    }

    /// Stores `value` under `key`, replacing what was there.
    pub fn put(&mut self, key: &[u8], value: &[u8])
        requires
            old(self).wf(),
            0 < key@.len() < 65536,
            value@.len() < 65536,
        ensures
            final(self).wf(),
            value_of(final(self).view_entries(), key@) == Some(value@),
            forall|k: Seq<u8>| k != key@ ==> value_of(final(self).view_entries(), k) == value_of(old(self).view_entries(), k),
    {
        let ghost s = self.view_entries();
        let n = self.entries.len();
        let mut i: usize = 0;
        let mut found = false;
        let mut done = false;
        while !done && i < n
            invariant
                n == self.entries@.len(),
                s == self.view_entries(),
                i <= n,
                forall|j: int| 0 <= j < i ==> key_lt(#[trigger] s[j].0, key@),
                done ==> i < n,
                done && found ==> s[i as int].0 == key@,
                done && !found ==> key_cmp(s[i as int].0, key@) > 0,
                !done ==> !found,
            decreases n - i + (if done { 0int } else { 1int }),
        {
            assert(s[i as int] == pair_view(self.entries@[i as int]));
            match compare_keys(self.entries[i].0.as_slice(), key) {
                core::cmp::Ordering::Less => {
                    i = i + 1;
                },
                core::cmp::Ordering::Equal => {
                    proof {
                        lemma_cmp_eq(s[i as int].0, key@);
                    }
                    found = true;
                    done = true;
                },
                core::cmp::Ordering::Greater => {
                    done = true;
                },
            }
        }
        let ghost gt = i < n && !found;
        proof {
            if gt {
                lemma_cmp_antisym(s[i as int].0, key@);
            }
        }
        // Here every key before `i` is below `key`, and the key at `i`, if any, is `key` or above it.
        assert(i < n && !found ==> key_lt(key@, s[i as int].0));
        if found {
            self.entries.remove(i);
        }
        self.entries.insert(i, (slice_to_vec(key), slice_to_vec(value)));
        proof {
            let t = self.view_entries();
            let e = (key@, value@);
            let tail = if found { s.subrange(i + 1, s.len() as int) } else { s.subrange(i as int, s.len() as int) };
            assert(t =~= s.subrange(0, i as int) + seq![e] + tail);
            assert forall|j: int| 0 <= j < tail.len() implies key_lt(key@, (#[trigger] tail[j]).0) by {
                if found {
                    assert(tail[j] == s[i + 1 + j]);
                    assert(key_lt(s[i as int].0, s[i + 1 + j].0));
                } else {
                    assert(tail[j] == s[i + j]);
                    if j > 0 {
                        lemma_cmp_trans(key@, s[i as int].0, s[i + j].0);
                    }
                }
            }
            assert forall|a: int, b: int| 0 <= a < b < t.len() implies key_lt(#[trigger] t[a].0, #[trigger] t[b].0) by {
                if b < i {
                } else if a < i && b == i {
                } else if a < i {
                    assert(t[b] == tail[b - i - 1]);
                    lemma_cmp_trans(t[a].0, key@, t[b].0);
                } else if a == i {
                    assert(t[b] == tail[b - i - 1]);
                } else {
                    assert(t[a] == tail[a - i - 1]);
                    assert(t[b] == tail[b - i - 1]);
                    if found {
                        assert(t[a] == s[a]);
                        assert(t[b] == s[b]);
                    } else {
                        assert(t[a] == s[a - 1]);
                        assert(t[b] == s[b - 1]);
                    }
                }
            }
            assert(t[i as int] == e);
            lemma_unique_value(t, i as int);
            assert forall|k: Seq<u8>| k != key@ implies value_of(t, k) == value_of(s, k) by {
                if holds_key(s, k) {
                    let q = choose|q: int| 0 <= q < s.len() && (#[trigger] s[q]).0 == k;
                    lemma_unique_value(s, q);
                    let q2 = if q < i { q } else if found { q } else { q + 1 };
                    if found && q == i {
                        assert(false);
                    }
                    assert(t[q2] == s[q]);
                    lemma_unique_value(t, q2);
                } else if holds_key(t, k) {
                    let q = choose|q: int| 0 <= q < t.len() && (#[trigger] t[q]).0 == k;
                    if q < i {
                        assert(s[q] == t[q]);
                    } else if q > i {
                        if found {
                            assert(s[q] == t[q]);
                        } else {
                            assert(s[q - 1] == t[q]);
                        }
                    }
                }
            }
        }
    }

    /// A cursor over the entries whose keys lie within the bounds.
    pub fn scan(&self, lo: &Bound<Vec<u8>>, hi: &Bound<Vec<u8>>) -> (r: MemTableIterator)
        requires
            self.wf(),
        ensures
            r.inv(),
            r.entries() == in_bounds(self.view_entries(), *lo, *hi),
    {
        let ghost pred = |e: Entry| in_range(e.0, *lo, *hi);
        let ghost s = self.view_entries();
        let mut out: Vec<(Vec<u8>, Vec<u8>)> = Vec::new();
        let mut i: usize = 0;
        proof {
            reveal(Seq::filter);
        }
        assert(pairs_view(out@) =~= s.take(0).filter(pred));
        while i < self.entries.len()
            invariant
                i <= self.entries@.len(),
                s == self.view_entries(),
                self.wf(),
                pairs_view(out@) == s.take(i as int).filter(pred),
                forall|e: Entry| #[trigger] pred(e) == in_range(e.0, *lo, *hi),
            decreases self.entries.len() - i,
        {
            assert(s[i as int] == pair_view(self.entries@[i as int]));
            assert(s.take(i + 1).drop_last() =~= s.take(i as int));
            let k = self.entries[i].0.as_slice();
            assert(k@ == s[i as int].0);
            assert(pred(s[i as int]) == in_range(s[i as int].0, *lo, *hi));
            assert(s.take(i + 1).last() == s[i as int]);
            proof {
                reveal(Seq::filter);
            }
            assert(s.take(i + 1).filter(pred) == if pred(s[i as int]) {
                s.take(i as int).filter(pred).push(s[i as int])
            } else {
                s.take(i as int).filter(pred)
            });
            if is_above_lower(k, lo) && is_below_upper(k, hi) {
                let v = self.entries[i].1.as_slice();
                out.push((slice_to_vec(k), slice_to_vec(v)));
                assert(pairs_view(out@) =~= s.take(i as int).filter(pred).push(s[i as int]));
            } else {
                assert(!pred(s[i as int]));
            }
            i = i + 1;
        }
        assert(s.take(i as int) =~= s);
        proof {
            let f = s.filter(pred);
            assert forall|a: int, b: int| 0 <= a < b < f.len() implies key_lt(#[trigger] f[a].0, #[trigger] f[b].0) by {
                lemma_filter_keeps_order(s, pred, a, b);
            }
            assert forall|a: int| 0 <= a < f.len() implies 0 < (#[trigger] f[a]).0.len() < 65536 && f[a].1.len() < 65536 by {
                lemma_filter_member(s, pred, a);
            }
            assert(pred == (|e: Entry| in_range(e.0, *lo, *hi)));
        }
        MemTableIterator { entries: out, idx: 0 }
    }

    /// Adds every entry, in key order, to `builder`.
    pub fn flush(&self, builder: &mut SsTableBuilder)
        requires
            self.wf(),
            old(builder).wf(),
            old(builder).added().len() > 0 && self.view_entries().len() > 0 ==> key_le(old(builder).added().last().0, self.view_entries()[0].0),
            old(builder).data_len() + 210000 * (self.view_entries().len() + 3) < usize::MAX,
        ensures
            final(builder).wf(),
            final(builder).added() == old(builder).added() + self.view_entries(),
            final(builder).data_len() <= old(builder).data_len() + 210000 * self.view_entries().len(),
            final(builder).budget() == old(builder).budget(),
            old(builder).state() == (0int, 2int, 0int) ==> final(builder).state() == fill(self.view_entries(), old(builder).budget()),
    {
        let ghost s = self.view_entries();
        let ghost d0 = builder.data_len();
        let mut i: usize = 0;
        assert(old(builder).added() + s.take(0) =~= old(builder).added());
        assert(s.take(0) =~= Seq::<Entry>::empty());
        while i < self.entries.len()
            invariant
                i <= self.entries@.len(),
                s == self.view_entries(),
                self.wf(),
                builder.wf(),
                builder.added() == old(builder).added() + s.take(i as int),
                builder.data_len() <= d0 + 210000 * i,
                d0 + 210000 * (s.len() + 3) < usize::MAX,
                d0 == old(builder).data_len(),
                builder.budget() == old(builder).budget(),
                old(builder).state() == (0int, 2int, 0int) ==> builder.state() == fill(s.take(i as int), builder.budget()),
                old(builder).added().len() > 0 && s.len() > 0 ==> key_le(old(builder).added().last().0, s[0].0),
            decreases self.entries.len() - i,
        {
            assert(s[i as int] == pair_view(self.entries@[i as int]));
            proof {
                if builder.added().len() > 0 {
                    if i > 0 {
                        assert(builder.added().last() == s[i - 1]);
                        crate::key::lemma_cmp_antisym(s[i - 1].0, s[i as int].0);
                    } else {
                        assert(builder.added().last() == old(builder).added().last());
                    }
                }
                assert(builder.data_len() + 500000 < usize::MAX) by (nonlinear_arith)
                    requires
                        builder.data_len() <= d0 + 210000 * i,
                        d0 + 210000 * (s.len() + 3) < usize::MAX,
                        i < s.len(),
                ;
            }
            builder.add(self.entries[i].0.as_slice(), self.entries[i].1.as_slice());
            assert(s.take(i + 1) =~= s.take(i as int).push(s[i as int]));
            assert(s.take(i + 1).drop_last() =~= s.take(i as int));
            assert(old(builder).added() + s.take(i + 1) =~= (old(builder).added() + s.take(i as int)).push(s[i as int]));
            i = i + 1;
        }
        assert(s.take(i as int) =~= s);
    }
}

/// The entries of `s` whose keys lie within the bounds.
pub open spec fn in_bounds(s: Seq<Entry>, lo: Bound<Vec<u8>>, hi: Bound<Vec<u8>>) -> Seq<Entry> {
    s.filter(|e: Entry| in_range(e.0, lo, hi))
}

/// `owned` is `borrowed` with its key copied.
pub open spec fn bound_copies(borrowed: Bound<&[u8]>, owned: Bound<Vec<u8>>) -> bool {
    match (borrowed, owned) {
        (Bound::Included(x), Bound::Included(y)) => x@ == y@,
        (Bound::Excluded(x), Bound::Excluded(y)) => x@ == y@,
        (Bound::Unbounded, Bound::Unbounded) => true,
        _ => false,
    }
}

pub proof fn lemma_filter_member(s: Seq<Entry>, pred: spec_fn(Entry) -> bool, a: int)
    requires
        0 <= a < s.filter(pred).len(),
    ensures
        exists|q: int| 0 <= q < s.len() && #[trigger] s[q] == s.filter(pred)[a],
    decreases s.len(),
{
    reveal(Seq::filter);
    if s.len() == 0 {
        assert(s.filter(pred) == s);
    }
    let sub = s.drop_last().filter(pred);
    assert(s.filter(pred) == if pred(s.last()) { sub.push(s.last()) } else { sub });
    if a < sub.len() {
        lemma_filter_member(s.drop_last(), pred, a);
        let q = choose|q: int| 0 <= q < s.drop_last().len() && #[trigger] s.drop_last()[q] == sub[a];
        assert(s[q] == s.filter(pred)[a]);
    } else {
        assert(s[s.len() - 1] == s.filter(pred)[a]);
    }
}

pub proof fn lemma_filter_keeps_order(s: Seq<Entry>, pred: spec_fn(Entry) -> bool, a: int, b: int)
    requires
        keys_strictly_sorted(s),
        0 <= a < b < s.filter(pred).len(),
    ensures
        key_lt(s.filter(pred)[a].0, s.filter(pred)[b].0),
    decreases s.len(),
{
    reveal(Seq::filter);
    if s.len() == 0 {
        assert(s.filter(pred) == s);
    }
    let sub = s.drop_last().filter(pred);
    assert(s.filter(pred) == if pred(s.last()) { sub.push(s.last()) } else { sub });
    assert(keys_strictly_sorted(s.drop_last())) by {
        assert forall|x: int, y: int| 0 <= x < y < s.drop_last().len() implies key_lt(#[trigger] s.drop_last()[x].0, #[trigger] s.drop_last()[y].0) by {
            assert(s.drop_last()[x] == s[x]);
            assert(s.drop_last()[y] == s[y]);
        }
    }
    if b < sub.len() {
        lemma_filter_keeps_order(s.drop_last(), pred, a, b);
    } else {
        lemma_filter_member(s.drop_last(), pred, a);
        let q = choose|q: int| 0 <= q < s.drop_last().len() && #[trigger] s.drop_last()[q] == sub[a];
        assert(s[q] == s.filter(pred)[a]);
        assert(s.filter(pred)[b] == s[s.len() - 1]);
    }
}

/// A cursor over a copy of entries taken from a memory table.
pub struct MemTableIterator {
    entries: Vec<(Vec<u8>, Vec<u8>)>,
    idx: usize,
}

impl StorageIterator for MemTableIterator {
    open spec fn entries(&self) -> Seq<Entry> {
        self.items().subrange(self.index(), self.items().len() as int)
    }

    open spec fn fused(&self) -> bool {
        true
    }

    open spec fn cannot_fail(&self) -> bool {
        true
    }

    open spec fn inv(&self) -> bool {
        0 <= self.index() <= self.items().len() && keys_strictly_sorted(self.items()) && entries_fit(self.items())
    }

    fn value(&self) -> (r: &[u8]) {
        assert(self.items()[self.idx as int] == pair_view(self.entries@[self.idx as int]));
        self.entries[self.idx].1.as_slice()
    }

    fn key(&self) -> (r: &[u8]) {
        assert(self.items()[self.idx as int] == pair_view(self.entries@[self.idx as int]));
        self.entries[self.idx].0.as_slice()
    }

    fn is_valid(&self) -> (r: bool) {
        self.idx < self.entries.len()
    }

    fn next(&mut self) -> (r: Result<(), StorageError>) {
        if self.idx < self.entries.len() {
            self.idx = self.idx + 1;
        }
        Ok(())
    }
}

impl MemTableIterator {
    /// All the entries the cursor was made with.
    pub closed spec fn items(&self) -> Seq<Entry> {
        pairs_view(self.entries@)
    }

    /// How many of them are behind the cursor.
    pub closed spec fn index(&self) -> int {
        self.idx as int
    }
}

} // verus!
