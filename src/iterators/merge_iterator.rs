use vstd::prelude::*;
use vstd::slice::slice_to_vec;
use crate::iterators::{StorageError, StorageIterator};
use crate::key::{Entry, compare_keys, keys_equal, key_le, key_lt, keys_strictly_sorted, lemma_cmp_antisym, lemma_cmp_trans, lemma_cmp_eq};

verus! {

/// The sum of the lengths of the streams.
pub open spec fn total(ss: Seq<Seq<Entry>>) -> nat
    decreases ss.len(),
{
    if ss.len() == 0 {
        0
    } else {
        total(ss.drop_last()) + ss.last().len()
    }
}

/// Among the first `n` streams, the one whose head comes first: smallest key,
/// then smallest index. `None` when all of them are empty.
pub open spec fn min_source(ss: Seq<Seq<Entry>>, n: int) -> Option<int>
    decreases n,
{
    if n <= 0 {
        None
    } else {
        let prev = min_source(ss, n - 1);
        if ss[n - 1].len() == 0 {
            prev
        } else {
            match prev {
                None => Some(n - 1),
                Some(p) => if key_lt(ss[n - 1][0].0, ss[p][0].0) {
                    Some(n - 1)
                } else {
                    Some(p)
                },
            }
        }
    }
}

/// Every stream whose head has key `k` moves past its head.
pub open spec fn step(ss: Seq<Seq<Entry>>, k: Seq<u8>) -> Seq<Seq<Entry>> {
    Seq::new(ss.len(), |i: int| if ss[i].len() > 0 && ss[i][0].0 == k { ss[i].drop_first() } else { ss[i] })
}

/// The merge of sorted streams: each key once, with the entry of the
/// lowest-indexed stream that holds it.
pub open spec fn merge_all(ss: Seq<Seq<Entry>>) -> Seq<Entry>
    decreases total(ss),
    via merge_all_decreases
{
    match min_source(ss, ss.len() as int) {
        None => Seq::empty(),
        Some(p) => seq![ss[p][0]] + merge_all(step(ss, ss[p][0].0)),
    }
}

#[via_fn]
proof fn merge_all_decreases(ss: Seq<Seq<Entry>>) {
    match min_source(ss, ss.len() as int) {
        None => {},
        Some(p) => {
            lemma_min_source(ss, ss.len() as int);
            lemma_step_total(ss, ss[p][0].0, p);
        },
    }
}

/// The head that `min_source` picks is there and comes first.
pub proof fn lemma_min_source(ss: Seq<Seq<Entry>>, n: int)
    requires
        0 <= n <= ss.len(),
    ensures
        min_source(ss, n) matches Some(p) ==> 0 <= p < n && ss[p].len() > 0
            && (forall|j: int| 0 <= j < n && ss[j].len() > 0 ==> key_le(ss[p][0].0, #[trigger] ss[j][0].0))
            && (forall|j: int| 0 <= j < p && ss[j].len() > 0 ==> key_lt(ss[p][0].0, #[trigger] ss[j][0].0)),
        min_source(ss, n) is None ==> forall|j: int| 0 <= j < n ==> #[trigger] ss[j].len() == 0,
    decreases n,
{
    if n > 0 {
        lemma_min_source(ss, n - 1);
        if ss[n - 1].len() > 0 {
            match min_source(ss, n - 1) {
                None => {
                    crate::key::lemma_cmp_refl(ss[n - 1][0].0);
                },
                Some(p) => {
                    lemma_cmp_antisym(ss[n - 1][0].0, ss[p][0].0);
                    if key_lt(ss[n - 1][0].0, ss[p][0].0) {
                        assert forall|j: int| 0 <= j < n && ss[j].len() > 0 implies key_le(ss[n - 1][0].0, #[trigger] ss[j][0].0) by {
                            if j < n - 1 {
                                crate::key::lemma_cmp_trans(ss[n - 1][0].0, ss[p][0].0, ss[j][0].0);
                            } else {
                                crate::key::lemma_cmp_refl(ss[j][0].0);
                            }
                        }
                        assert forall|j: int| 0 <= j < n - 1 && ss[j].len() > 0 implies key_lt(ss[n - 1][0].0, #[trigger] ss[j][0].0) by {
                            crate::key::lemma_cmp_trans(ss[n - 1][0].0, ss[p][0].0, ss[j][0].0);
                        }
                    }
                },
            }
        }
    }
}

/// Stepping never lengthens the streams, and shortens them where a head has the key.
pub proof fn lemma_step_total(ss: Seq<Seq<Entry>>, k: Seq<u8>, p: int)
    ensures
        total(step(ss, k)) <= total(ss),
        0 <= p < ss.len() && ss[p].len() > 0 && ss[p][0].0 == k ==> total(step(ss, k)) < total(ss),
    decreases ss.len(),
{
    if ss.len() > 0 {
        lemma_step_total(ss.drop_last(), k, p);
        assert(step(ss, k).drop_last() =~= step(ss.drop_last(), k));
    }
}

/// `s` holds an entry with key `k`.
pub open spec fn holds_key(s: Seq<Entry>, k: Seq<u8>) -> bool {
    exists|q: int| 0 <= q < s.len() && (#[trigger] s[q]).0 == k
}

/// `e` is an entry of stream `i`, and no stream before `i` holds its key.
pub open spec fn from_first_holder(ss: Seq<Seq<Entry>>, e: Entry, i: int) -> bool {
    &&& 0 <= i < ss.len()
    &&& exists|q: int| 0 <= q < ss[i].len() && #[trigger] ss[i][q] == e
    &&& forall|j: int| 0 <= j < i ==> !holds_key(#[trigger] ss[j], e.0)
}

/// Some stream holds `e`, and none before it holds its key.
pub open spec fn has_first_holder(ss: Seq<Seq<Entry>>, e: Entry) -> bool {
    exists|i: int| from_first_holder(ss, e, i)
}

proof fn lemma_step_sorted(ss: Seq<Seq<Entry>>, k: Seq<u8>)
    requires
        forall|i: int| 0 <= i < ss.len() ==> keys_strictly_sorted(#[trigger] ss[i]),
    ensures
        forall|i: int| 0 <= i < ss.len() ==> keys_strictly_sorted(#[trigger] step(ss, k)[i]),
{
    assert forall|i: int| 0 <= i < ss.len() implies keys_strictly_sorted(#[trigger] step(ss, k)[i]) by {
        let t = step(ss, k)[i];
        assert(keys_strictly_sorted(ss[i]));
        if ss[i].len() > 0 && ss[i][0].0 == k {
            assert forall|a: int, b: int| 0 <= a < b < t.len() implies key_lt(#[trigger] t[a].0, #[trigger] t[b].0) by {
                assert(t[a] == ss[i][a + 1]);
                assert(t[b] == ss[i][b + 1]);
            }
        }
    }
}

/// The merge of streams with strictly increasing keys has strictly increasing
/// keys, and each entry it gives comes from the first stream that holds its key.
pub proof fn lemma_merge_sorted_and_prioritized(ss: Seq<Seq<Entry>>)
    requires
        forall|i: int| 0 <= i < ss.len() ==> keys_strictly_sorted(#[trigger] ss[i]),
    ensures
        keys_strictly_sorted(merge_all(ss)),
        forall|j: int| 0 <= j < merge_all(ss).len() ==> has_first_holder(ss, #[trigger] merge_all(ss)[j]),
    decreases total(ss),
{
    match min_source(ss, ss.len() as int) {
        None => {},
        Some(p) => {
            lemma_min_source(ss, ss.len() as int);
            let h = ss[p][0];
            let k = h.0;
            let st = step(ss, k);
            lemma_step_total(ss, k, p);
            lemma_step_sorted(ss, k);
            lemma_merge_sorted_and_prioritized(st);
            let rest = merge_all(st);
            let out = merge_all(ss);
            assert(out == seq![h] + rest);
            // Every entry of a stepped stream lies above `k`.
            assert forall|i: int, q: int| 0 <= i < st.len() && 0 <= q < st[i].len() implies key_lt(k, #[trigger] st[i][q].0) by {
                assert(keys_strictly_sorted(ss[i]));
                if ss[i][0].0 == k {
                    assert(st[i][q] == ss[i][q + 1]);
                } else {
                    assert(key_le(k, ss[i][0].0));
                    lemma_cmp_eq(k, ss[i][0].0);
                    if q > 0 {
                        lemma_cmp_trans(k, ss[i][0].0, ss[i][q].0);
                    }
                }
            }
            assert forall|j: int| 0 <= j < rest.len() implies key_lt(k, #[trigger] rest[j].0) by {
                assert(has_first_holder(st, rest[j]));
                let i = choose|i: int| from_first_holder(st, rest[j], i);
                let q = choose|q: int| 0 <= q < st[i].len() && #[trigger] st[i][q] == rest[j];
                assert(key_lt(k, st[i][q].0));
            }
            assert forall|a: int, b: int| 0 <= a < b < out.len() implies key_lt(#[trigger] out[a].0, #[trigger] out[b].0) by {
                if a == 0 {
                    assert(out[b] == rest[b - 1]);
                } else {
                    assert(out[a] == rest[a - 1]);
                    assert(out[b] == rest[b - 1]);
                }
            }
            assert forall|j: int| 0 <= j < out.len() implies has_first_holder(ss, #[trigger] out[j]) by {
                if j == 0 {
                    assert(ss[p][0] == out[0]);
                    assert forall|i2: int| 0 <= i2 < p implies !holds_key(#[trigger] ss[i2], k) by {
                        if holds_key(ss[i2], k) {
                            let q = choose|q: int| 0 <= q < ss[i2].len() && (#[trigger] ss[i2][q]).0 == k;
                            assert(key_lt(k, ss[i2][0].0));
                            assert(keys_strictly_sorted(ss[i2]));
                            if q > 0 {
                                lemma_cmp_trans(k, ss[i2][0].0, ss[i2][q].0);
                            }
                            crate::key::lemma_cmp_refl(k);
                        }
                    }
                    assert(from_first_holder(ss, out[j], p));
                } else {
                    let e = rest[j - 1];
                    assert(out[j] == e);
                    assert(has_first_holder(st, e));
                    let i = choose|i: int| from_first_holder(st, e, i);
                    let q = choose|q: int| 0 <= q < st[i].len() && #[trigger] st[i][q] == e;
                    assert(key_lt(k, e.0));
                    lemma_cmp_eq(k, e.0);
                    if ss[i].len() > 0 && ss[i][0].0 == k {
                        assert(ss[i][q + 1] == e);
                    } else {
                        assert(ss[i][q] == e);
                    }
                    assert forall|i2: int| 0 <= i2 < i implies !holds_key(#[trigger] ss[i2], e.0) by {
                        assert(!holds_key(st[i2], e.0));
                        if holds_key(ss[i2], e.0) {
                            let q2 = choose|q2: int| 0 <= q2 < ss[i2].len() && (#[trigger] ss[i2][q2]).0 == e.0;
                            if ss[i2][0].0 == k {
                                assert(q2 > 0);
                                assert(st[i2][q2 - 1] == ss[i2][q2]);
                            } else {
                                assert(st[i2][q2] == ss[i2][q2]);
                            }
                        }
                    }
                    assert(from_first_holder(ss, out[j], i));
                }
            }
        },
    }
}

/// Every key that a stream holds comes out of the merge.
pub proof fn lemma_merge_complete(ss: Seq<Seq<Entry>>, i: int, q: int)
    requires
        0 <= i < ss.len(),
        0 <= q < ss[i].len(),
    ensures
        holds_key(merge_all(ss), ss[i][q].0),
    decreases total(ss),
{
    lemma_min_source(ss, ss.len() as int);
    let p = min_source(ss, ss.len() as int)->Some_0;
    let k0 = ss[p][0].0;
    let st = step(ss, k0);
    let out = merge_all(ss);
    assert(out == seq![ss[p][0]] + merge_all(st));
    let k = ss[i][q].0;
    if k == k0 {
        assert(out[0].0 == k);
    } else {
        lemma_step_total(ss, k0, p);
        if ss[i][0].0 == k0 {
            assert(q != 0);
            assert(st[i][q - 1] == ss[i][q]);
            lemma_merge_complete(st, i, q - 1);
        } else {
            assert(st[i] == ss[i]);
            lemma_merge_complete(st, i, q);
        }
        let r = choose|r: int| 0 <= r < merge_all(st).len() && (#[trigger] merge_all(st)[r]).0 == k;
        assert(out[r + 1] == merge_all(st)[r]);
    }
}

/// Merges cursors of one type. Where several hold a key, the entry of the one
/// that comes first in the list is produced and the others are skipped.
pub struct MergeIterator<I: StorageIterator> {
    iters: Vec<Box<I>>,
    current: Option<usize>,
}

/// The remaining entries of each cursor.
pub open spec fn views<I: StorageIterator>(iters: Seq<Box<I>>) -> Seq<Seq<Entry>> {
    Seq::new(iters.len(), |i: int| iters[i].entries())
}

impl<I: StorageIterator> MergeIterator<I> {
    pub closed spec fn sources(&self) -> Seq<Seq<Entry>> {
        views(self.iters@)
    }

    /// No cursor being merged can fail.
    pub closed spec fn sources_cannot_fail(&self) -> bool {
        forall|i: int| 0 <= i < self.iters@.len() ==> #[trigger] self.iters@[i].cannot_fail()
    }

    /// Merges `iters`; a lower index means a newer source.
    pub fn create(iters: Vec<Box<I>>) -> (r: Self)
        requires
            forall|i: int| 0 <= i < iters@.len() ==> #[trigger] iters@[i].inv(),
        ensures
            r.inv(),
            r.entries() == merge_all(views(iters@)),
            r.sources() == views(iters@),
            r.cannot_fail() == forall|i: int| 0 <= i < iters@.len() ==> #[trigger] iters@[i].cannot_fail(),
    {
        let mut this = MergeIterator { iters, current: None };
        this.current = this.find_current();
        this
    }

    fn find_current(&self) -> (r: Option<usize>)
        requires
            forall|i: int| 0 <= i < self.iters@.len() ==> #[trigger] self.iters@[i].inv(),
        ensures
            r matches Some(c) ==> min_source(self.sources(), self.sources().len() as int) == Some(c as int),
            r is None ==> min_source(self.sources(), self.sources().len() as int) is None,
    {
        let ghost ss = self.sources();
        let mut best: Option<usize> = None;
        let mut i: usize = 0;
        while i < self.iters.len()
            invariant
                i <= self.iters@.len(),
                ss == self.sources(),
                forall|j: int| 0 <= j < self.iters@.len() ==> #[trigger] self.iters@[j].inv(),
                best matches Some(c) ==> min_source(ss, i as int) == Some(c as int),
                best is None ==> min_source(ss, i as int) is None,
                best matches Some(c) ==> c < i,
            decreases self.iters.len() - i,
        {
            assert(self.iters@[i as int].entries() == ss[i as int]);
            proof {
                lemma_min_source(ss, i as int);
            }
            if self.iters[i].is_valid() {
                match best {
                    None => {
                        best = Some(i);
                    },
                    Some(c) => {
                        assert(self.iters@[c as int].entries() == ss[c as int]);
                        match compare_keys(self.iters[i].key(), self.iters[c].key()) {
                            core::cmp::Ordering::Less => {
                                best = Some(i);
                            },
                            _ => {},
                        }
                    },
                }
            }
            i = i + 1;
        }
        best
    }

    /// Calls `next` on cursor `i`.
    fn advance(&mut self, i: usize) -> (r: Result<(), StorageError>)
        requires
            i < old(self).iters@.len(),
            forall|j: int| 0 <= j < old(self).iters@.len() ==> #[trigger] old(self).iters@[j].inv(),
            old(self).iters@[i as int].entries().len() > 0,
        ensures
            r is Ok ==> final(self).iters@.len() == old(self).iters@.len(),
            r is Ok ==> forall|j: int| 0 <= j < final(self).iters@.len() ==> #[trigger] final(self).iters@[j].inv(),
            r is Ok ==> final(self).sources() == old(self).sources().update(i as int, old(self).sources()[i as int].drop_first()),
            final(self).current == old(self).current,
            old(self).sources_cannot_fail() ==> r is Ok && final(self).sources_cannot_fail(),
    {
        let mut it = self.iters.remove(i);
        let res = it.next();
        self.iters.insert(i, it);
        proof {
            if res is Ok {
                assert(self.sources() =~= old(self).sources().update(i as int, old(self).sources()[i as int].drop_first()));
                assert forall|j: int| 0 <= j < self.iters@.len() implies #[trigger] self.iters@[j].inv() by {
                    if j < i {
                        assert(self.iters@[j] == old(self).iters@[j]);
                    } else if j > i {
                        assert(self.iters@[j] == old(self).iters@[j]);
                    }
                }
            }
            if old(self).sources_cannot_fail() {
                assert(old(self).iters@[i as int].cannot_fail());
                assert forall|j: int| 0 <= j < self.iters@.len() implies #[trigger] self.iters@[j].cannot_fail() by {
                    if j != i {
                        assert(self.iters@[j] == old(self).iters@[j]);
                        assert(old(self).iters@[j].cannot_fail());
                    }
                }
            }
        }
        res
    }
}

impl<I: StorageIterator> StorageIterator for MergeIterator<I> {
    open spec fn entries(&self) -> Seq<Entry> {
        merge_all(self.sources())
    }

    open spec fn fused(&self) -> bool {
        true
    }

    open spec fn cannot_fail(&self) -> bool {
        self.sources_cannot_fail()
    }

    closed spec fn inv(&self) -> bool {
        &&& forall|i: int| 0 <= i < self.iters@.len() ==> #[trigger] self.iters@[i].inv()
        &&& self.current matches Some(c) ==> min_source(self.sources(), self.sources().len() as int) == Some(c as int)
        &&& self.current is None ==> min_source(self.sources(), self.sources().len() as int) is None
    }

    fn key(&self) -> (r: &[u8]) {
        let c = self.current.unwrap();
        proof {
            lemma_min_source(self.sources(), self.sources().len() as int);
        }
        assert(self.iters@[c as int].entries() == self.sources()[c as int]);
        self.iters[c].key()
    }

    fn value(&self) -> (r: &[u8]) {
        let c = self.current.unwrap();
        proof {
            lemma_min_source(self.sources(), self.sources().len() as int);
        }
        assert(self.iters@[c as int].entries() == self.sources()[c as int]);
        self.iters[c].value()
    }

    fn is_valid(&self) -> (r: bool) {
        self.current.is_some()
    }

    fn next(&mut self) -> (r: Result<(), StorageError>)
        ensures
            old(self).entries().len() > 0 && r is Ok ==> final(self).sources() == step(old(self).sources(), old(self).entries()[0].0),
            old(self).entries().len() == 0 ==> final(self).sources() == old(self).sources(),
    {
        let cur = match self.current {
            None => {
                return Ok(());
            },
            Some(c) => c,
        };
        let ghost ss = self.sources();
        proof {
            lemma_min_source(ss, ss.len() as int);
        }
        assert(self.entries().len() > 0);
        assert(self.iters@[cur as int].entries() == ss[cur as int]);
        let current_key = slice_to_vec(self.iters[cur].key());
        let ghost k = current_key@;
        let mut i: usize = 0;
        while i < self.iters.len()
            invariant
                cur < self.iters@.len(),
                self.iters@.len() == ss.len(),
                i <= ss.len(),
                k == ss[cur as int][0].0,
                ss[cur as int].len() > 0,
                current_key@ == k,
                self.current == Some(cur),
                old(self).entries().len() > 0,
                old(self).cannot_fail() ==> self.sources_cannot_fail(),
                forall|j: int| 0 <= j < self.iters@.len() ==> #[trigger] self.iters@[j].inv(),
                forall|j: int| 0 <= j < ss.len() ==> #[trigger] self.sources()[j] == if j < i && j != cur {
                    step(ss, k)[j]
                } else {
                    ss[j]
                },
            decreases ss.len() - i,
        {
            assert(self.iters@[i as int].entries() == self.sources()[i as int]);
            if i != cur && self.iters[i].is_valid() {
                if keys_equal(self.iters[i].key(), current_key.as_slice()) {
                    self.advance(i)?;
                }
            }
            i = i + 1;
        }
        assert(self.iters@[cur as int].entries() == self.sources()[cur as int]);
        self.advance(cur)?;
        assert(self.sources() =~= step(ss, k));
        self.current = self.find_current();
        Ok(())
    }
}

} // verus!
