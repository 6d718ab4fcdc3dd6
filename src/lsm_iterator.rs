//! The scan-level cursors: tombstone masking under an upper bound, and a guard
//! that makes an exhausted cursor stay exhausted.
use vstd::prelude::*;
use crate::iterators::{StorageError, StorageIterator};
use crate::key::Entry;
use crate::util::{Bound, below_upper, is_below_upper};

verus! {

/// What a scan shows of a stream: the entries up to the first key past `upper`,
/// without tombstones (empty values).
pub open spec fn visible(s: Seq<Entry>, upper: Bound<Vec<u8>>) -> Seq<Entry>
    decreases s.len(),
{
    if s.len() == 0 || !below_upper(s[0].0, upper) {
        Seq::empty()
    } else if s[0].1.len() == 0 {
        visible(s.drop_first(), upper)
    } else {
        seq![s[0]] + visible(s.drop_first(), upper)
    }
}

/// The cursor of a scan: hides deleted keys and stops at the upper bound.
pub struct LsmIterator<I: StorageIterator> {
    inner: I,
    upper: Bound<Vec<u8>>,
}

impl<I: StorageIterator> LsmIterator<I> {
    pub closed spec fn source(&self) -> Seq<Entry> {
        self.inner.entries()
    }

    pub closed spec fn upper_bound(&self) -> Bound<Vec<u8>> {
        self.upper
    }

    /// The source's head, where it lies within the bound, is not a tombstone.
    pub open spec fn head_live(&self) -> bool {
        (self.source().len() > 0 && below_upper(self.source()[0].0, self.upper_bound())) ==> self.source()[0].1.len() > 0
    }

    pub closed spec fn source_cannot_fail(&self) -> bool {
        self.inner.cannot_fail()
    }

    /// Wraps `inner` and moves past any leading tombstones.
    pub fn new_with_upper_bound(inner: I, upper_bound: Bound<Vec<u8>>) -> (r: Result<Self, StorageError>)
        requires
            inner.inv(),
        ensures
            r matches Ok(it) ==> it.inv() && it.entries() == visible(inner.entries(), upper_bound)
                && it.upper_bound() == upper_bound && (inner.cannot_fail() ==> it.cannot_fail()),
            inner.cannot_fail() ==> r is Ok,
    {
        let mut this = Self { inner, upper: upper_bound };
        this.skip_deleted()?;
        Ok(this)
    }

    fn skip_deleted(&mut self) -> (r: Result<(), StorageError>)
        requires
            old(self).inner.inv(),
        ensures
            r is Ok ==> final(self).inv(),
            r is Ok ==> final(self).entries() == old(self).entries(),
            final(self).upper == old(self).upper,
            old(self).inner.cannot_fail() ==> r is Ok && final(self).inner.cannot_fail(),
    {
        while self.inner.is_valid() && is_below_upper(self.inner.key(), &self.upper) && self.inner.value().len() == 0
            invariant
                self.inner.inv(),
                visible(self.inner.entries(), self.upper) == old(self).entries(),
                self.upper == old(self).upper,
                old(self).inner.cannot_fail() ==> self.inner.cannot_fail(),
            decreases self.inner.entries().len(),
        {
            let ghost before = self.inner.entries();
            self.inner.next()?;
            assert(visible(before, self.upper) == visible(before.drop_first(), self.upper));
        }
        Ok(())
    }
}

impl<I: StorageIterator> StorageIterator for LsmIterator<I> {
    open spec fn entries(&self) -> Seq<Entry> {
        visible(self.source(), self.upper_bound())
    }

    open spec fn fused(&self) -> bool {
        false
    }

    open spec fn cannot_fail(&self) -> bool {
        self.source_cannot_fail()
    }

    closed spec fn inv(&self) -> bool {
        self.inner.inv() && self.head_live()
    }

    fn is_valid(&self) -> (r: bool)
        ensures
            r == (self.source().len() > 0 && below_upper(self.source()[0].0, self.upper_bound())),
    {
        self.inner.is_valid() && is_below_upper(self.inner.key(), &self.upper)
    }

    fn key(&self) -> (r: &[u8]) {
        self.inner.key()
    }

    fn value(&self) -> (r: &[u8]) {
        self.inner.value()
    }

    fn next(&mut self) -> (r: Result<(), StorageError>) {
        let ghost before = self.inner.entries();
        self.inner.next()?;
        self.skip_deleted()
    }
}

/// Guards a cursor: once it has run out, `next` does nothing and succeeds.
pub struct FusedIterator<I: StorageIterator> {
    iter: I,
}

impl<I: StorageIterator> FusedIterator<I> {
    pub closed spec fn inner_cannot_fail(&self) -> bool {
        self.iter.cannot_fail()
    }

    /// Wraps `iter`.
    pub fn new(iter: I) -> (r: Self)
        requires
            iter.inv(),
        ensures
            r.inv(),
            r.entries() == iter.entries(),
            r.fused(),
            r.cannot_fail() == iter.cannot_fail(),
    {
        Self { iter }
    }
}

impl<I: StorageIterator> StorageIterator for FusedIterator<I> {
    closed spec fn entries(&self) -> Seq<Entry> {
        self.iter.entries()
    }

    open spec fn fused(&self) -> bool {
        true
    }

    open spec fn cannot_fail(&self) -> bool {
        self.inner_cannot_fail()
    }

    closed spec fn inv(&self) -> bool {
        self.iter.inv()
    }

    fn is_valid(&self) -> (r: bool) {
        self.iter.is_valid()
    }

    fn key(&self) -> (r: &[u8]) {
        self.iter.key()
    }

    fn value(&self) -> (r: &[u8]) {
        self.iter.value()
    }

    fn next(&mut self) -> (r: Result<(), StorageError>) {
        if self.iter.is_valid() {
            self.iter.next()
        } else {
            Ok(())
        }
    }
}

/// A sound scan cursor never stands on a tombstone within its bound.
pub proof fn lemma_head_live<I: StorageIterator>(it: LsmIterator<I>)
    requires
        it.inv(),
    ensures
        it.head_live(),
{
}

/// A scan shows no tombstone and no key past its upper bound.
pub proof fn lemma_visible_respects_bound_and_deletes(s: Seq<Entry>, upper: Bound<Vec<u8>>)
    ensures
        forall|i: int| 0 <= i < visible(s, upper).len() ==> (#[trigger] visible(s, upper)[i]).1.len() > 0
            && below_upper(visible(s, upper)[i].0, upper),
    decreases s.len(),
{
    if s.len() > 0 && below_upper(s[0].0, upper) {
        lemma_visible_respects_bound_and_deletes(s.drop_first(), upper);
        if s[0].1.len() > 0 {
            let v = visible(s, upper);
            let t = visible(s.drop_first(), upper);
            assert forall|i: int| 0 <= i < v.len() implies (#[trigger] v[i]).1.len() > 0 && below_upper(v[i].0, upper) by {
                if i > 0 {
                    assert(v[i] == t[i - 1]);
                }
            }
        } else {
            assert(visible(s, upper) == visible(s.drop_first(), upper));
        }
    }
}

} // verus!
