use vstd::prelude::*;
use crate::iterators::{StorageError, StorageIterator};
use crate::key::{Entry, compare_keys, keys_equal, key_le, key_lt, keys_strictly_sorted, lemma_cmp_eq, lemma_cmp_trans, lemma_cmp_antisym};
use crate::iterators::merge_iterator::holds_key;

verus! {

/// Which side the merge is reading from.
enum Selection {
    A,
    B,
}

/// The merge of two sorted streams: equal keys come out once, from `a`.
pub open spec fn merge_two(a: Seq<Entry>, b: Seq<Entry>) -> Seq<Entry>
    decreases a.len() + b.len(),
{
    if a.len() == 0 {
        b
    } else if b.len() == 0 {
        a
    } else if key_le(a[0].0, b[0].0) {
        if a[0].0 == b[0].0 {
            seq![a[0]] + merge_two(a.drop_first(), b.drop_first())
        } else {
            seq![a[0]] + merge_two(a.drop_first(), b)
        }
    } else {
        seq![b[0]] + merge_two(a, b.drop_first())
    }
}

/// `e` is an entry of `a`, or an entry of `b` whose key `a` does not hold.
pub open spec fn from_a_first(a: Seq<Entry>, b: Seq<Entry>, e: Entry) -> bool {
    (exists|q: int| 0 <= q < a.len() && #[trigger] a[q] == e) || ((exists|q: int| 0 <= q < b.len() && #[trigger] b[q] == e)
        && !holds_key(a, e.0))
}

proof fn lemma_tail_above(s: Seq<Entry>, k: Seq<u8>)
    requires
        keys_strictly_sorted(s),
        s.len() > 0,
        key_le(k, s[0].0),
    ensures
        forall|q: int| 1 <= q < s.len() ==> key_lt(k, #[trigger] s[q].0),
{
    assert forall|q: int| 1 <= q < s.len() implies key_lt(k, #[trigger] s[q].0) by {
        lemma_cmp_trans(k, s[0].0, s[q].0);
    }
}

proof fn lemma_drop_sorted(s: Seq<Entry>)
    requires
        keys_strictly_sorted(s),
        s.len() > 0,
    ensures
        keys_strictly_sorted(s.drop_first()),
{
    assert forall|a: int, b: int| 0 <= a < b < s.drop_first().len() implies key_lt(#[trigger] s.drop_first()[a].0, #[trigger] s.drop_first()[b].0) by {
        assert(s.drop_first()[a] == s[a + 1]);
        assert(s.drop_first()[b] == s[b + 1]);
    }
}

/// Merging two streams with strictly increasing keys gives each key once, in
/// increasing order, taking the entry of `a` where both hold the key.
pub proof fn lemma_merge_two_sorted_prefers_a(a: Seq<Entry>, b: Seq<Entry>)
    requires
        keys_strictly_sorted(a),
        keys_strictly_sorted(b),
    ensures
        keys_strictly_sorted(merge_two(a, b)),
        forall|j: int| 0 <= j < merge_two(a, b).len() ==> from_a_first(a, b, #[trigger] merge_two(a, b)[j]),
    decreases a.len() + b.len(),
{
    let out = merge_two(a, b);
    if a.len() == 0 {
        assert forall|j: int| 0 <= j < out.len() implies from_a_first(a, b, #[trigger] out[j]) by {
            assert(b[j] == out[j]);
        }
    } else if b.len() == 0 {
        assert forall|j: int| 0 <= j < out.len() implies from_a_first(a, b, #[trigger] out[j]) by {
            assert(a[j] == out[j]);
        }
    } else {
        lemma_drop_sorted(a);
        lemma_drop_sorted(b);
        let (h, a2, b2) = if key_le(a[0].0, b[0].0) {
            if a[0].0 == b[0].0 {
                (a[0], a.drop_first(), b.drop_first())
            } else {
                (a[0], a.drop_first(), b)
            }
        } else {
            (b[0], a, b.drop_first())
        };
        lemma_merge_two_sorted_prefers_a(a2, b2);
        let rest = merge_two(a2, b2);
        assert(out == seq![h] + rest);
        crate::key::lemma_cmp_refl(a[0].0);
        crate::key::lemma_cmp_refl(b[0].0);
        lemma_cmp_antisym(a[0].0, b[0].0);
        lemma_cmp_eq(a[0].0, b[0].0);
        lemma_tail_above(a, a[0].0);
        lemma_tail_above(b, b[0].0);
        lemma_tail_above(a, h.0);
        lemma_tail_above(b, h.0);
        // Whatever remains lies above the head.
        assert forall|q: int| 0 <= q < a2.len() implies key_lt(h.0, #[trigger] a2[q].0) by {
            if a2.len() < a.len() {
                assert(a2[q] == a[q + 1]);
            } else {
                lemma_cmp_eq(h.0, a[0].0);
                if q > 0 {
                    lemma_cmp_trans(h.0, a[0].0, a[q].0);
                }
            }
        }
        assert forall|q: int| 0 <= q < b2.len() implies key_lt(h.0, #[trigger] b2[q].0) by {
            if b2.len() < b.len() {
                assert(b2[q] == b[q + 1]);
            } else {
                lemma_cmp_eq(h.0, b[0].0);
                if q > 0 {
                    lemma_cmp_trans(h.0, b[0].0, b[q].0);
                }
            }
        }
        assert forall|j: int| 0 <= j < rest.len() implies key_lt(h.0, #[trigger] rest[j].0) by {
            assert(from_a_first(a2, b2, rest[j]));
            if exists|q: int| 0 <= q < a2.len() && #[trigger] a2[q] == rest[j] {
                let q = choose|q: int| 0 <= q < a2.len() && #[trigger] a2[q] == rest[j];
                assert(key_lt(h.0, a2[q].0));
            } else {
                let q = choose|q: int| 0 <= q < b2.len() && #[trigger] b2[q] == rest[j];
                assert(key_lt(h.0, b2[q].0));
            }
        }
        assert forall|x: int, y: int| 0 <= x < y < out.len() implies key_lt(#[trigger] out[x].0, #[trigger] out[y].0) by {
            if x == 0 {
                assert(out[y] == rest[y - 1]);
            } else {
                assert(out[x] == rest[x - 1]);
                assert(out[y] == rest[y - 1]);
            }
        }
        assert forall|j: int| 0 <= j < out.len() implies from_a_first(a, b, #[trigger] out[j]) by {
            if j == 0 {
                if h == a[0] {
                    assert(a[0] == out[0]);
                } else {
                    assert(b[0] == out[0]);
                    assert(!holds_key(a, h.0)) by {
                        if holds_key(a, h.0) {
                            let q = choose|q: int| 0 <= q < a.len() && (#[trigger] a[q]).0 == h.0;
                            if q > 0 {
                                lemma_cmp_trans(b[0].0, a[0].0, a[q].0);
                            }
                        }
                    }
                }
            } else {
                let e = rest[j - 1];
                assert(out[j] == e);
                assert(from_a_first(a2, b2, e));
                lemma_cmp_eq(h.0, e.0);
                if exists|q: int| 0 <= q < a2.len() && #[trigger] a2[q] == e {
                    let q = choose|q: int| 0 <= q < a2.len() && #[trigger] a2[q] == e;
                    if a2.len() < a.len() {
                        assert(a[q + 1] == e);
                    } else {
                        assert(a[q] == e);
                    }
                } else {
                    let q = choose|q: int| 0 <= q < b2.len() && #[trigger] b2[q] == e;
                    if b2.len() < b.len() {
                        assert(b[q + 1] == e);
                    } else {
                        assert(b[q] == e);
                    }
                    assert(!holds_key(a, e.0)) by {
                        if holds_key(a, e.0) {
                            let q2 = choose|q2: int| 0 <= q2 < a.len() && (#[trigger] a[q2]).0 == e.0;
                            if a2.len() < a.len() {
                                assert(q2 > 0 || a[0].0 == h.0);
                                if q2 > 0 {
                                    assert(a2[q2 - 1] == a[q2]);
                                }
                            } else {
                                assert(a2[q2] == a[q2]);
                            }
                        }
                    }
                }
            }
        }
    }
}

/// Every key that either stream holds comes out of the merge.
pub proof fn lemma_merge_two_complete(a: Seq<Entry>, b: Seq<Entry>)
    ensures
        forall|q: int| 0 <= q < a.len() ==> holds_key(merge_two(a, b), #[trigger] a[q].0),
        forall|q: int| 0 <= q < b.len() ==> holds_key(merge_two(a, b), #[trigger] b[q].0),
    decreases a.len() + b.len(),
{
    let out = merge_two(a, b);
    if a.len() == 0 {
        assert forall|q: int| 0 <= q < b.len() implies holds_key(out, #[trigger] b[q].0) by {
            assert(out[q] == b[q]);
        }
    } else if b.len() == 0 {
        assert forall|q: int| 0 <= q < a.len() implies holds_key(out, #[trigger] a[q].0) by {
            assert(out[q] == a[q]);
        }
    } else {
        let (h, a2, b2) = if key_le(a[0].0, b[0].0) {
            if a[0].0 == b[0].0 {
                (a[0], a.drop_first(), b.drop_first())
            } else {
                (a[0], a.drop_first(), b)
            }
        } else {
            (b[0], a, b.drop_first())
        };
        lemma_merge_two_complete(a2, b2);
        let rest = merge_two(a2, b2);
        assert(out == seq![h] + rest);
        assert forall|q: int| 0 <= q < a.len() implies holds_key(out, #[trigger] a[q].0) by {
            let k = a[q].0;
            if k == h.0 {
                assert(out[0].0 == k);
            } else {
                if a2.len() < a.len() {
                    assert(q != 0);
                    assert(a2[q - 1] == a[q]);
                } else {
                    assert(a2[q] == a[q]);
                }
                let r = choose|r: int| 0 <= r < rest.len() && (#[trigger] rest[r]).0 == k;
                assert(out[r + 1] == rest[r]);
            }
        }
        assert forall|q: int| 0 <= q < b.len() implies holds_key(out, #[trigger] b[q].0) by {
            let k = b[q].0;
            if k == h.0 {
                assert(out[0].0 == k);
            } else {
                if b2.len() < b.len() {
                    assert(q != 0);
                    assert(b2[q - 1] == b[q]);
                } else {
                    assert(b2[q] == b[q]);
                }
                let r = choose|r: int| 0 <= r < rest.len() && (#[trigger] rest[r]).0 == k;
                assert(out[r + 1] == rest[r]);
            }
        }
    }
}

/// What is left of the two streams once the merge has given its first entry:
/// the side that gave it moves on, and `b` too where its head has the same key.
pub open spec fn merge_two_step(a: Seq<Entry>, b: Seq<Entry>) -> (Seq<Entry>, Seq<Entry>) {
    if a.len() == 0 {
        (a, b.drop_first())
    } else if b.len() == 0 {
        (a.drop_first(), b)
    } else if key_le(a[0].0, b[0].0) {
        if a[0].0 == b[0].0 {
            (a.drop_first(), b.drop_first())
        } else {
            (a.drop_first(), b)
        }
    } else {
        (a, b.drop_first())
    }
}

/// Merges two cursors of possibly different types. Where both hold a key, the
/// entry of `a` is produced and that of `b` skipped.
pub struct TwoMergeIterator<A: StorageIterator, B: StorageIterator> {
    a: A,
    b: B,
    current: Selection,
}

impl<A: StorageIterator, B: StorageIterator> TwoMergeIterator<A, B> {
    /// The side that holds the next entry of the merge.
    pub open spec fn selects_a(a: Seq<Entry>, b: Seq<Entry>) -> bool {
        a.len() > 0 && (b.len() == 0 || key_le(a[0].0, b[0].0))
    }

    pub closed spec fn first(&self) -> Seq<Entry> {
        self.a.entries()
    }

    pub closed spec fn second(&self) -> Seq<Entry> {
        self.b.entries()
    }

    pub closed spec fn first_cannot_fail(&self) -> bool {
        self.a.cannot_fail()
    }

    pub closed spec fn second_cannot_fail(&self) -> bool {
        self.b.cannot_fail()
    }

    /// Merges `a` and `b`.
    pub fn create(a: A, b: B) -> (r: Result<Self, StorageError>)
        requires
            a.inv(),
            b.inv(),
        ensures
            r matches Ok(m) && m.inv() && m.entries() == merge_two(a.entries(), b.entries())
                && m.first() == a.entries() && m.second() == b.entries()
                && m.cannot_fail() == (a.cannot_fail() && b.cannot_fail()),
    {
        let mut this = Self { a, b, current: Selection::A };
        this.current = this.select();
        Ok(this)
    }

    fn select(&self) -> (r: Selection)
        requires
            self.a.inv(),
            self.b.inv(),
        ensures
            (r is A) == Self::selects_a(self.a.entries(), self.b.entries()),
    {
        if !self.a.is_valid() {
            Selection::B
        } else if !self.b.is_valid() {
            Selection::A
        } else {
            match compare_keys(self.a.key(), self.b.key()) {
                core::cmp::Ordering::Greater => Selection::B,
                _ => Selection::A,
            }
        }
    }
}

impl<A: StorageIterator, B: StorageIterator> StorageIterator for TwoMergeIterator<A, B> {
    open spec fn entries(&self) -> Seq<Entry> {
        merge_two(self.first(), self.second())
    }

    open spec fn fused(&self) -> bool {
        false
    }

    open spec fn cannot_fail(&self) -> bool {
        self.first_cannot_fail() && self.second_cannot_fail()
    }

    closed spec fn inv(&self) -> bool {
        &&& self.a.inv()
        &&& self.b.inv()
        &&& (self.current is A) == Self::selects_a(self.a.entries(), self.b.entries())
    }

    fn key(&self) -> (r: &[u8]) {
        match self.current {
            Selection::A => self.a.key(),
            Selection::B => self.b.key(),
        }
    }

    fn value(&self) -> (r: &[u8]) {
        match self.current {
            Selection::A => self.a.value(),
            Selection::B => self.b.value(),
        }
    }

    fn is_valid(&self) -> (r: bool) {
        match self.current {
            Selection::A => self.a.is_valid(),
            Selection::B => self.b.is_valid(),
        }
    }

    fn next(&mut self) -> (r: Result<(), StorageError>)
        ensures
            old(self).entries().len() > 0 && r is Ok ==> (final(self).first(), final(self).second())
                == merge_two_step(old(self).first(), old(self).second()),
    {
        match self.current {
            Selection::A => {
                if self.b.is_valid() {
                    if keys_equal(self.b.key(), self.a.key()) {
                        self.b.next()?;
                    }
                }
                self.a.next()?;
            },
            Selection::B => {
                self.b.next()?;
            },
        }
        self.current = self.select();
        Ok(())
    }
}

} // verus!
