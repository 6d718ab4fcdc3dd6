//! The common cursor interface, and the merges built on it.
pub mod merge_iterator;
pub mod two_merge_iterator;

use vstd::prelude::*;
use crate::key::Entry;

verus! {

/// Why an operation of the store failed.
#[derive(Debug, Clone, Copy, PartialEq, Eq, Structural)]
pub enum StorageError {
    /// A read reached past the end of a file.
    Io,
    /// Bytes that do not follow the table or block format.
    Corruption,
    /// A table too large for its block records to be addressed by a u32.
    TooLarge,
}

/// A forward cursor over sorted key-value entries.
pub trait StorageIterator {
    /// The entries from the current one to the end.
    spec fn entries(&self) -> Seq<Entry>;

    /// The cursor's internal consistency.
    spec fn inv(&self) -> bool;

    /// The value of the current entry.
    fn value(&self) -> (r: &[u8])
        requires
            self.inv(),
            self.entries().len() > 0,
        ensures
            r@ == self.entries()[0].1,
    ;

    /// The key of the current entry.
    fn key(&self) -> (r: &[u8])
        requires
            self.inv(),
            self.entries().len() > 0,
        ensures
            r@ == self.entries()[0].0,
    ;

    /// Whether the cursor is on an entry.
    fn is_valid(&self) -> (r: bool)
        requires
            self.inv(),
        ensures
            r == (self.entries().len() > 0),
    ;

    /// Whether a cursor that has run out stays so, whatever `next` is called on it.
    spec fn fused(&self) -> bool;

    /// Whether `next` is sure to succeed, now and after every later `next`.
    spec fn cannot_fail(&self) -> bool;

    /// Moves to the next entry. After an error the cursor is no longer usable.
    fn next(&mut self) -> (r: Result<(), StorageError>)
        requires
            old(self).inv(),
        ensures
            r is Ok ==> final(self).inv(),
            old(self).entries().len() > 0 && r is Ok ==> final(self).entries() == old(self).entries().drop_first(),
            old(self).entries().len() == 0 && old(self).fused() ==> r is Ok && final(self).entries().len() == 0
                && final(self).fused(),
            old(self).cannot_fail() ==> r is Ok && final(self).cannot_fail(),
    ;
}

} // verus!
