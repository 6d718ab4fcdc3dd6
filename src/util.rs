//! Range bounds over keys.
use vstd::prelude::*;
use vstd::slice::slice_to_vec;
use crate::key::{key_le, key_lt, compare_keys};

verus! {

/// One end of a key range.
#[derive(Debug, Clone, Copy)]
pub enum Bound<T> {
    Included(T),
    Excluded(T),
    Unbounded,
}

/// `k` lies at or below the upper bound `b`.
pub open spec fn below_upper(k: Seq<u8>, b: Bound<Vec<u8>>) -> bool {
    match b {
        Bound::Included(x) => key_le(k, x@),
        Bound::Excluded(x) => key_lt(k, x@),
        Bound::Unbounded => true,
    }
}

/// `k` lies at or above the lower bound `b`.
pub open spec fn above_lower(k: Seq<u8>, b: Bound<Vec<u8>>) -> bool {
    match b {
        Bound::Included(x) => key_le(x@, k),
        Bound::Excluded(x) => key_lt(x@, k),
        Bound::Unbounded => true,
    }
}

/// Copies a borrowed bound into an owned one.
pub fn map_bound(bound: Bound<&[u8]>) -> (r: Bound<Vec<u8>>)
    ensures
        bound matches Bound::Included(x) ==> r matches Bound::Included(y) && y@ == x@,
        bound matches Bound::Excluded(x) ==> r matches Bound::Excluded(y) && y@ == x@,
        bound is Unbounded ==> r is Unbounded,
{
    match bound {
        Bound::Included(x) => Bound::Included(slice_to_vec(x)),
        Bound::Excluded(x) => Bound::Excluded(slice_to_vec(x)),
        Bound::Unbounded => Bound::Unbounded,
    }
}

/// Whether `k` lies at or above the lower bound `b`.
pub fn is_above_lower(k: &[u8], b: &Bound<Vec<u8>>) -> (r: bool)
    ensures
        r == above_lower(k@, *b),
{
    match b {
        Bound::Included(x) => match compare_keys(x.as_slice(), k) {
            core::cmp::Ordering::Greater => false,
            _ => true,
        },
        Bound::Excluded(x) => match compare_keys(x.as_slice(), k) {
            core::cmp::Ordering::Less => true,
            _ => false,
        },
        Bound::Unbounded => true,
    }
}

/// Whether `k` lies at or below the upper bound `b`.
pub fn is_below_upper(k: &[u8], b: &Bound<Vec<u8>>) -> (r: bool)
    ensures
        r == below_upper(k@, *b),
{
    match b {
        Bound::Included(x) => match compare_keys(k, x.as_slice()) {
            core::cmp::Ordering::Greater => false,
            _ => true,
        },
        Bound::Excluded(x) => match compare_keys(k, x.as_slice()) {
            core::cmp::Ordering::Less => true,
            _ => false,
        },
        Bound::Unbounded => true,
    }
}

} // verus!
