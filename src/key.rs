//! Byte-string keys: their lexicographic order, and little-endian integers.
use vstd::prelude::*;

verus! {

/// A key-value entry as a pair of byte strings.
pub type Entry = (Seq<u8>, Seq<u8>);

/// Lexicographic three-way comparison of byte strings: -1, 0 or 1.
pub open spec fn key_cmp(a: Seq<u8>, b: Seq<u8>) -> int
    decreases a.len(),
{
    if a.len() == 0 {
        if b.len() == 0 { 0 } else { -1 }
    } else if b.len() == 0 {
        1
    } else if a[0] < b[0] {
        -1
    } else if a[0] > b[0] {
        1
    } else {
        key_cmp(a.drop_first(), b.drop_first())
    }
}

pub open spec fn key_le(a: Seq<u8>, b: Seq<u8>) -> bool {
    key_cmp(a, b) <= 0
}

pub open spec fn key_lt(a: Seq<u8>, b: Seq<u8>) -> bool {
    key_cmp(a, b) < 0
}

/// Keys in non-decreasing order.
pub open spec fn keys_sorted(s: Seq<Entry>) -> bool {
    forall|i: int, j: int| 0 <= i < j < s.len() ==> key_le(#[trigger] s[i].0, #[trigger] s[j].0)
}

/// Keys in strictly increasing order.
pub open spec fn keys_strictly_sorted(s: Seq<Entry>) -> bool {
    forall|i: int, j: int| 0 <= i < j < s.len() ==> key_lt(#[trigger] s[i].0, #[trigger] s[j].0)
}

/// Two keys compare equal exactly when they are the same key.
pub proof fn lemma_cmp_eq(a: Seq<u8>, b: Seq<u8>)
    ensures
        (key_cmp(a, b) == 0) <==> (a == b),
    decreases a.len(),
{
    if a == b {
        lemma_cmp_refl(a);
    } else if a.len() > 0 && b.len() > 0 && a[0] == b[0] {
        lemma_cmp_eq(a.drop_first(), b.drop_first());
        if a.drop_first() == b.drop_first() {
            assert(a =~= seq![a[0]] + a.drop_first());
            assert(b =~= seq![b[0]] + b.drop_first());
        }
    } else if a.len() == b.len() && a.len() == 0 {
        assert(a =~= b);
    }
}

pub proof fn lemma_cmp_refl(a: Seq<u8>)
    ensures
        key_cmp(a, a) == 0,
    decreases a.len(),
{
    if a.len() > 0 {
        lemma_cmp_refl(a.drop_first());
    }
}

/// Swapping the arguments negates the comparison.
pub proof fn lemma_cmp_antisym(a: Seq<u8>, b: Seq<u8>)
    ensures
        key_cmp(a, b) == -key_cmp(b, a),
    decreases a.len(),
{
    if a.len() > 0 && b.len() > 0 && a[0] == b[0] {
        lemma_cmp_antisym(a.drop_first(), b.drop_first());
    }
}

/// The order is transitive, strictly so where either step is strict.
pub proof fn lemma_cmp_trans(a: Seq<u8>, b: Seq<u8>, c: Seq<u8>)
    ensures
        key_cmp(a, b) <= 0 && key_cmp(b, c) <= 0 ==> key_cmp(a, c) <= 0,
        key_cmp(a, b) < 0 && key_cmp(b, c) <= 0 ==> key_cmp(a, c) < 0,
        key_cmp(a, b) <= 0 && key_cmp(b, c) < 0 ==> key_cmp(a, c) < 0,
    decreases a.len(),
{
    if a.len() > 0 && b.len() > 0 && c.len() > 0 {
        lemma_cmp_trans(a.drop_first(), b.drop_first(), c.drop_first());
    }
}

/// Compares two keys lexicographically.
pub fn compare_keys(a: &[u8], b: &[u8]) -> (r: core::cmp::Ordering)
    ensures
        (r == core::cmp::Ordering::Less) == (key_cmp(a@, b@) < 0),
        (r == core::cmp::Ordering::Equal) == (key_cmp(a@, b@) == 0),
        (r == core::cmp::Ordering::Greater) == (key_cmp(a@, b@) > 0),
{
    let mut i: usize = 0;
    assert(a@.subrange(0, a@.len() as int) =~= a@);
    assert(b@.subrange(0, b@.len() as int) =~= b@);
    while i < a.len() && i < b.len()
        invariant
            i <= a@.len(),
            i <= b@.len(),
            key_cmp(a@, b@) == key_cmp(a@.subrange(i as int, a@.len() as int), b@.subrange(i as int, b@.len() as int)),
        decreases a.len() - i,
    {
        let x = a[i];
        let y = b[i];
        if x < y {
            return core::cmp::Ordering::Less;
        } else if x > y {
            return core::cmp::Ordering::Greater;
        }
        proof {
            let sa = a@.subrange(i as int, a@.len() as int);
            let sb = b@.subrange(i as int, b@.len() as int);
            assert(sa.drop_first() =~= a@.subrange(i + 1, a@.len() as int));
            assert(sb.drop_first() =~= b@.subrange(i + 1, b@.len() as int));
        }
        i = i + 1;
    }
    if i < b.len() {
        core::cmp::Ordering::Less
    } else if i < a.len() {
        core::cmp::Ordering::Greater
    } else {
        core::cmp::Ordering::Equal
    }
}

/// Whether two byte strings are equal.
pub fn keys_equal(a: &[u8], b: &[u8]) -> (r: bool)
    ensures
        r == (a@ == b@),
{
    proof {
        lemma_cmp_eq(a@, b@);
    }
    match compare_keys(a, b) {
        core::cmp::Ordering::Equal => true,
        _ => false,
    }
}

/// The two little-endian bytes of a 16-bit value.
pub open spec fn u16_le(n: nat) -> Seq<u8> {
    seq![(n % 256) as u8, (n / 256 % 256) as u8]
}

/// The four little-endian bytes of a 32-bit value.
pub open spec fn u32_le(n: nat) -> Seq<u8> {
    seq![(n % 256) as u8, (n / 256 % 256) as u8, (n / 65536 % 256) as u8, (n / 16777216 % 256) as u8]
}

/// The 16-bit little-endian value at position `at` of `s`.
pub open spec fn read_u16(s: Seq<u8>, at: int) -> nat {
    (s[at] as nat) + 256 * (s[at + 1] as nat)
}

/// The 32-bit little-endian value at position `at` of `s`.
pub open spec fn read_u32(s: Seq<u8>, at: int) -> nat {
    (s[at] as nat) + 256 * (s[at + 1] as nat) + 65536 * (s[at + 2] as nat) + 16777216 * (
    s[at + 3] as nat)
}

pub proof fn lemma_u16_round_trip(n: nat)
    requires
        n < 65536,
    ensures
        read_u16(u16_le(n), 0) == n,
        u16_le(n).len() == 2,
{
}

pub proof fn lemma_u32_round_trip(n: nat)
    requires
        n < 4294967296,
    ensures
        read_u32(u32_le(n), 0) == n,
        u32_le(n).len() == 4,
{
}

/// Appends a 16-bit value in little-endian order.
pub fn put_u16_le(buf: &mut Vec<u8>, n: u16)
    ensures
        final(buf)@ == old(buf)@ + u16_le(n as nat),
{
    buf.push((n % 256) as u8);
    buf.push((n / 256) as u8);
    assert(final(buf)@ =~= old(buf)@ + u16_le(n as nat));
}

/// Appends a 32-bit value in little-endian order.
pub fn put_u32_le(buf: &mut Vec<u8>, n: u32)
    ensures
        final(buf)@ == old(buf)@ + u32_le(n as nat),
{
    buf.push((n % 256) as u8);
    buf.push((n / 256 % 256) as u8);
    buf.push((n / 65536 % 256) as u8);
    buf.push((n / 16777216) as u8);
    assert(final(buf)@ =~= old(buf)@ + u32_le(n as nat));
}

/// Reads the 16-bit little-endian value at position `at`.
pub fn get_u16_le(s: &[u8], at: usize) -> (r: u16)
    requires
        at + 2 <= s@.len(),
    ensures
        r as nat == read_u16(s@, at as int),
{
    (s[at] as u16) + 256 * (s[at + 1] as u16)
}

/// Reads the 32-bit little-endian value at position `at`.
pub fn get_u32_le(s: &[u8], at: usize) -> (r: u32)
    requires
        at + 4 <= s@.len(),
    ensures
        r as nat == read_u32(s@, at as int),
{
    (s[at] as u32) + 256 * (s[at + 1] as u32) + 65536 * (s[at + 2] as u32) + 16777216 * (s[at
        + 3] as u32)
}

} // verus!
