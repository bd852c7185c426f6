//! Byte strings: their lexicographic order, little-endian integers, and
//! overwriting a range in place.
use vstd::prelude::*;

verus! {

/// Lexicographic order of byte strings.
pub open spec fn lex_lt(a: Seq<u8>, b: Seq<u8>) -> bool
    decreases a.len(),
{
    if b.len() == 0 {
        false
    } else if a.len() == 0 {
        true
    } else if a[0] != b[0] {
        a[0] < b[0]
    } else {
        lex_lt(a.skip(1), b.skip(1))
    }
}

pub proof fn lex_lt_irreflexive(a: Seq<u8>)
    ensures
        !lex_lt(a, a),
    decreases a.len(),
{
    if a.len() > 0 {
        lex_lt_irreflexive(a.skip(1));
    }
}

pub proof fn lex_lt_transitive(a: Seq<u8>, b: Seq<u8>, c: Seq<u8>)
    requires
        lex_lt(a, b),
        lex_lt(b, c),
    ensures
        lex_lt(a, c),
    decreases a.len(),
{
    if a.len() > 0 && a[0] == b[0] && b[0] == c[0] {
        lex_lt_transitive(a.skip(1), b.skip(1), c.skip(1));
    }
}

pub proof fn lex_lt_total(a: Seq<u8>, b: Seq<u8>)
    ensures
        lex_lt(a, b) || a == b || lex_lt(b, a),
    decreases a.len(),
{
    if a.len() > 0 && b.len() > 0 && a[0] == b[0] {
        lex_lt_total(a.skip(1), b.skip(1));
        if a.skip(1) == b.skip(1) {
            assert(a =~= seq![a[0]] + a.skip(1));
            assert(b =~= seq![b[0]] + b.skip(1));
        }
    } else {
        if a.len() == 0 && b.len() == 0 {
            assert(a =~= b);
        }
    }
}

pub proof fn lex_lt_asymmetric(a: Seq<u8>, b: Seq<u8>)
    requires
        lex_lt(a, b),
    ensures
        !lex_lt(b, a),
        a != b,
{
    lex_lt_irreflexive(a);
    if lex_lt(b, a) {
        lex_lt_transitive(a, b, a);
    }
}

/// The order laws, each triggered by the comparisons it speaks of.
pub broadcast proof fn lex_lt_transitive_auto(a: Seq<u8>, b: Seq<u8>, c: Seq<u8>)
    ensures
        #![trigger lex_lt(a, b), lex_lt(b, c)]
        lex_lt(a, b) && lex_lt(b, c) ==> lex_lt(a, c),
        !lex_lt(b, a) && lex_lt(b, c) ==> lex_lt(a, c),
{
    if lex_lt(a, b) && lex_lt(b, c) {
        lex_lt_transitive(a, b, c);
    }
    if !lex_lt(b, a) && lex_lt(b, c) {
        lex_lt_total(a, b);
        if lex_lt(a, b) {
            lex_lt_transitive(a, b, c);
        }
    }
}

pub broadcast proof fn lex_lt_exclusive_auto(a: Seq<u8>, b: Seq<u8>)
    ensures
        #[trigger] lex_lt(a, b) ==> !lex_lt(b, a) && a != b,
        lex_lt(a, b) || a == b || lex_lt(b, a),
{
    lex_lt_total(a, b);
    if lex_lt(a, b) {
        lex_lt_asymmetric(a, b);
    }
}

pub broadcast group group_lex {
    lex_lt_transitive_auto,
    lex_lt_exclusive_auto,
}

/// How two keys compare.
#[derive(Clone, Copy, Debug, PartialEq, Eq, Structural)]
pub enum KeyOrder {
    Less,
    Equal,
    Greater,
}

/// Compare two byte strings lexicographically.
pub fn compare_keys(a: &[u8], b: &[u8]) -> (r: KeyOrder)
    ensures
        (r is Less) == lex_lt(a@, b@),
        (r is Greater) == lex_lt(b@, a@),
        (r is Equal) == (a@ == b@),
{
    let mut i: usize = 0;
    assert(a@.skip(0) =~= a@);
    assert(b@.skip(0) =~= b@);
    while i < a.len() && i < b.len()
        invariant
            i <= a@.len(),
            i <= b@.len(),
            lex_lt(a@, b@) == lex_lt(a@.skip(i as int), b@.skip(i as int)),
            lex_lt(b@, a@) == lex_lt(b@.skip(i as int), a@.skip(i as int)),
            a@.subrange(0, i as int) == b@.subrange(0, i as int),
        decreases a@.len() - i,
    {
        proof {
            lex_lt_total(a@, b@);
            assert(a@.skip(i as int)[0] == a@[i as int]);
            assert(b@.skip(i as int)[0] == b@[i as int]);
        }
        if a[i] < b[i] {
            return KeyOrder::Less;
        }
        if b[i] < a[i] {
            return KeyOrder::Greater;
        }
        proof {
            assert(a@.skip(i as int).skip(1) =~= a@.skip(i + 1));
            assert(b@.skip(i as int).skip(1) =~= b@.skip(i + 1));
            assert(a@.subrange(0, i + 1) =~= a@.subrange(0, i as int).push(a@[i as int]));
            assert(b@.subrange(0, i + 1) =~= b@.subrange(0, i as int).push(b@[i as int]));
        }
        i += 1;
    }
    if a.len() == b.len() {
        proof {
            assert(a@ =~= a@.subrange(0, i as int));
            assert(b@ =~= b@.subrange(0, i as int));
            lex_lt_irreflexive(a@);
        }
        KeyOrder::Equal
    } else if a.len() < b.len() {
        KeyOrder::Less
    } else {
        KeyOrder::Greater
    }
}

pub fn key_less(a: &[u8], b: &[u8]) -> (r: bool)
    ensures
        r == lex_lt(a@, b@),
{
    match compare_keys(a, b) {
        KeyOrder::Less => true,
        _ => false,
    }
}

pub fn keys_equal(a: &[u8], b: &[u8]) -> (r: bool)
    ensures
        r == (a@ == b@),
{
    match compare_keys(a, b) {
        KeyOrder::Equal => true,
        _ => false,
    }
}

/// `a` begins with `prefix`.
pub open spec fn has_prefix(a: Seq<u8>, prefix: Seq<u8>) -> bool {
    prefix.len() <= a.len() && a.subrange(0, prefix.len() as int) == prefix
}

pub fn starts_with(a: &[u8], prefix: &[u8]) -> (r: bool)
    ensures
        r == has_prefix(a@, prefix@),
{
    if prefix.len() > a.len() {
        return false;
    }
    let mut i: usize = 0;
    while i < prefix.len()
        invariant
            i <= prefix@.len() <= a@.len(),
            forall|j: int| 0 <= j < i ==> a@[j] == prefix@[j],
        decreases prefix@.len() - i,
    {
        if a[i] != prefix[i] {
            assert(a@.subrange(0, prefix@.len() as int)[i as int] != prefix@[i as int]);
            return false;
        }
        i += 1;
    }
    assert(a@.subrange(0, prefix@.len() as int) =~= prefix@);
    true
}

/// A copy of a byte string.
pub fn copy_bytes(a: &[u8]) -> (r: Vec<u8>)
    ensures
        r@ == a@,
{
    vstd::slice::slice_to_vec(a)
}

/// Little-endian bytes of an integer, and back.
pub open spec fn le16(x: u16) -> Seq<u8> {
    vstd::bytes::spec_u16_to_le_bytes(x)
}

pub open spec fn of_le16(s: Seq<u8>) -> u16 {
    vstd::bytes::spec_u16_from_le_bytes(s)
}

pub open spec fn le32(x: u32) -> Seq<u8> {
    vstd::bytes::spec_u32_to_le_bytes(x)
}

pub open spec fn of_le32(s: Seq<u8>) -> u32 {
    vstd::bytes::spec_u32_from_le_bytes(s)
}

pub open spec fn le64(x: u64) -> Seq<u8> {
    vstd::bytes::spec_u64_to_le_bytes(x)
}

pub open spec fn of_le64(s: Seq<u8>) -> u64 {
    vstd::bytes::spec_u64_from_le_bytes(s)
}

pub broadcast proof fn le16_round_trip(x: u16)
    ensures
        #[trigger] le16(x).len() == 2,
        of_le16(le16(x)) == x,
{
    vstd::bytes::lemma_auto_spec_u16_to_from_le_bytes();
    assert(vstd::bytes::spec_u16_to_le_bytes(x).len() == 2);
}

pub broadcast proof fn le32_round_trip(x: u32)
    ensures
        #[trigger] le32(x).len() == 4,
        of_le32(le32(x)) == x,
{
    vstd::bytes::lemma_auto_spec_u32_to_from_le_bytes();
    assert(vstd::bytes::spec_u32_to_le_bytes(x).len() == 4);
}

pub broadcast proof fn le64_round_trip(x: u64)
    ensures
        #[trigger] le64(x).len() == 8,
        of_le64(le64(x)) == x,
{
    vstd::bytes::lemma_auto_spec_u64_to_from_le_bytes();
}

pub broadcast proof fn of_le16_round_trip(s: Seq<u8>)
    requires
        s.len() == 2,
    ensures
        le16(#[trigger] of_le16(s)) == s,
{
    vstd::bytes::lemma_auto_spec_u16_to_from_le_bytes();
    assert(vstd::bytes::spec_u16_to_le_bytes(vstd::bytes::spec_u16_from_le_bytes(s)) == s);
}

pub broadcast proof fn of_le32_round_trip(s: Seq<u8>)
    requires
        s.len() == 4,
    ensures
        le32(#[trigger] of_le32(s)) == s,
{
    vstd::bytes::lemma_auto_spec_u32_to_from_le_bytes();
    assert(vstd::bytes::spec_u32_to_le_bytes(vstd::bytes::spec_u32_from_le_bytes(s)) == s);
}

pub broadcast proof fn of_le64_round_trip(s: Seq<u8>)
    requires
        s.len() == 8,
    ensures
        le64(#[trigger] of_le64(s)) == s,
{
    vstd::bytes::lemma_auto_spec_u64_to_from_le_bytes();
    assert(vstd::bytes::spec_u64_to_le_bytes(vstd::bytes::spec_u64_from_le_bytes(s)) == s);
}

pub broadcast group group_le {
    of_le16_round_trip,
    of_le32_round_trip,
    of_le64_round_trip,
    le16_round_trip,
    le32_round_trip,
    le64_round_trip,
}

/// `s` with the bytes from `off` on replaced by `b`.
pub open spec fn patch(s: Seq<u8>, off: int, b: Seq<u8>) -> Seq<u8> {
    Seq::new(s.len(), |i: int| if off <= i < off + b.len() { b[i - off] } else { s[i] })
}

/// Overwrite the bytes of `dst` from `off` on with `src`.
pub fn write_at(dst: &mut [u8], off: usize, src: &[u8])
    requires
        off + src@.len() <= old(dst)@.len(),
    ensures
        final(dst)@ == patch(old(dst)@, off as int, src@),
{
    let size: usize = dst.len();
    let mut i: usize = 0;
    while i < src.len()
        invariant
            i <= src@.len(),
            size == dst@.len(),
            off + src@.len() <= old(dst)@.len(),
            dst@.len() == old(dst)@.len(),
            dst@ =~= patch(old(dst)@, off as int, src@.subrange(0, i as int)),
        decreases src@.len() - i,
    {
        dst[off + i] = src[i];
        i += 1;
    }
    assert(src@.subrange(0, i as int) =~= src@);
}

/// Set every byte of `dst` to zero.
pub fn zero_fill(dst: &mut [u8])
    ensures
        final(dst)@ == Seq::new(old(dst)@.len(), |i: int| 0u8),
{
    let mut i: usize = 0;
    while i < dst.len()
        invariant
            i <= dst@.len(),
            dst@.len() == old(dst)@.len(),
            forall|j: int| 0 <= j < i ==> dst@[j] == 0,
        decreases dst@.len() - i,
    {
        dst[i] = 0;
        i += 1;
    }
    assert(dst@ =~= Seq::new(old(dst)@.len(), |i: int| 0u8));
}

} // verus!
