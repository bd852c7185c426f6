//! The page format, as mathematics: what bytes a node is written as, what node
//! a page holds, and that the two agree.
//!
//! A page is a 32-byte header and a body. The header holds the item count at 8,
//! the body length at 10, the magic number at 14, the format version at 20 and
//! the page kind at 21; integers are little-endian.
//!
//! A leaf body is the fence, the entry count, the entries, and a directory of
//! the entries' offsets in the body. An internal body is the fence, the counts
//! of children, separators and buffered messages, and then these in turn.
use vstd::prelude::*;

use crate::betree::message::{MessageView, VersionView};
use crate::betree::node;
use crate::betree::node::{CowBeTreeError, EntryView, FenceView, NodeView, PageKind};
use crate::bytes;

verus! {

pub const PAGE_MAGIC: u32 = 0x4254_4552;

pub const PAGE_VERSION: u8 = 4;

pub const HEADER_SIZE: usize = 32;

pub const LEAF_DIR_ENTRY_SIZE: usize = 4;

pub const COUNT_OFF: usize = 8;

pub const BODY_LEN_OFF: usize = 10;

pub const MAGIC_OFF: usize = 14;

pub const VERSION_OFF: usize = 20;

pub const KIND_OFF: usize = 21;

/// The length that stands for a missing upper fence.
pub const NONE_FENCE_LEN: u16 = 0xffff;

pub open spec fn corrupt<T>(msg: &'static str) -> Result<T, CowBeTreeError> {
    Err(CowBeTreeError::CorruptPage(msg))
}

// ---------------------------------------------------------------------------
// Byte strings inside byte strings.

/// `b` stands in `data` at `pos`.
pub open spec fn at(data: Seq<u8>, pos: int, b: Seq<u8>) -> bool {
    0 <= pos && pos + b.len() <= data.len() && data.subrange(pos, pos + b.len()) == b
}

pub broadcast proof fn at_concat(data: Seq<u8>, pos: int, a: Seq<u8>, b: Seq<u8>)
    ensures
        #[trigger] at(data, pos, a + b) <==> at(data, pos, a) && at(data, pos + a.len(), b),
{
    if at(data, pos, a + b) {
        let whole = data.subrange(pos, pos + a.len() + b.len());
        assert(data.subrange(pos, pos + a.len()) =~= whole.subrange(0, a.len() as int));
        assert((a + b).subrange(0, a.len() as int) =~= a);
        assert(data.subrange(pos + a.len(), pos + a.len() + b.len()) =~= whole.subrange(
            a.len() as int,
            (a.len() + b.len()) as int,
        ));
        assert((a + b).subrange(a.len() as int, (a.len() + b.len()) as int) =~= b);
    }
    if at(data, pos, a) && at(data, pos + a.len(), b) {
        assert(data.subrange(pos, pos + a.len() + b.len()) =~= data.subrange(pos, pos + a.len())
            + data.subrange(pos + a.len(), pos + a.len() + b.len()));
    }
}

/// What lies outside a changed range still stands where it stood.
pub proof fn at_agrees(d1: Seq<u8>, d2: Seq<u8>, pos: int, b: Seq<u8>)
    requires
        at(d1, pos, b),
        pos + b.len() <= d2.len(),
        forall|i: int| pos <= i < pos + b.len() ==> d1[i] == d2[i],
    ensures
        at(d2, pos, b),
{
    assert(d2.subrange(pos, pos + b.len()) =~= d1.subrange(pos, pos + b.len()));
}

/// The images of the items, one behind the other.
pub open spec fn flat<A>(s: Seq<A>, f: spec_fn(A) -> Seq<u8>) -> Seq<u8>
    decreases s.len(),
{
    if s.len() == 0 {
        Seq::empty()
    } else {
        f(s[0]) + flat(s.skip(1), f)
    }
}

pub proof fn flat_add<A>(s: Seq<A>, t: Seq<A>, f: spec_fn(A) -> Seq<u8>)
    ensures
        flat(s + t, f) == flat(s, f) + flat(t, f),
    decreases s.len(),
{
    if s.len() == 0 {
        assert(s + t =~= t);
        assert(flat(s, f) + flat(t, f) =~= flat(t, f));
    } else {
        flat_add(s.skip(1), t, f);
        assert((s + t).skip(1) =~= s.skip(1) + t);
        assert(f(s[0]) + (flat(s.skip(1), f) + flat(t, f)) =~= flat(s, f) + flat(t, f));
    }
}

pub proof fn flat_one<A>(x: A, f: spec_fn(A) -> Seq<u8>)
    ensures
        flat(seq![x], f) == f(x),
{
    assert(seq![x].skip(1) =~= Seq::<A>::empty());
    assert(flat(seq![x].skip(1), f) == Seq::<u8>::empty());
    assert(f(x) + Seq::<u8>::empty() =~= f(x));
}

pub proof fn flat_push<A>(s: Seq<A>, x: A, f: spec_fn(A) -> Seq<u8>)
    ensures
        flat(s.push(x), f) == flat(s, f) + f(x),
{
    assert(s.push(x) =~= s + seq![x]);
    flat_add(s, seq![x], f);
    flat_one(x, f);
}

/// The images before item `i`, that of item `i`, and those behind it.
pub proof fn flat_split<A>(s: Seq<A>, i: int, f: spec_fn(A) -> Seq<u8>)
    requires
        0 <= i < s.len(),
    ensures
        flat(s, f) == flat(s.take(i), f) + f(s[i]) + flat(s.skip(i + 1), f),
        flat(s.take(i + 1), f) == flat(s.take(i), f) + f(s[i]),
        flat(s.skip(i), f) == f(s[i]) + flat(s.skip(i + 1), f),
{
    assert(s.take(i + 1) =~= s.take(i).push(s[i]));
    flat_push(s.take(i), s[i], f);
    assert(s =~= s.take(i + 1) + s.skip(i + 1));
    flat_add(s.take(i + 1), s.skip(i + 1), f);
    assert(s.skip(i)[0] == s[i]);
    assert(s.skip(i).skip(1) =~= s.skip(i + 1));
}

/// Images of one size stand at multiples of it.
pub proof fn flat_fixed<A>(s: Seq<A>, f: spec_fn(A) -> Seq<u8>, k: nat)
    requires
        forall|i: int| 0 <= i < s.len() ==> (#[trigger] f(s[i])).len() == k,
    ensures
        flat(s, f).len() == s.len() * k,
        forall|i: int| 0 <= i < s.len() ==> at(flat(s, f), i * k, #[trigger] f(s[i])),
    decreases s.len(),
{
    if s.len() > 0 {
        let rest = s.skip(1);
        assert forall|i: int| 0 <= i < rest.len() implies (#[trigger] f(rest[i])).len() == k by {
            assert(rest[i] == s[i + 1]);
            assert(f(s[i + 1]).len() == k);
        }
        flat_fixed(rest, f, k);
        assert(s.len() * k == k + rest.len() * k) by (nonlinear_arith)
            requires
                s.len() == rest.len() + 1,
        ;
        assert(f(s[0]).len() == k);
        assert forall|i: int| 0 <= i < s.len() implies at(flat(s, f), i * k, #[trigger] f(s[i])) by {
            if i == 0 {
                assert(flat(s, f).subrange(0, k as int) =~= f(s[0]));
            } else {
                assert(rest[i - 1] == s[i]);
                assert(at(flat(rest, f), (i - 1) * k, f(rest[i - 1])));
                assert(i * k == k + (i - 1) * k) by (nonlinear_arith);
                assert(f(s[i]).len() == k);
                assert(flat(s, f).subrange(i * k, i * k + k) =~= flat(rest, f).subrange(
                    (i - 1) * k,
                    (i - 1) * k + k,
                ));
            }
        }
    }
}

/// A byte string that holds images of one size at multiples of it is made up of
/// them.
pub proof fn flat_fixed_is<A>(s: Seq<A>, f: spec_fn(A) -> Seq<u8>, k: nat, b: Seq<u8>)
    requires
        forall|i: int| 0 <= i < s.len() ==> (#[trigger] f(s[i])).len() == k,
        b.len() == s.len() * k,
        forall|i: int| 0 <= i < s.len() ==> at(b, i * k, #[trigger] f(s[i])),
    ensures
        b == flat(s, f),
    decreases s.len(),
{
    if s.len() == 0 {
        assert(b =~= flat(s, f));
    } else {
        let rest = s.skip(1);
        let tail = b.skip(k as int);
        assert(s.len() * k == k + rest.len() * k) by (nonlinear_arith)
            requires
                s.len() == rest.len() + 1,
        ;
        assert(f(s[0]).len() == k);
        assert(at(b, 0int * k, f(s[0])));
        assert forall|i: int| 0 <= i < rest.len() implies (#[trigger] f(rest[i])).len() == k by {
            assert(rest[i] == s[i + 1]);
            assert(f(s[i + 1]).len() == k);
        }
        assert forall|i: int| 0 <= i < rest.len() implies at(tail, i * k, #[trigger] f(rest[i])) by {
            assert(rest[i] == s[i + 1]);
            assert(at(b, (i + 1) * k, f(s[i + 1])));
            assert((i + 1) * k == k + i * k) by (nonlinear_arith);
            assert(f(s[i + 1]).len() == k);
            assert(tail.subrange(i * k, i * k + k) =~= b.subrange((i + 1) * k, (i + 1) * k + k));
        }
        flat_fixed_is(rest, f, k, tail);
        assert(b =~= b.subrange(0, k as int) + tail);
    }
}

// ---------------------------------------------------------------------------
// Reading.

/// `len` bytes at `pos`, and the position behind them.
pub open spec fn p_exact(data: Seq<u8>, pos: int, len: int) -> Result<(Seq<u8>, int), CowBeTreeError> {
    if pos + len <= data.len() {
        Ok((data.subrange(pos, pos + len), pos + len))
    } else if pos + len > usize::MAX {
        corrupt("body offset overflow")
    } else {
        corrupt("body read out of bounds")
    }
}

pub open spec fn p_u8(data: Seq<u8>, pos: int) -> Result<(u8, int), CowBeTreeError> {
    match p_exact(data, pos, 1) {
        Ok((s, p)) => Ok((s[0], p)),
        Err(e) => Err(e),
    }
}

pub open spec fn p_u16(data: Seq<u8>, pos: int) -> Result<(u16, int), CowBeTreeError> {
    match p_exact(data, pos, 2) {
        Ok((s, p)) => Ok((bytes::of_le16(s), p)),
        Err(e) => Err(e),
    }
}

pub open spec fn p_u32(data: Seq<u8>, pos: int) -> Result<(u32, int), CowBeTreeError> {
    match p_exact(data, pos, 4) {
        Ok((s, p)) => Ok((bytes::of_le32(s), p)),
        Err(e) => Err(e),
    }
}

pub open spec fn p_u64(data: Seq<u8>, pos: int) -> Result<(u64, int), CowBeTreeError> {
    match p_exact(data, pos, 8) {
        Ok((s, p)) => Ok((bytes::of_le64(s), p)),
        Err(e) => Err(e),
    }
}

/// A byte string behind its 16-bit length.
pub open spec fn p_bytes16(data: Seq<u8>, pos: int) -> Result<(Seq<u8>, int), CowBeTreeError> {
    match p_u16(data, pos) {
        Ok((n, p)) => p_exact(data, p, n as int),
        Err(e) => Err(e),
    }
}

/// A byte string behind its 32-bit length.
pub open spec fn p_bytes32(data: Seq<u8>, pos: int) -> Result<(Seq<u8>, int), CowBeTreeError> {
    match p_u32(data, pos) {
        Ok((n, p)) => p_exact(data, p, n as int),
        Err(e) => Err(e),
    }
}

pub open spec fn p_fence(data: Seq<u8>, pos: int) -> Result<(FenceView, int), CowBeTreeError> {
    match p_bytes16(data, pos) {
        Err(e) => Err(e),
        Ok((lower, p1)) => match p_u16(data, p1) {
            Err(e) => Err(e),
            Ok((n, p2)) => if n == NONE_FENCE_LEN {
                Ok((FenceView { lower, upper: None }, p2))
            } else {
                match p_exact(data, p2, n as int) {
                    Err(e) => Err(e),
                    Ok((upper, p3)) => Ok((FenceView { lower, upper: Some(upper) }, p3)),
                }
            },
        },
    }
}

pub open spec fn p_version(data: Seq<u8>, pos: int) -> Result<(VersionView, int), CowBeTreeError> {
    match p_u64(data, pos) {
        Err(e) => Err(e),
        Ok((commit_ts, p1)) => match p_u8(data, p1) {
            Err(e) => Err(e),
            Ok((flag, p2)) => if flag > 1 {
                corrupt("bad version deletion flag")
            } else {
                match p_bytes32(data, p2) {
                    Err(e) => Err(e),
                    Ok((value, p3)) => Ok(
                        (VersionView { commit_ts, value, deleted: flag == 1 }, p3),
                    ),
                }
            },
        },
    }
}

pub open spec fn p_message(data: Seq<u8>, pos: int) -> Result<(MessageView, int), CowBeTreeError> {
    match p_bytes16(data, pos) {
        Err(e) => Err(e),
        Ok((key, p1)) => match p_version(data, p1) {
            Err(e) => Err(e),
            Ok((version, p2)) => Ok((MessageView { key, version }, p2)),
        },
    }
}

/// `n` items, one behind the other.
pub open spec fn p_list<A>(
    data: Seq<u8>,
    pos: int,
    n: nat,
    p: spec_fn(Seq<u8>, int) -> Result<(A, int), CowBeTreeError>,
) -> Result<(Seq<A>, int), CowBeTreeError>
    decreases n,
{
    if n == 0 {
        Ok((Seq::empty(), pos))
    } else {
        match p(data, pos) {
            Err(e) => Err(e),
            Ok((x, p1)) => match p_list(data, p1, (n - 1) as nat, p) {
                Err(e) => Err(e),
                Ok((xs, p2)) => Ok((seq![x] + xs, p2)),
            },
        }
    }
}

/// A reading of the items behind `acc`, taken together with `acc`.
pub open spec fn prepend<A>(
    acc: Seq<A>,
    r: Result<(Seq<A>, int), CowBeTreeError>,
) -> Result<(Seq<A>, int), CowBeTreeError> {
    match r {
        Ok((xs, p)) => Ok((acc + xs, p)),
        Err(e) => Err(e),
    }
}

pub open spec fn p_versions(data: Seq<u8>, pos: int, n: nat) -> Result<
    (Seq<VersionView>, int),
    CowBeTreeError,
> {
    p_list(data, pos, n, |d: Seq<u8>, q: int| p_version(d, q))
}

pub open spec fn p_messages(data: Seq<u8>, pos: int, n: nat) -> Result<
    (Seq<MessageView>, int),
    CowBeTreeError,
> {
    p_list(data, pos, n, |d: Seq<u8>, q: int| p_message(d, q))
}

pub open spec fn p_keys(data: Seq<u8>, pos: int, n: nat) -> Result<
    (Seq<Seq<u8>>, int),
    CowBeTreeError,
> {
    p_list(data, pos, n, |d: Seq<u8>, q: int| p_bytes16(d, q))
}

pub open spec fn p_words(data: Seq<u8>, pos: int, n: nat) -> Result<
    (Seq<u64>, int),
    CowBeTreeError,
> {
    p_list(data, pos, n, |d: Seq<u8>, q: int| p_u64(d, q))
}

pub open spec fn p_entry(data: Seq<u8>, pos: int) -> Result<(EntryView, int), CowBeTreeError> {
    match p_bytes16(data, pos) {
        Err(e) => Err(e),
        Ok((key, p1)) => match p_u16(data, p1) {
            Err(e) => Err(e),
            Ok((n, p2)) => match p_versions(data, p2, n as nat) {
                Err(e) => Err(e),
                Ok((versions, p3)) => Ok((EntryView { key, versions }, p3)),
            },
        },
    }
}

/// Where the directory of a leaf body begins.
pub open spec fn p_dir_start(body_len: int, entry_count: int) -> Result<int, CowBeTreeError> {
    if entry_count * 4 > usize::MAX {
        corrupt("leaf directory length overflow")
    } else if entry_count * 4 > body_len {
        corrupt("leaf directory extends before body start")
    } else {
        Ok(body_len - entry_count * 4)
    }
}

/// The offset of entry `idx`, as the directory at `dir` gives it.
pub open spec fn p_dir_offset(data: Seq<u8>, dir: int, idx: int) -> Result<int, CowBeTreeError> {
    if dir + idx * 4 + 4 <= data.len() {
        let offset = bytes::of_le32(data.subrange(dir + idx * 4, dir + idx * 4 + 4)) as int;
        if offset >= dir {
            corrupt("leaf entry offset points into directory")
        } else {
            Ok(offset)
        }
    } else if dir + idx * 4 + 4 > usize::MAX {
        corrupt("leaf directory offset overflow")
    } else {
        corrupt("leaf directory read out of bounds")
    }
}

/// `n` leaf entries from `pos` on, the first of them being entry `idx`.
pub open spec fn p_entries(data: Seq<u8>, dir: int, pos: int, idx: int, n: nat) -> Result<
    (Seq<EntryView>, int),
    CowBeTreeError,
>
    decreases n,
{
    if n == 0 {
        Ok((Seq::empty(), pos))
    } else {
        match p_dir_offset(data, dir, idx) {
            Err(e) => Err(e),
            Ok(offset) => if offset != pos {
                corrupt("leaf entry offset directory mismatch")
            } else {
                match p_entry(data, pos) {
                    Err(e) => Err(e),
                    Ok((entry, p1)) => match p_entries(data, dir, p1, idx + 1, (n - 1) as nat) {
                        Err(e) => Err(e),
                        Ok((rest, p2)) => Ok((seq![entry] + rest, p2)),
                    },
                }
            },
        }
    }
}

/// The entry count of a leaf body at `pos`, the position behind it, and where
/// the directory begins.
pub open spec fn p_leaf_header(data: Seq<u8>, pos: int) -> Result<(int, int, int), CowBeTreeError> {
    match p_u16(data, pos) {
        Err(e) => Err(e),
        Ok((n, p1)) => match p_dir_start(data.len() as int, n as int) {
            Err(e) => Err(e),
            Ok(dir) => if p1 > dir {
                corrupt("leaf directory overlaps entry header")
            } else {
                Ok((n as int, p1, dir))
            },
        },
    }
}

pub open spec fn p_leaf(data: Seq<u8>, pos: int, fence: FenceView) -> Result<
    NodeView,
    CowBeTreeError,
> {
    match p_leaf_header(data, pos) {
        Err(e) => Err(e),
        Ok((n, p1, dir)) => match p_entries(data, dir, p1, 0, n as nat) {
            Err(e) => Err(e),
            Ok((entries, p2)) => if p2 != dir {
                corrupt("leaf entries do not end at offset directory")
            } else if !node::sorted_entries(entries) {
                corrupt("leaf keys are not strictly sorted")
            } else {
                Ok(NodeView::Leaf { fence, entries })
            },
        },
    }
}

/// The counts of children, separators and messages of an internal body at
/// `pos`, and the position behind them.
pub open spec fn p_internal_header(data: Seq<u8>, pos: int) -> Result<
    (int, int, int, int),
    CowBeTreeError,
> {
    match p_u16(data, pos) {
        Err(e) => Err(e),
        Ok((children, p1)) => match p_u16(data, p1) {
            Err(e) => Err(e),
            Ok((separators, p2)) => match p_u16(data, p2) {
                Err(e) => Err(e),
                Ok((messages, p3)) => if children == 0 {
                    Err(CowBeTreeError::EmptyInternalPage)
                } else if separators + 1 != children {
                    corrupt("internal separator count does not match child count")
                } else {
                    Ok((children as int, separators as int, messages as int, p3))
                },
            },
        },
    }
}

pub open spec fn p_internal(data: Seq<u8>, pos: int, fence: FenceView) -> Result<
    NodeView,
    CowBeTreeError,
> {
    match p_internal_header(data, pos) {
        Err(e) => Err(e),
        Ok((nc, ns, nb, p1)) => match p_words(data, p1, nc as nat) {
            Err(e) => Err(e),
            Ok((children, p2)) => match p_keys(data, p2, ns as nat) {
                Err(e) => Err(e),
                Ok((separators, p3)) => if !node::sorted_keys(separators) {
                    corrupt("internal separators are not strictly sorted")
                } else {
                    match p_messages(data, p3, nb as nat) {
                        Err(e) => Err(e),
                        Ok((buffer, p4)) => if p4 != data.len() {
                            corrupt("internal buffer length mismatch")
                        } else {
                            Ok(NodeView::Internal { fence, children, separators, buffer })
                        },
                    }
                },
            },
        },
    }
}

/// The kind and the body of a page.
pub open spec fn p_page(page: Seq<u8>) -> Result<(PageKind, Seq<u8>), CowBeTreeError> {
    if page.len() < HEADER_SIZE {
        corrupt("page shorter than header")
    } else if bytes::of_le32(page.subrange(MAGIC_OFF as int, MAGIC_OFF + 4)) != PAGE_MAGIC {
        corrupt("bad page magic")
    } else if page[VERSION_OFF as int] != PAGE_VERSION {
        corrupt("unsupported page version")
    } else {
        match node::kind_of_byte(page[KIND_OFF as int]) {
            None => corrupt("bad page kind"),
            Some(kind) => {
                let body_len = bytes::of_le32(page.subrange(BODY_LEN_OFF as int, BODY_LEN_OFF + 4));
                if HEADER_SIZE + body_len > page.len() {
                    corrupt("page body extends past page end")
                } else {
                    Ok((kind, page.subrange(HEADER_SIZE as int, HEADER_SIZE + body_len)))
                }
            },
        }
    }
}

/// The node that a page holds.
pub open spec fn parse_page(page: Seq<u8>) -> Result<NodeView, CowBeTreeError> {
    match p_page(page) {
        Err(e) => Err(e),
        Ok((kind, body)) => match p_fence(body, 0) {
            Err(e) => Err(e),
            Ok((fence, pos)) => match kind {
                PageKind::Leaf => p_leaf(body, pos, fence),
                PageKind::Internal => p_internal(body, pos, fence),
            },
        },
    }
}

// ---------------------------------------------------------------------------
// Writing.

pub open spec fn enc_bytes16(b: Seq<u8>) -> Seq<u8> {
    bytes::le16(b.len() as u16) + b
}

pub open spec fn enc_bytes32(b: Seq<u8>) -> Seq<u8> {
    bytes::le32(b.len() as u32) + b
}

pub open spec fn enc_fence(fence: FenceView) -> Seq<u8> {
    enc_bytes16(fence.lower) + (match fence.upper {
        Some(u) => enc_bytes16(u),
        None => bytes::le16(NONE_FENCE_LEN),
    })
}

pub open spec fn flag_byte(b: bool) -> u8 {
    if b {
        1
    } else {
        0
    }
}

pub open spec fn enc_version(v: VersionView) -> Seq<u8> {
    bytes::le64(v.commit_ts) + (seq![flag_byte(v.deleted)] + enc_bytes32(v.value))
}

pub open spec fn enc_versions(vs: Seq<VersionView>) -> Seq<u8> {
    flat(vs, |v: VersionView| enc_version(v))
}

pub open spec fn enc_message(m: MessageView) -> Seq<u8> {
    enc_bytes16(m.key) + enc_version(m.version)
}

pub open spec fn enc_messages(ms: Seq<MessageView>) -> Seq<u8> {
    flat(ms, |m: MessageView| enc_message(m))
}

pub open spec fn enc_keys(ks: Seq<Seq<u8>>) -> Seq<u8> {
    flat(ks, |k: Seq<u8>| enc_bytes16(k))
}

pub open spec fn enc_words(ws: Seq<u64>) -> Seq<u8> {
    flat(ws, |w: u64| bytes::le64(w))
}

pub open spec fn enc_entry(e: EntryView) -> Seq<u8> {
    enc_bytes16(e.key) + (bytes::le16(e.versions.len() as u16) + enc_versions(e.versions))
}

pub open spec fn enc_entries(es: Seq<EntryView>) -> Seq<u8> {
    flat(es, |e: EntryView| enc_entry(e))
}

/// The offset of entry `i` in a body whose entries begin at `base`.
pub open spec fn entry_offset(base: int, es: Seq<EntryView>, i: int) -> int {
    base + enc_entries(es.take(i)).len()
}

pub open spec fn entry_offsets(base: int, es: Seq<EntryView>) -> Seq<u32> {
    Seq::new(es.len(), |i: int| entry_offset(base, es, i) as u32)
}

pub open spec fn enc_offsets(offsets: Seq<u32>) -> Seq<u8> {
    flat(offsets, |o: u32| bytes::le32(o))
}

/// Where the entries of a leaf body begin.
pub open spec fn leaf_base(fence: FenceView) -> int {
    enc_fence(fence).len() as int + 2
}

/// The body of a leaf page.
pub open spec fn leaf_body(fence: FenceView, entries: Seq<EntryView>) -> Seq<u8> {
    enc_fence(fence) + (bytes::le16(entries.len() as u16) + (enc_entries(entries) + enc_offsets(
        entry_offsets(leaf_base(fence), entries),
    )))
}

/// The body of an internal page.
pub open spec fn internal_body(
    fence: FenceView,
    children: Seq<u64>,
    separators: Seq<Seq<u8>>,
    buffer: Seq<MessageView>,
) -> Seq<u8> {
    enc_fence(fence) + (bytes::le16(children.len() as u16) + (bytes::le16(separators.len() as u16)
        + (bytes::le16(buffer.len() as u16) + (enc_words(children) + (enc_keys(separators)
        + enc_messages(buffer))))))
}

pub open spec fn zeros(len: nat) -> Seq<u8> {
    Seq::new(len, |i: int| 0u8)
}

/// A page of `len` bytes with the given kind, item count and body.
pub open spec fn page_image(kind: PageKind, count: int, body: Seq<u8>, len: nat) -> Seq<u8> {
    let p1 = bytes::patch(zeros(len), COUNT_OFF as int, bytes::le16(count as u16));
    let p2 = bytes::patch(p1, BODY_LEN_OFF as int, bytes::le32(body.len() as u32));
    let p3 = bytes::patch(p2, MAGIC_OFF as int, bytes::le32(PAGE_MAGIC));
    let p4 = bytes::patch(p3, VERSION_OFF as int, seq![PAGE_VERSION]);
    let p5 = bytes::patch(p4, KIND_OFF as int, seq![node::kind_byte(kind)]);
    bytes::patch(p5, HEADER_SIZE as int, body)
}

/// The body of a node's page.
pub open spec fn node_body(n: NodeView) -> Seq<u8> {
    match n {
        NodeView::Leaf { fence, entries } => leaf_body(fence, entries),
        NodeView::Internal { fence, children, separators, buffer } => internal_body(
            fence,
            children,
            separators,
            buffer,
        ),
    }
}

pub open spec fn node_kind(n: NodeView) -> PageKind {
    match n {
        NodeView::Leaf { .. } => PageKind::Leaf,
        NodeView::Internal { .. } => PageKind::Internal,
    }
}

pub open spec fn node_count(n: NodeView) -> int {
    match n {
        NodeView::Leaf { entries, .. } => entries.len() as int,
        NodeView::Internal { children, .. } => children.len() as int,
    }
}

// ---------------------------------------------------------------------------
// What can be written so that it can be read back.

pub open spec fn fence_fits(fence: FenceView) -> bool {
    fence.lower.len() <= u16::MAX && (fence.upper matches Some(u) ==> u.len() < NONE_FENCE_LEN)
}

pub open spec fn version_fits(v: VersionView) -> bool {
    v.value.len() <= u32::MAX
}

pub open spec fn message_fits(m: MessageView) -> bool {
    m.key.len() <= u16::MAX && version_fits(m.version)
}

pub open spec fn entry_fits(e: EntryView) -> bool {
    &&& e.key.len() <= u16::MAX
    &&& e.versions.len() <= u16::MAX
    &&& forall|i: int| 0 <= i < e.versions.len() ==> version_fits(#[trigger] e.versions[i])
}

pub open spec fn leaf_fits(fence: FenceView, entries: Seq<EntryView>) -> bool {
    &&& fence_fits(fence)
    &&& entries.len() <= u16::MAX
    &&& forall|i: int| 0 <= i < entries.len() ==> entry_fits(#[trigger] entries[i])
    &&& forall|i: int|
        0 <= i < entries.len() ==> #[trigger] entry_offset(leaf_base(fence), entries, i) <= u32::MAX
}

pub open spec fn internal_fits(
    fence: FenceView,
    children: Seq<u64>,
    separators: Seq<Seq<u8>>,
    buffer: Seq<MessageView>,
) -> bool {
    &&& fence_fits(fence)
    &&& 1 <= children.len() <= u16::MAX
    &&& separators.len() + 1 == children.len()
    &&& buffer.len() <= u16::MAX
    &&& forall|i: int| 0 <= i < separators.len() ==> (#[trigger] separators[i]).len() <= u16::MAX
    &&& forall|i: int| 0 <= i < buffer.len() ==> message_fits(#[trigger] buffer[i])
}

/// The node can be written on a page large enough, and read back.
pub open spec fn node_fits(n: NodeView) -> bool {
    match n {
        NodeView::Leaf { fence, entries } => leaf_fits(fence, entries) && node::sorted_entries(
            entries,
        ),
        NodeView::Internal { fence, children, separators, buffer } => internal_fits(
            fence,
            children,
            separators,
            buffer,
        ) && node::sorted_keys(separators),
    }
}

} // verus!
