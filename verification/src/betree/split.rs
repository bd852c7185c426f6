//! Splitting a leaf page by copying its entries, as they lie, into two pages.
use vstd::prelude::*;

use crate::betree::course;
use crate::betree::layout;
use crate::betree::layout_laws;
use crate::betree::lookup;
use crate::betree::lookup::LeafPageReader;
use crate::betree::message;
use crate::betree::node;
use crate::betree::node::{CowBeTreeError, EntryView, Fence, FenceView, NodeView, PageKind};
use crate::betree::writer;
use crate::betree::writer::BodyWriter;
use crate::bytes;
use crate::page_id::PAGE_SIZE;

verus! {

broadcast use bytes::group_le;

/// What a leaf split made.
#[derive(Debug, PartialEq, Eq)]
pub struct SplitLeafResult {
    pub separator: Vec<u8>,
    pub left_count: usize,
    pub right_count: usize,
}

/// The bytes of `count` entries of a leaf body, from entry `idx` on.
pub open spec fn raw_list(body: Seq<u8>, dir: int, n: int, idx: int, count: nat) -> Result<
    Seq<Seq<u8>>,
    CowBeTreeError,
>
    decreases count,
{
    if count == 0 {
        Ok(Seq::empty())
    } else {
        match lookup::raw_entry(body, dir, n, idx) {
            Err(e) => Err(e),
            Ok(raw) => match raw_list(body, dir, n, idx + 1, (count - 1) as nat) {
                Err(e) => Err(e),
                Ok(rest) => Ok(seq![raw] + rest),
            },
        }
    }
}

/// The bytes, one behind the other.
pub open spec fn joined(raws: Seq<Seq<u8>>) -> Seq<u8> {
    layout::flat(raws, |r: Seq<u8>| r)
}

pub open spec fn raw_offsets(base: int, raws: Seq<Seq<u8>>) -> Seq<u32> {
    Seq::new(raws.len(), |i: int| (base + joined(raws.take(i)).len()) as u32)
}

/// A leaf body made of entries as they lie.
pub open spec fn raw_leaf_body(fence: FenceView, raws: Seq<Seq<u8>>) -> Seq<u8> {
    layout::enc_fence(fence) + (bytes::le16(raws.len() as u16) + (joined(raws)
        + layout::enc_offsets(raw_offsets(layout::leaf_base(fence), raws))))
}

/// The entries `[start, end)` of a leaf body that a page of `capacity` bytes is
/// built from, or why it cannot be built.
pub open spec fn build_plan(
    body: Seq<u8>,
    dir: int,
    n: int,
    fence: FenceView,
    start: int,
    end: int,
    capacity: int,
) -> Result<Seq<Seq<u8>>, CowBeTreeError> {
    if start > end {
        layout::corrupt("entry range underflow")
    } else if start == end {
        layout::corrupt("cannot build leaf page from empty entry range")
    } else {
        match raw_list(body, dir, n, start, (end - start) as nat) {
            Err(e) => Err(e),
            Ok(raws) => {
                let count = end - start;
                let total = joined(raws).len();
                let fence_len = message::clamp_usize(layout::enc_fence(fence).len() as int);
                let body_len = fence_len + 2 + total + 4 * count;
                if total > usize::MAX {
                    layout::corrupt("entry bytes overflow")
                } else if 4 * count > usize::MAX {
                    layout::corrupt("leaf directory length overflow")
                } else if body_len > usize::MAX {
                    layout::corrupt("leaf body length overflow")
                } else if layout::HEADER_SIZE + body_len > usize::MAX {
                    layout::corrupt("page length overflow")
                } else if layout::HEADER_SIZE + body_len > capacity {
                    Err(
                        CowBeTreeError::PageOverflow {
                            kind: "leaf",
                            needed: (layout::HEADER_SIZE + body_len) as usize,
                            capacity: capacity as usize,
                        },
                    )
                } else if count > u16::MAX {
                    layout::corrupt("page item count too large")
                } else if body_len > u32::MAX {
                    layout::corrupt("page body too large")
                } else if writer::fence_error(fence) is Some {
                    Err(writer::fence_error(fence)->0)
                } else {
                    Ok(raws)
                }
            },
        }
    }
}

/// The bytes of the entries of a leaf node are their encodings.
proof fn raw_list_of_leaf(
    data: Seq<u8>,
    base: int,
    es: Seq<EntryView>,
    start: int,
    end: int,
)
    requires
        layout::at(data, base, layout::enc_entries(es)),
        layout::at(
            data,
            base + layout::enc_entries(es).len(),
            layout::enc_offsets(layout::entry_offsets(base, es)),
        ),
        forall|j: int| 0 <= j < es.len() ==> layout::entry_fits(#[trigger] es[j]),
        forall|j: int|
            0 <= j < es.len() ==> #[trigger] layout::entry_offset(base, es, j) <= u32::MAX,
        0 <= start <= end <= es.len(),
    ensures
        raw_list(
            data,
            (base + layout::enc_entries(es).len()) as int,
            es.len() as int,
            start,
            (end - start) as nat,
        ) == Ok::<_, CowBeTreeError>(
            Seq::new((end - start) as nat, |i: int| layout::enc_entry(es[start + i])),
        ),
    decreases end - start,
{
    let dir = (base + layout::enc_entries(es).len()) as int;
    let encs = Seq::new((end - start) as nat, |i: int| layout::enc_entry(es[start + i]));
    if start == end {
        assert(encs =~= Seq::<Seq<u8>>::empty());
    } else {
        raw_list_of_leaf(data, base, es, start + 1, end);
        layout_laws::entries_written(data, base, es, start);
        let off = layout::entry_offset(base, es, start);
        assert(layout::p_dir_offset(data, dir, start) == Ok::<_, CowBeTreeError>(off));
        if start + 1 < es.len() {
            assert(layout::p_dir_offset(data, dir, start + 1) == Ok::<_, CowBeTreeError>(
                layout::entry_offset(base, es, start + 1),
            ));
        } else {
            assert(es.take(start + 1) =~= es);
        }
        let rest = Seq::new((end - start - 1) as nat, |i: int| layout::enc_entry(es[start + 1 + i]));
        assert(encs =~= seq![layout::enc_entry(es[start])] + rest);
    }
}

proof fn joined_encodings(es: Seq<EntryView>)
    ensures
        joined(Seq::new(es.len(), |i: int| layout::enc_entry(es[i]))) == layout::enc_entries(es),
    decreases es.len(),
{
    let encs = Seq::new(es.len(), |i: int| layout::enc_entry(es[i]));
    if es.len() > 0 {
        let rest = es.skip(1);
        joined_encodings(rest);
        assert(encs.skip(1) =~= Seq::new(rest.len(), |i: int| layout::enc_entry(rest[i])));
    }
}

/// A body made of the encodings of entries is the body of their leaf.
proof fn raw_body_of_leaf(fence: FenceView, es: Seq<EntryView>)
    ensures
        raw_leaf_body(fence, Seq::new(es.len(), |i: int| layout::enc_entry(es[i])))
            == layout::leaf_body(fence, es),
{
    let encs = Seq::new(es.len(), |i: int| layout::enc_entry(es[i]));
    joined_encodings(es);
    let base = layout::leaf_base(fence);
    assert forall|i: int| 0 <= i < es.len() implies raw_offsets(base, encs)[i]
        == layout::entry_offsets(base, es)[i] by {
        let t = es.take(i);
        joined_encodings(t);
        assert(encs.take(i) =~= Seq::new(t.len(), |j: int| layout::enc_entry(t[j])));
    }
    assert(raw_offsets(base, encs) =~= layout::entry_offsets(base, es));
}

/// A page built from entries `[start, end)` of a page that holds a leaf, with a
/// fence of its own, holds the leaf of these entries.
#[verifier::rlimit(60)]
#[verifier::spinoff_prover]
pub proof fn built_page_holds(
    src: Seq<u8>,
    fence: FenceView,
    start: int,
    end: int,
    capacity: nat,
)
    requires
        layout::parse_page(src) is Ok,
        layout::parse_page(src)->Ok_0 is Leaf,
        0 <= start < end <= layout::parse_page(src)->Ok_0->entries.len(),
        layout::fence_fits(fence),
        ({
            let es = layout::parse_page(src)->Ok_0->entries;
            let body = layout::p_page(src)->Ok_0.1;
            build_plan(
                body,
                body.len() - 4 * es.len(),
                es.len() as int,
                fence,
                start,
                end,
                capacity as int,
            ) is Ok
        }),
    ensures
        ({
            let es = layout::parse_page(src)->Ok_0->entries;
            let body = layout::p_page(src)->Ok_0.1;
            let raws = build_plan(
                body,
                body.len() - 4 * es.len(),
                es.len() as int,
                fence,
                start,
                end,
                capacity as int,
            )->Ok_0;
            &&& layout::parse_page(
                layout::page_image(
                    PageKind::Leaf,
                    end - start,
                    raw_leaf_body(fence, raws),
                    capacity,
                ),
            ) == Ok::<_, CowBeTreeError>(
                NodeView::Leaf { fence, entries: es.subrange(start, end) },
            )
            &&& raw_leaf_body(fence, raws) == layout::leaf_body(fence, es.subrange(start, end))
        }),
{
    layout_laws::read_page_is_canonical(src);
    let es = layout::parse_page(src)->Ok_0->entries;
    let f0 = layout::parse_page(src)->Ok_0->Leaf_fence;
    let body = layout::p_page(src)->Ok_0.1;
    let base = layout::leaf_base(f0);
    layout_laws::leaf_written(f0, es);
    let dir = body.len() - 4 * es.len();
    raw_list_of_leaf(body, base, es, start, end);
    let sub = es.subrange(start, end);
    let raws = build_plan(body, dir, es.len() as int, fence, start, end, capacity as int)->Ok_0;
    let encs = Seq::new(sub.len(), |i: int| layout::enc_entry(sub[i]));
    assert(raws =~= encs);
    raw_body_of_leaf(fence, sub);
    joined_encodings(sub);
    let n2 = NodeView::Leaf { fence, entries: sub };
    assert(node::sorted_entries(sub)) by {
        assert forall|i: int, j: int|
            #![trigger sub[i], sub[j]]
            0 <= i < j < sub.len() implies bytes::lex_lt(sub[i].key, sub[j].key) by {
            assert(bytes::lex_lt(es[start + i].key, es[start + j].key));
        }
    }
    let base2 = layout::leaf_base(fence);
    let offsets = layout::entry_offsets(base2, sub);
    layout::flat_fixed(offsets, |o: u32| bytes::le32(o), 4);
    assert(layout::leaf_body(fence, sub).len() == base2 + layout::enc_entries(sub).len() + 4
        * sub.len());
    assert(layout::leaf_fits(fence, sub)) by {
        assert forall|i: int| 0 <= i < sub.len() implies layout::entry_fits(#[trigger] sub[i]) by {
            assert(layout::entry_fits(es[start + i]));
        }
        assert forall|i: int| 0 <= i < sub.len() implies #[trigger] layout::entry_offset(
            base2,
            sub,
            i,
        ) <= u32::MAX by {
            layout::flat_split(sub, i, |e: EntryView| layout::enc_entry(e));
        }
    }
    layout_laws::written_page_is_read_back(n2, capacity);
}

/// Bytes that a fence takes up.
pub fn fence_encoded_len(fence: &Fence) -> (r: usize)
    ensures
        r == message::clamp_usize(layout::enc_fence(fence@).len() as int),
{
    let two: usize = 2;
    let lower_len: usize = two.saturating_add(fence.lower.len());
    let upper_len: usize = match &fence.upper {
        Some(upper) => two.saturating_add(upper.len()),
        None => 2,
    };
    lower_len.saturating_add(upper_len)
}

/// Build a leaf page from the entries `[start, end)` of another, as they lie. The
/// page is left alone where it cannot be built.
pub fn build_leaf_page_from_src(
    dst: &mut [u8],
    fence: &Fence,
    src: &LeafPageReader<'_>,
    start: usize,
    end: usize,
) -> (r: Result<usize, CowBeTreeError>)
    requires
        src.wf(),
    ensures
        match build_plan(
            src.body(),
            src.dir(),
            src.count(),
            fence@,
            start as int,
            end as int,
            old(dst)@.len() as int,
        ) {
            Err(e) => r is Err && r->Err_0 == e && final(dst)@ == old(dst)@,
            Ok(raws) => r is Ok && r->Ok_0 == layout::HEADER_SIZE + raw_leaf_body(
                fence@,
                raws,
            ).len() && final(dst)@ == layout::page_image(
                PageKind::Leaf,
                end - start,
                raw_leaf_body(fence@, raws),
                old(dst)@.len(),
            ),
        },
{
    if start > end {
        return Err(CowBeTreeError::CorruptPage("entry range underflow"));
    }
    let count: usize = end - start;
    if count == 0 {
        return Err(CowBeTreeError::CorruptPage("cannot build leaf page from empty entry range"));
    }
    let ghost body = src.body();
    let ghost dir = src.dir();
    let ghost n = src.count();
    let ghost all = raw_list(body, dir, n, start as int, count as nat);
    let size: usize = dst.len();
    let mut block = BodyWriter::new();
    let mut lens: Vec<usize> = Vec::new();
    let ghost mut raws: Seq<Seq<u8>> = Seq::empty();
    let ghost id = |r: Seq<u8>| r;
    let mut idx: usize = start;
    proof {
        if all is Ok {
            assert(raws + all->Ok_0 =~= all->Ok_0);
        }
        assert(joined(raws) =~= Seq::<u8>::empty());
    }
    while idx < end
        invariant
            start <= idx <= end,
            count == end - start,
            src.wf(),
            body == src.body(),
            dir == src.dir(),
            n == src.count(),
            size == dst@.len(),
            dst@ == old(dst)@,
            all == raw_list(body, dir, n, start as int, count as nat),
            id == (|r: Seq<u8>| r),
            block.data@ == joined(raws),
            raws.len() == idx - start,
            lens@.len() == raws.len(),
            forall|k: int|
                0 <= k < lens@.len() ==> #[trigger] lens@[k] == joined(raws.take(k)).len(),
            all == (match raw_list(body, dir, n, idx as int, (end - idx) as nat) {
                Ok(rest) => Ok(raws + rest),
                Err(e) => Err(e),
            }),
        decreases end - idx,
    {
        let ghost here = raw_list(body, dir, n, idx as int, (end - idx) as nat);
        let raw = src.entry_raw(idx)?;
        let ghost before = raws;
        lens.push(block.data.len());
        block.push_bytes(raw);
        proof {
            let tail = raw_list(body, dir, n, idx + 1, (end - idx - 1) as nat);
            if tail is Ok {
                assert(raws + (seq![raw@] + tail->Ok_0) =~= raws.push(raw@) + tail->Ok_0);
            }
            layout::flat_push(raws, raw@, id);
            raws = raws.push(raw@);
            assert(block.data@ == joined(raws));
            assert forall|k: int| 0 <= k < lens@.len() implies #[trigger] lens@[k] == joined(
                raws.take(k),
            ).len() by {
                if k < before.len() {
                    assert(raws.take(k) =~= before.take(k));
                } else {
                    assert(raws.take(k) =~= before);
                }
            }
        }
        idx += 1;
    }
    proof {
        assert(raws + Seq::<Seq<u8>>::empty() =~= raws);
    }
    let fence_len: usize = fence_encoded_len(fence);
    let entry_bytes_total: usize = block.data.len();
    let directory_len: usize = match count.checked_mul(layout::LEAF_DIR_ENTRY_SIZE) {
        Some(len) => len,
        None => {
            return Err(CowBeTreeError::CorruptPage("leaf directory length overflow"));
        },
    };
    let header_len: usize = match fence_len.checked_add(2) {
        Some(len) => len,
        None => {
            return Err(CowBeTreeError::CorruptPage("leaf body length overflow"));
        },
    };
    let with_entries: usize = match header_len.checked_add(entry_bytes_total) {
        Some(len) => len,
        None => {
            return Err(CowBeTreeError::CorruptPage("leaf body length overflow"));
        },
    };
    let body_len: usize = match with_entries.checked_add(directory_len) {
        Some(len) => len,
        None => {
            return Err(CowBeTreeError::CorruptPage("leaf body length overflow"));
        },
    };
    let needed: usize = match layout::HEADER_SIZE.checked_add(body_len) {
        Some(len) => len,
        None => {
            return Err(CowBeTreeError::CorruptPage("page length overflow"));
        },
    };
    if needed > size {
        return Err(writer::page_overflow("leaf", needed, size));
    }
    if count > 0xffff {
        return Err(CowBeTreeError::CorruptPage("page item count too large"));
    }
    if body_len as u64 > 0xffff_ffff {
        return Err(CowBeTreeError::CorruptPage("page body too large"));
    }
    let mut out = BodyWriter::new();
    writer::encode_fence(&mut out, fence)?;
    out.push_u16_raw(count as u16);
    let entries_start: usize = out.data.len();
    let ghost base = layout::leaf_base(fence@);
    assert(entries_start == base);
    out.push_bytes(block.data.as_slice());
    let ghost full = out.data@;
    let ghost offsets = raw_offsets(base, raws);
    let ghost g = |o: u32| bytes::le32(o);
    let mut k: usize = 0;
    proof {
        assert(offsets.take(0) =~= Seq::<u32>::empty());
        assert(full + layout::flat(offsets.take(0), g) =~= full);
    }
    while k < lens.len()
        invariant
            k <= lens@.len(),
            lens@.len() == raws.len(),
            offsets == raw_offsets(base, raws),
            entries_start == base,
            id == (|r: Seq<u8>| r),
            g == (|o: u32| bytes::le32(o)),
            base + joined(raws).len() <= u32::MAX,
            forall|j: int|
                0 <= j < lens@.len() ==> #[trigger] lens@[j] == joined(raws.take(j)).len(),
            out.data@ == full + layout::flat(offsets.take(k as int), g),
        decreases lens@.len() - k,
    {
        proof {
            layout::flat_split(raws, k as int, id);
            layout::flat_split(offsets, k as int, g);
        }
        let offset: usize = entries_start + lens[k];
        out.push_u32_raw(offset as u32);
        assert(out.data@ =~= full + layout::flat(offsets.take(k + 1), g));
        k += 1;
    }
    proof {
        assert(offsets.take(k as int) =~= offsets);
        layout::flat_fixed(offsets, g, 4);
        assert(out.data@ =~= raw_leaf_body(fence@, raws));
    }
    let body_bytes = out.into_inner();
    writer::finish_page(dst, PageKind::Leaf, count, body_bytes)
}

/// Split a leaf page: entries before `mid` go to one page, the others to a
/// second. The separator is the key of entry `mid`.
pub fn split_leaf_into_pages(
    src: &[u8],
    dst_left: &mut [u8],
    dst_right: &mut [u8],
    fence_left: &Fence,
    fence_right: &Fence,
    mid: usize,
) -> (r: Result<SplitLeafResult, CowBeTreeError>)
    ensures
        split_outcome(
            src@,
            old(dst_left)@,
            old(dst_right)@,
            final(dst_left)@,
            final(dst_right)@,
            fence_left@,
            fence_right@,
            mid as int,
            r,
        ),
{
    let reader = LeafPageReader::new(src)?;
    let entry_count: usize = reader.entry_count();
    if mid == 0 || mid >= entry_count {
        return Err(CowBeTreeError::CorruptPage("invalid leaf split point"));
    }
    let separator = bytes::copy_bytes(reader.entry_key(mid)?);
    let _left = build_leaf_page_from_src(dst_left, fence_left, &reader, 0, mid)?;
    let _right = build_leaf_page_from_src(dst_right, fence_right, &reader, mid, entry_count)?;
    Ok(SplitLeafResult { separator, left_count: mid, right_count: entry_count - mid })
}

/// How a split of a leaf page came out: the error, or the two pages, the key of
/// entry `mid` and the entry counts. A page that could not be built is left
/// alone.
pub open spec fn split_outcome(
    src: Seq<u8>,
    left0: Seq<u8>,
    right0: Seq<u8>,
    left: Seq<u8>,
    right: Seq<u8>,
    fence_left: FenceView,
    fence_right: FenceView,
    mid: int,
    r: Result<SplitLeafResult, CowBeTreeError>,
) -> bool {
    match layout::p_page(src) {
        Err(e) => r is Err && r->Err_0 == e && left == left0 && right == right0,
        Ok((kind, body)) => if kind is Internal {
            r is Err && r->Err_0 == CowBeTreeError::CorruptPage("expected leaf page") && left
                == left0 && right == right0
        } else {
            match layout::p_fence(body, 0) {
                Err(e) => r is Err && r->Err_0 == e && left == left0 && right == right0,
                Ok((_, pos)) => match layout::p_leaf_header(body, pos) {
                    Err(e) => r is Err && r->Err_0 == e && left == left0 && right == right0,
                    Ok((n, _, dir)) => if mid <= 0 || mid >= n {
                        r is Err && r->Err_0 == CowBeTreeError::CorruptPage(
                            "invalid leaf split point",
                        ) && left == left0 && right == right0
                    } else {
                        split_bodies(
                            body,
                            dir,
                            n,
                            left0,
                            right0,
                            left,
                            right,
                            fence_left,
                            fence_right,
                            mid,
                            r,
                        )
                    },
                },
            }
        },
    }
}

/// How a split of a leaf body at a valid split point came out.
pub open spec fn split_bodies(
    body: Seq<u8>,
    dir: int,
    n: int,
    left0: Seq<u8>,
    right0: Seq<u8>,
    left: Seq<u8>,
    right: Seq<u8>,
    fence_left: FenceView,
    fence_right: FenceView,
    mid: int,
    r: Result<SplitLeafResult, CowBeTreeError>,
) -> bool {
    match layout::p_dir_offset(body, dir, mid) {
        Err(e) => r is Err && r->Err_0 == e && left == left0 && right == right0,
        Ok(offset) => match layout::p_bytes16(body, offset) {
            Err(e) => r is Err && r->Err_0 == e && left == left0 && right == right0,
            Ok((separator, _)) => match build_plan(
                body,
                dir,
                n,
                fence_left,
                0,
                mid,
                left0.len() as int,
            ) {
                Err(e) => r is Err && r->Err_0 == e && left == left0 && right == right0,
                Ok(raws_left) => {
                    &&& left == layout::page_image(
                        PageKind::Leaf,
                        mid,
                        raw_leaf_body(fence_left, raws_left),
                        left0.len(),
                    )
                    &&& match build_plan(
                        body,
                        dir,
                        n,
                        fence_right,
                        mid,
                        n,
                        right0.len() as int,
                    ) {
                        Err(e) => r is Err && r->Err_0 == e && right == right0,
                        Ok(raws_right) => {
                            &&& right == layout::page_image(
                                PageKind::Leaf,
                                n - mid,
                                raw_leaf_body(fence_right, raws_right),
                                right0.len(),
                            )
                            &&& r is Ok
                            &&& r->Ok_0.separator@ == separator
                            &&& r->Ok_0.left_count == mid
                            &&& r->Ok_0.right_count == n - mid
                        },
                    }
                },
            },
        },
    }
}

/// A split of a page that holds a leaf deals its entries out: those before `mid`
/// to the left page, the others to the right page; the separator is the first
/// key of the right page.
pub proof fn split_deals_out(
    src: Seq<u8>,
    left0: Seq<u8>,
    right0: Seq<u8>,
    left: Seq<u8>,
    right: Seq<u8>,
    fence_left: FenceView,
    fence_right: FenceView,
    mid: int,
    r: Result<SplitLeafResult, CowBeTreeError>,
)
    requires
        layout::parse_page(src) is Ok,
        layout::parse_page(src)->Ok_0 is Leaf,
        split_outcome(src, left0, right0, left, right, fence_left, fence_right, mid, r),
        r is Ok,
        layout::fence_fits(fence_left),
        layout::fence_fits(fence_right),
    ensures
        ({
            let es = layout::parse_page(src)->Ok_0->entries;
            &&& 0 < mid < es.len()
            &&& layout::parse_page(left) == Ok::<_, CowBeTreeError>(
                NodeView::Leaf { fence: fence_left, entries: es.take(mid) },
            )
            &&& layout::parse_page(right) == Ok::<_, CowBeTreeError>(
                NodeView::Leaf { fence: fence_right, entries: es.skip(mid) },
            )
            &&& r->Ok_0.separator@ == es[mid].key
            &&& r->Ok_0.left_count == mid
            &&& r->Ok_0.right_count == es.len() - mid
            &&& left.len() == left0.len()
            &&& right.len() == right0.len()
        }),
{
    layout_laws::read_page_is_canonical(src);
    let es = layout::parse_page(src)->Ok_0->entries;
    let f0 = layout::parse_page(src)->Ok_0->Leaf_fence;
    let body = layout::p_page(src)->Ok_0.1;
    let base = layout::leaf_base(f0);
    layout_laws::leaf_written(f0, es);
    let dir = (base + layout::enc_entries(es).len()) as int;
    assert(dir == body.len() - 4 * es.len());
    layout_laws::entries_written(body, base, es, 0);
    let off = layout::entry_offset(base, es, mid);
    assert(layout::p_dir_offset(body, dir, mid) == Ok::<_, CowBeTreeError>(off));
    layout_laws::entry_written(body, off, es[mid]);
    built_page_holds(src, fence_left, 0, mid, left0.len());
    built_page_holds(src, fence_right, mid, es.len() as int, right0.len());
    assert(es.take(mid) =~= es.subrange(0, mid));
    assert(es.skip(mid) =~= es.subrange(mid, es.len() as int));
}

/// Nothing but its length can keep a part of a leaf that stands on a page off
/// another page.
proof fn part_can_be_written(
    f0: FenceView,
    es: Seq<EntryView>,
    fence: FenceView,
    start: int,
    end: int,
)
    requires
        layout::leaf_fits(f0, es),
        layout::leaf_body(f0, es).len() <= PAGE_SIZE,
        0 <= start < end <= es.len(),
        writer::fence_error(fence) is None,
    ensures
        writer::leaf_error(fence, es.subrange(start, end)) is None,
        layout::enc_entries(es.subrange(start, end)).len() <= PAGE_SIZE,
{
    let sub = es.subrange(start, end);
    let base = layout::leaf_base(fence);
    let f = |e: EntryView| layout::enc_entry(e);
    layout::flat_add(es.take(start), es.skip(start), f);
    assert(es.take(start) + es.skip(start) =~= es);
    layout::flat_add(sub, es.skip(end), f);
    assert(sub + es.skip(end) =~= es.skip(start));
    assert(layout::enc_entries(es).len() <= PAGE_SIZE);
    assert forall|j: int| 0 <= j < sub.len() implies layout::entry_fits(#[trigger] sub[j])
        && layout::entry_offset(base, sub, j) <= u32::MAX by {
        assert(layout::entry_fits(es[start + j]));
        layout::flat_add(sub.take(j), sub.skip(j), f);
        assert(sub.take(j) + sub.skip(j) =~= sub);
    }
    writer::entries_error_none(base, sub, 0);
}

/// A page is built from entries of a page that holds a leaf exactly if their leaf
/// has a place on it.
proof fn build_comes_out(src: Seq<u8>, fence: FenceView, start: int, end: int)
    requires
        layout::parse_page(src) is Ok,
        layout::parse_page(src)->Ok_0 is Leaf,
        src.len() == PAGE_SIZE,
        0 <= start < end <= layout::parse_page(src)->Ok_0->entries.len(),
        writer::fence_error(fence) is None,
    ensures
        ({
            let es = layout::parse_page(src)->Ok_0->entries;
            let body = layout::p_page(src)->Ok_0.1;
            let plan = build_plan(
                body,
                body.len() - 4 * es.len(),
                es.len() as int,
                fence,
                start,
                end,
                PAGE_SIZE as int,
            );
            match course::placed(NodeView::Leaf { fence, entries: es.subrange(start, end) }) {
                Ok(_) => plan is Ok,
                Err(e) => plan is Err && plan->Err_0 == e,
            }
        }),
{
    layout_laws::read_page_is_canonical(src);
    let es = layout::parse_page(src)->Ok_0->entries;
    let f0 = layout::parse_page(src)->Ok_0->Leaf_fence;
    let body = layout::p_page(src)->Ok_0.1;
    let base = layout::leaf_base(f0);
    layout_laws::leaf_written(f0, es);
    raw_list_of_leaf(body, base, es, start, end);
    let sub = es.subrange(start, end);
    let raws = Seq::new((end - start) as nat, |i: int| layout::enc_entry(es[start + i]));
    let encs = Seq::new(sub.len(), |i: int| layout::enc_entry(sub[i]));
    assert(raws =~= encs);
    joined_encodings(sub);
    let offsets = layout::entry_offsets(layout::leaf_base(fence), sub);
    layout::flat_fixed(offsets, |o: u32| bytes::le32(o), 4);
    assert(layout::leaf_body(fence, sub).len() == layout::leaf_base(fence) + layout::enc_entries(
        sub,
    ).len() + 4 * sub.len());
    part_can_be_written(f0, es, fence, start, end);
}

/// A page that holds a leaf is split exactly if both halves have a place on a page.
#[verifier::rlimit(40)]
#[verifier::spinoff_prover]
pub proof fn split_comes_out(
    src: Seq<u8>,
    left0: Seq<u8>,
    right0: Seq<u8>,
    left: Seq<u8>,
    right: Seq<u8>,
    fence_left: FenceView,
    fence_right: FenceView,
    mid: int,
    r: Result<SplitLeafResult, CowBeTreeError>,
)
    requires
        layout::parse_page(src) is Ok,
        layout::parse_page(src)->Ok_0 is Leaf,
        src.len() == PAGE_SIZE,
        0 < mid < layout::parse_page(src)->Ok_0->entries.len(),
        left0.len() == PAGE_SIZE,
        right0.len() == PAGE_SIZE,
        writer::fence_error(fence_left) is None,
        writer::fence_error(fence_right) is None,
        split_outcome(src, left0, right0, left, right, fence_left, fence_right, mid, r),
    ensures
        ({
            let es = layout::parse_page(src)->Ok_0->entries;
            match course::both_placed(
                NodeView::Leaf { fence: fence_left, entries: es.take(mid) },
                NodeView::Leaf { fence: fence_right, entries: es.skip(mid) },
            ) {
                Ok(_) => r is Ok,
                Err(e) => r is Err && r->Err_0 == e,
            }
        }),
{
    layout_laws::read_page_is_canonical(src);
    let es = layout::parse_page(src)->Ok_0->entries;
    let f0 = layout::parse_page(src)->Ok_0->Leaf_fence;
    let body = layout::p_page(src)->Ok_0.1;
    let base = layout::leaf_base(f0);
    layout_laws::leaf_written(f0, es);
    let dir = (base + layout::enc_entries(es).len()) as int;
    assert(dir == body.len() - 4 * es.len());
    layout_laws::entries_written(body, base, es, 0);
    let off = layout::entry_offset(base, es, mid);
    assert(layout::p_dir_offset(body, dir, mid) == Ok::<_, CowBeTreeError>(off));
    layout_laws::entry_written(body, off, es[mid]);
    assert(es.take(mid) =~= es.subrange(0, mid));
    assert(es.skip(mid) =~= es.subrange(mid, es.len() as int));
    build_comes_out(src, fence_left, 0, mid);
    build_comes_out(src, fence_right, mid, es.len() as int);
}

} // verus!
