//! Appending entries behind the last entry of a leaf page, in place. A page
//! changes only where the append is made; where it is declined or fails, the
//! page is left alone.
use vstd::prelude::*;

use crate::betree::append;
use crate::betree::layout;
use crate::betree::layout_laws;
use crate::betree::lookup;
use crate::betree::message;
use crate::betree::message::{BufferedMessage, MessageView};
use crate::betree::node;
use crate::betree::node::{CowBeTreeError, EntryView, FenceView, NodeView, PageKind};
use crate::betree::reader;
use crate::betree::writer;
use crate::betree::writer::BodyWriter;
use crate::bytes;

verus! {

broadcast use bytes::group_le;

/// An append to a leaf.
#[derive(Clone, Copy, Debug, PartialEq, Eq, Structural)]
pub struct LeafEntryAppend {
    pub entry_count: usize,
    pub body_len: usize,
    pub entry_bytes: usize,
    pub message_count: usize,
}

/// What an append to a leaf page needs to know of it.
pub struct LeafAppendLayout {
    pub entry_count: usize,
    pub entry_count_offset: usize,
    pub directory_start: usize,
    pub entry_offsets: Vec<u32>,
    pub upper_offset: Option<usize>,
    pub upper_len: usize,
}

#[verifier::ext_equal]
pub struct LeafLayoutView {
    pub entry_count: int,
    pub count_off: int,
    pub dir: int,
    pub offsets: Seq<u32>,
    pub upper: Option<(int, int)>,
}

impl View for LeafAppendLayout {
    type V = LeafLayoutView;

    open spec fn view(&self) -> LeafLayoutView {
        LeafLayoutView {
            entry_count: self.entry_count as int,
            count_off: self.entry_count_offset as int,
            dir: self.directory_start as int,
            offsets: self.entry_offsets@,
            upper: match self.upper_offset {
                Some(off) => Some((off as int, self.upper_len as int)),
                None => None,
            },
        }
    }
}

// ---------------------------------------------------------------------------
// Where an append would go.

/// The `n` offsets in a directory from entry `idx` on.
pub open spec fn p_offsets(data: Seq<u8>, dir: int, idx: int, n: nat) -> Result<
    Seq<u32>,
    CowBeTreeError,
>
    decreases n,
{
    if n == 0 {
        Ok(Seq::empty())
    } else {
        match layout::p_dir_offset(data, dir, idx) {
            Err(e) => Err(e),
            Ok(offset) => match p_offsets(data, dir, idx + 1, (n - 1) as nat) {
                Err(e) => Err(e),
                Ok(rest) => Ok(seq![offset as u32] + rest),
            },
        }
    }
}

/// What stands behind the fence of a leaf body; `None` where its last key is
/// not below `key`.
pub open spec fn layout_behind_fence(
    body: Seq<u8>,
    pos: int,
    upper: Option<(int, int)>,
    key: Seq<u8>,
) -> Result<Option<LeafLayoutView>, CowBeTreeError> {
    match layout::p_leaf_header(body, pos) {
        Err(e) => Err(e),
        Ok((n, _, dir)) => match p_offsets(body, dir, 0, n as nat) {
            Err(e) => Err(e),
            Ok(offsets) => {
                let l = LeafLayoutView { entry_count: n, count_off: pos, dir, offsets, upper };
                if n == 0 {
                    Ok(Some(l))
                } else {
                    match layout::p_bytes16(body, offsets[n - 1] as int) {
                        Err(e) => Err(e),
                        Ok((last, _)) => if bytes::lex_lt(last, key) {
                            Ok(Some(l))
                        } else {
                            Ok(None)
                        },
                    }
                }
            },
        },
    }
}

/// Where an entry for `key` would be appended to a page; `None` where the page
/// is no leaf, the key lies outside its fence, or the last key is not below it.
pub open spec fn leaf_layout(page: Seq<u8>, key: Seq<u8>) -> Result<
    Option<LeafLayoutView>,
    CowBeTreeError,
> {
    match layout::p_page(page) {
        Err(e) => Err(e),
        Ok((kind, body)) => if kind is Internal {
            Ok(None)
        } else {
            match layout::p_bytes16(body, 0) {
                Err(e) => Err(e),
                Ok((lower, p1)) => if bytes::lex_lt(key, lower) {
                    Ok(None)
                } else {
                    match layout::p_u16(body, p1) {
                        Err(e) => Err(e),
                        Ok((len, p2)) => if len == layout::NONE_FENCE_LEN {
                            layout_behind_fence(body, p2, None, key)
                        } else {
                            match layout::p_exact(body, p2, len as int) {
                                Err(e) => Err(e),
                                Ok((upper, p3)) => if !bytes::lex_lt(key, upper) {
                                    Ok(None)
                                } else {
                                    layout_behind_fence(body, p3, Some((p2, len as int)), key)
                                },
                            }
                        },
                    }
                },
            }
        },
    }
}

/// The upper fence of a page, as its layout gives its place.
pub open spec fn layout_upper(page: Seq<u8>, l: LeafLayoutView) -> Option<Seq<u8>> {
    match l.upper {
        Some((off, len)) => Some(
            page.subrange(layout::HEADER_SIZE + off, layout::HEADER_SIZE + off + len),
        ),
        None => None,
    }
}

/// The layout of the page of a leaf node.
pub open spec fn node_layout(fence: FenceView, entries: Seq<EntryView>) -> LeafLayoutView {
    LeafLayoutView {
        entry_count: entries.len() as int,
        count_off: layout::enc_fence(fence).len() as int,
        dir: layout::leaf_base(fence) + layout::enc_entries(entries).len(),
        offsets: layout::entry_offsets(layout::leaf_base(fence), entries),
        upper: match fence.upper {
            Some(u) => Some((4 + fence.lower.len() as int, u.len() as int)),
            None => None,
        },
    }
}

/// `key` may be appended to a leaf: it lies in the fence and above the last key.
pub open spec fn appendable(fence: FenceView, entries: Seq<EntryView>, key: Seq<u8>) -> bool {
    node::in_fence(fence, key) && (entries.len() == 0 || bytes::lex_lt(entries.last().key, key))
}

proof fn p_offsets_of_leaf(data: Seq<u8>, base: int, es: Seq<EntryView>, i: int)
    requires
        layout::at(data, base, layout::enc_entries(es)),
        layout::at(
            data,
            base + layout::enc_entries(es).len(),
            layout::enc_offsets(layout::entry_offsets(base, es)),
        ),
        forall|j: int| 0 <= j < es.len() ==> layout::entry_fits(#[trigger] es[j]),
        forall|j: int|
            0 <= j < es.len() ==> #[trigger] layout::entry_offset(base, es, j) <= u32::MAX,
        0 <= i <= es.len(),
    ensures
        p_offsets(
            data,
            (base + layout::enc_entries(es).len()) as int,
            i,
            (es.len() - i) as nat,
        ) == Ok::<_, CowBeTreeError>(layout::entry_offsets(base, es).skip(i)),
    decreases es.len() - i,
{
    let offsets = layout::entry_offsets(base, es);
    if i == es.len() {
        assert(offsets.skip(i) =~= Seq::<u32>::empty());
    } else {
        p_offsets_of_leaf(data, base, es, i + 1);
        layout_laws::entries_written(data, base, es, i);
        assert(layout::p_dir_offset(data, (base + layout::enc_entries(es).len()) as int, i) == Ok::<
            _,
            CowBeTreeError,
        >(layout::entry_offset(base, es, i)));
        assert(offsets.skip(i) =~= seq![offsets[i]] + offsets.skip(i + 1));
    }
}

/// The append layout of a page that holds a node.
#[verifier::rlimit(60)]
#[verifier::spinoff_prover]
pub proof fn leaf_layout_of_node(page: Seq<u8>, key: Seq<u8>)
    requires
        layout::parse_page(page) is Ok,
    ensures
        match layout::parse_page(page)->Ok_0 {
            NodeView::Internal { .. } => leaf_layout(page, key) == Ok::<
                Option<LeafLayoutView>,
                CowBeTreeError,
            >(None),
            NodeView::Leaf { fence, entries } => leaf_layout(page, key) == Ok::<_, CowBeTreeError>(
                if appendable(fence, entries, key) {
                    Some(node_layout(fence, entries))
                } else {
                    None
                },
            ) && layout_upper(page, node_layout(fence, entries)) == fence.upper,
        },
{
    layout_laws::read_page_is_canonical(page);
    match layout::parse_page(page)->Ok_0 {
        NodeView::Internal { .. } => {},
        NodeView::Leaf { fence, entries } => {
            let body = layout::leaf_body(fence, entries);
            let base = layout::leaf_base(fence);
            let dir = (base + layout::enc_entries(entries).len()) as int;
            layout_laws::leaf_written(fence, entries);
            let p1 = 2 + fence.lower.len() as int;
            assert(layout::p_bytes16(body, 0) == Ok::<_, CowBeTreeError>((fence.lower, p1)));
            p_offsets_of_leaf(body, base, entries, 0);
            let offsets = layout::entry_offsets(base, entries);
            assert(offsets.skip(0) =~= offsets);
            if entries.len() > 0 {
                let n = entries.len() as int;
                layout_laws::entries_written(body, base, entries, 0);
                let off = layout::entry_offset(base, entries, n - 1);
                assert(layout::p_dir_offset(body, dir, n - 1) == Ok::<_, CowBeTreeError>(off));
                layout_laws::entry_written(body, off, entries[n - 1]);
                assert(offsets[n - 1] as int == off);
            }
            match fence.upper {
                Some(u) => {
                    assert(layout::p_exact(body, p1 + 2, u.len() as int)->Ok_0.0 == u);
                    assert(page.subrange(
                        layout::HEADER_SIZE + (p1 + 2),
                        layout::HEADER_SIZE + (p1 + 2) + u.len(),
                    ) =~= body.subrange(p1 + 2, p1 + 2 + u.len()));
                },
                None => {},
            }
        },
    }
}

// ---------------------------------------------------------------------------
// What an append makes.

/// The entry that a message becomes.
pub open spec fn single_entry(m: MessageView) -> EntryView {
    EntryView { key: m.key, versions: seq![m.version] }
}

pub open spec fn single_entries(ms: Seq<MessageView>) -> Seq<EntryView> {
    Seq::new(ms.len(), |i: int| single_entry(ms[i]))
}

/// Bytes that a message takes up as an entry.
pub open spec fn single_len(m: MessageView) -> int {
    17int + m.key.len() + m.version.value.len()
}

pub open spec fn enc_singles(ms: Seq<MessageView>) -> Seq<u8> {
    layout::enc_entries(single_entries(ms))
}

pub open spec fn entry_len_error(m: MessageView) -> Option<CowBeTreeError> {
    if m.key.len() > u16::MAX {
        Some(CowBeTreeError::CorruptPage("leaf key too large"))
    } else if !layout::version_fits(m.version) {
        Some(CowBeTreeError::CorruptPage("version value too large"))
    } else {
        None
    }
}

pub open spec fn appended_offsets(l: LeafLayoutView, ms: Seq<MessageView>) -> Seq<u32> {
    l.offsets + layout::entry_offsets(l.dir, single_entries(ms))
}

/// The length of the body after an append.
pub open spec fn appended_body_len(l: LeafLayoutView, ms: Seq<MessageView>) -> int {
    l.dir + enc_singles(ms).len() + 4 * (l.entry_count + ms.len())
}

/// A page after the messages were appended to it as entries.
pub open spec fn leaf_appended(page: Seq<u8>, l: LeafLayoutView, ms: Seq<MessageView>) -> Seq<u8> {
    let count = bytes::le16((l.entry_count + ms.len()) as u16);
    let p1 = bytes::patch(
        page,
        layout::HEADER_SIZE + l.dir,
        enc_singles(ms) + layout::enc_offsets(appended_offsets(l, ms)),
    );
    let p2 = bytes::patch(
        p1,
        layout::BODY_LEN_OFF as int,
        bytes::le32(appended_body_len(l, ms) as u32),
    );
    let p3 = bytes::patch(p2, layout::COUNT_OFF as int, count);
    bytes::patch(p3, layout::HEADER_SIZE + l.count_off, count)
}

/// What an append of the messages to a leaf reports.
pub open spec fn leaf_append_result(l: LeafLayoutView, ms: Seq<MessageView>) -> LeafEntryAppend {
    LeafEntryAppend {
        entry_count: (l.entry_count + ms.len()) as usize,
        body_len: appended_body_len(l, ms) as usize,
        entry_bytes: enc_singles(ms).len() as usize,
        message_count: ms.len() as usize,
    }
}

/// What the format has no room for in an append, if anything.
pub open spec fn append_error(l: LeafLayoutView, ms: Seq<MessageView>) -> Option<CowBeTreeError> {
    if l.dir + enc_singles(ms.drop_last()).len() > u32::MAX {
        Some(CowBeTreeError::CorruptPage("leaf entry offset too large"))
    } else if appended_body_len(l, ms) > u32::MAX {
        Some(CowBeTreeError::CorruptPage("leaf page body too large"))
    } else if l.entry_count + ms.len() > u16::MAX {
        Some(CowBeTreeError::CorruptPage("too many leaf entries"))
    } else {
        None
    }
}

pub proof fn enc_single_len(m: MessageView)
    ensures
        layout::enc_entry(single_entry(m)).len() == single_len(m),
{
    layout::flat_one(m.version, |v: message::VersionView| layout::enc_version(v));
}

pub proof fn enc_singles_push(ms: Seq<MessageView>, m: MessageView)
    ensures
        enc_singles(ms.push(m)) == enc_singles(ms) + layout::enc_entry(single_entry(m)),
        enc_singles(ms.push(m)).len() == enc_singles(ms).len() + single_len(m),
{
    assert(single_entries(ms.push(m)) =~= single_entries(ms).push(single_entry(m)));
    layout::flat_push(single_entries(ms), single_entry(m), |e: EntryView| layout::enc_entry(e));
    enc_single_len(m);
}

/// The lengths of the appended entries grow with their number.
pub proof fn enc_singles_take(ms: Seq<MessageView>, i: int)
    requires
        0 <= i < ms.len(),
    ensures
        enc_singles(ms.take(i + 1)) == enc_singles(ms.take(i)) + layout::enc_entry(
            single_entry(ms[i]),
        ),
        enc_singles(ms.take(i + 1)).len() == enc_singles(ms.take(i)).len() + single_len(ms[i]),
{
    assert(ms.take(i + 1) =~= ms.take(i).push(ms[i]));
    enc_singles_push(ms.take(i), ms[i]);
}

proof fn enc_singles_grow(ms: Seq<MessageView>, i: int, j: int)
    requires
        0 <= i <= j <= ms.len(),
    ensures
        enc_singles(ms.take(i)).len() <= enc_singles(ms.take(j)).len(),
    decreases j - i,
{
    if i < j {
        enc_singles_grow(ms, i, j - 1);
        enc_singles_take(ms, j - 1);
    }
}

/// The bytes of a leaf body after entries took the place of its directory, a
/// longer directory was put behind them, and the count was replaced.
proof fn appended_leaf_bytes(
    page: Seq<u8>,
    new: Seq<u8>,
    front: Seq<u8>,
    c1: Seq<u8>,
    c2: Seq<u8>,
    entries: Seq<u8>,
    dir1: Seq<u8>,
    block: Seq<u8>,
    len_bytes: Seq<u8>,
)
    requires
        c1.len() == 2,
        c2.len() == 2,
        len_bytes.len() == 4,
        32 + front.len() + 2 + entries.len() + block.len() <= page.len(),
        32 + front.len() + 2 + entries.len() + dir1.len() <= page.len(),
        page.subrange(32, 32int + (front.len() + 2 + entries.len() + dir1.len())) == front + (c1 + (
        entries + dir1)),
        new == bytes::patch(
            bytes::patch(
                bytes::patch(
                    bytes::patch(page, (32 + (front.len() + 2 + entries.len())) as int, block),
                    10,
                    len_bytes,
                ),
                8,
                c2,
            ),
            (32 + front.len()) as int,
            c2,
        ),
    ensures
        new.subrange(32, 32int + (front.len() + 2 + entries.len() + block.len())) == front + (c2 + (
        entries + block)),
        new.subrange(10, 14) == len_bytes,
        new.len() == page.len(),
        forall|i: int| 14 <= i < 32 ==> new[i] == page[i],
{
    let body = front + (c1 + (entries + dir1));
    let kept = (front.len() + 2 + entries.len()) as int;
    assert forall|i: int| 0 <= i < kept implies page[32 + i] == body[i] by {
        assert(page.subrange(
            32,
            32int + (front.len() + 2 + entries.len() + dir1.len()),
        )[i] == body[i]);
    }
    assert(new.subrange(10, 14) =~= len_bytes);
    let lhs = new.subrange(32, 32int + (front.len() + 2 + entries.len() + block.len()));
    let rhs = front + (c2 + (entries + block));
    assert forall|i: int| 0 <= i < rhs.len() implies lhs[i] == rhs[i] by {
        assert(lhs[i] == new[32 + i]);
        if i < kept {
            assert(page[32 + i] == body[i]);
        }
    }
    assert(lhs =~= rhs);
}

/// The offsets of the entries of a leaf and of those appended to it.
proof fn offsets_of_append(base: int, es: Seq<EntryView>, new: Seq<EntryView>)
    ensures
        layout::entry_offsets(base, es + new) == layout::entry_offsets(base, es)
            + layout::entry_offsets(base + layout::enc_entries(es).len(), new),
        layout::enc_entries(es + new) == layout::enc_entries(es) + layout::enc_entries(new),
{
    let f = |e: EntryView| layout::enc_entry(e);
    layout::flat_add(es, new, f);
    let lhs = layout::entry_offsets(base, es + new);
    let rhs = layout::entry_offsets(base, es) + layout::entry_offsets(
        base + layout::enc_entries(es).len(),
        new,
    );
    assert forall|i: int| 0 <= i < lhs.len() implies lhs[i] == rhs[i] by {
        if i < es.len() {
            assert((es + new).take(i) =~= es.take(i));
        } else {
            assert((es + new).take(i) =~= es + new.take(i - es.len()));
            layout::flat_add(es, new.take(i - es.len()), f);
        }
    }
    assert(lhs =~= rhs);
}

/// A leaf with entries appended to it fits the format.
proof fn append_fits(fence: FenceView, entries: Seq<EntryView>, ms: Seq<MessageView>)
    requires
        layout::leaf_fits(fence, entries),
        ms.len() > 0,
        forall|i: int| 0 <= i < ms.len() ==> entry_len_error(#[trigger] ms[i]) is None,
        append_error(node_layout(fence, entries), ms) is None,
    ensures
        layout::leaf_fits(fence, entries + single_entries(ms)),
{
    let base = layout::leaf_base(fence);
    let singles = single_entries(ms);
    let es2 = entries + singles;
    assert forall|i: int| 0 <= i < es2.len() implies layout::entry_fits(#[trigger] es2[i]) by {
        if i < entries.len() {
            assert(layout::entry_fits(entries[i]));
        } else {
            let m = ms[i - entries.len()];
            assert(entry_len_error(m) is None);
            assert(es2[i] == single_entry(m));
        }
    }
    assert forall|i: int| 0 <= i < es2.len() implies #[trigger] layout::entry_offset(base, es2, i)
        <= u32::MAX by {
        if i < entries.len() {
            assert(es2.take(i) =~= entries.take(i));
            assert(layout::entry_offset(base, entries, i) <= u32::MAX);
        } else {
            let k = i - entries.len();
            assert(es2.take(i) =~= entries + singles.take(k));
            layout::flat_add(entries, singles.take(k), |e: EntryView| layout::enc_entry(e));
            assert(singles.take(k) =~= single_entries(ms.take(k)));
            enc_singles_grow(ms, k, ms.len() - 1);
            assert(ms.take(ms.len() - 1) =~= ms.drop_last());
        }
    }
}

/// The body of the page that an append makes.
proof fn leaf_appended_body(
    page: Seq<u8>,
    fence: FenceView,
    entries: Seq<EntryView>,
    ms: Seq<MessageView>,
)
    requires
        layout::p_page(page) == Ok::<_, CowBeTreeError>(
            (PageKind::Leaf, layout::leaf_body(fence, entries)),
        ),
        appended_body_len(node_layout(fence, entries), ms) <= u32::MAX,
        layout::HEADER_SIZE + appended_body_len(node_layout(fence, entries), ms) <= page.len(),
    ensures
        layout::p_page(leaf_appended(page, node_layout(fence, entries), ms)) == Ok::<
            _,
            CowBeTreeError,
        >((PageKind::Leaf, layout::leaf_body(fence, entries + single_entries(ms)))),
        leaf_appended(page, node_layout(fence, entries), ms).len() == page.len(),
{
    let l = node_layout(fence, entries);
    let new = leaf_appended(page, l, ms);
    let base = layout::leaf_base(fence);
    let singles = single_entries(ms);
    let es2 = entries + singles;
    let body = layout::leaf_body(fence, entries);
    let body2 = layout::leaf_body(fence, es2);
    offsets_of_append(base, entries, singles);
    let ff = layout::enc_fence(fence);
    let c1 = bytes::le16(entries.len() as u16);
    let c2 = bytes::le16(es2.len() as u16);
    let old_entries = layout::enc_entries(entries);
    let old_offsets = layout::entry_offsets(base, entries);
    let dir1 = layout::enc_offsets(old_offsets);
    let new_offsets = appended_offsets(l, ms);
    assert(new_offsets == layout::entry_offsets(base, es2));
    let dir2 = layout::enc_offsets(new_offsets);
    let block = enc_singles(ms) + dir2;
    layout::flat_fixed(new_offsets, |o: u32| bytes::le32(o), 4);
    layout::flat_fixed(old_offsets, |o: u32| bytes::le32(o), 4);
    assert(dir2.len() == 4 * es2.len());
    assert(old_entries + (enc_singles(ms) + dir2) =~= (old_entries + enc_singles(ms)) + dir2);
    assert(body2 == ff + (c2 + (old_entries + block)));
    assert(body == ff + (c1 + (old_entries + dir1)));
    assert(body.len() == ff.len() + 2 + old_entries.len() + dir1.len());
    assert(page.subrange(32, 32int + body.len()) == body);
    appended_leaf_bytes(
        page,
        new,
        ff,
        c1,
        c2,
        old_entries,
        dir1,
        block,
        bytes::le32(appended_body_len(l, ms) as u32),
    );
    append::page_with_new_body(page, new, body2);
}

/// The page that an append makes holds the leaf with the new entries behind its
/// entries.
pub proof fn leaf_appended_holds(
    page: Seq<u8>,
    fence: FenceView,
    entries: Seq<EntryView>,
    ms: Seq<MessageView>,
)
    requires
        layout::parse_page(page) == Ok::<_, CowBeTreeError>(NodeView::Leaf { fence, entries }),
        ms.len() > 0,
        forall|i: int| 0 <= i < ms.len() ==> entry_len_error(#[trigger] ms[i]) is None,
        append_error(node_layout(fence, entries), ms) is None,
        layout::HEADER_SIZE + appended_body_len(node_layout(fence, entries), ms) <= page.len(),
        node::sorted_entries(entries + single_entries(ms)),
    ensures
        layout::parse_page(leaf_appended(page, node_layout(fence, entries), ms)) == Ok::<
            _,
            CowBeTreeError,
        >(NodeView::Leaf { fence, entries: entries + single_entries(ms) }),
        leaf_appended(page, node_layout(fence, entries), ms).len() == page.len(),
{
    layout_laws::read_page_is_canonical(page);
    append_fits(fence, entries, ms);
    leaf_appended_body(page, fence, entries, ms);
    layout_laws::page_holds(
        leaf_appended(page, node_layout(fence, entries), ms),
        NodeView::Leaf { fence, entries: entries + single_entries(ms) },
    );
}

// ---------------------------------------------------------------------------
// Reading the layout.

fn read_offsets(data: &[u8], directory_start: usize, count: usize) -> (r: Result<
    Vec<u32>,
    CowBeTreeError,
>)
    ensures
        match p_offsets(data@, directory_start as int, 0, count as nat) {
            Err(e) => r is Err && r->Err_0 == e,
            Ok(offsets) => r is Ok && r->Ok_0@ == offsets && offsets.len() == count && forall|
                i: int,
            |
                0 <= i < count ==> #[trigger] offsets[i] < directory_start,
        },
{
    let ghost dir = directory_start as int;
    let mut offsets: Vec<u32> = Vec::new();
    let mut i: usize = 0;
    let ghost all = p_offsets(data@, dir, 0, count as nat);
    proof {
        if all is Ok {
            assert(Seq::<u32>::empty() + all->Ok_0 =~= all->Ok_0);
        }
        assert(offsets@ =~= Seq::<u32>::empty());
    }
    while i < count
        invariant
            i <= count,
            dir == directory_start,
            offsets@.len() == i,
            all == p_offsets(data@, dir, 0, count as nat),
            forall|k: int| 0 <= k < i ==> #[trigger] offsets@[k] < dir,
            all == (match p_offsets(data@, dir, i as int, (count - i) as nat) {
                Ok(rest) => Ok(offsets@ + rest),
                Err(e) => Err(e),
            }),
        decreases count - i,
    {
        let ghost before = offsets@;
        let ghost here = p_offsets(data@, dir, i as int, (count - i) as nat);
        let offset: usize = reader::read_leaf_entry_offset(data, directory_start, i)?;
        offsets.push(offset as u32);
        proof {
            let tail = p_offsets(data@, dir, i + 1, (count - i - 1) as nat);
            if tail is Ok {
                assert(before + (seq![offset as u32] + tail->Ok_0) =~= offsets@ + tail->Ok_0);
            }
        }
        i += 1;
    }
    proof {
        assert(offsets@ + Seq::empty() =~= offsets@);
    }
    Ok(offsets)
}

/// Where an entry for `key` would be appended to a page.
pub fn leaf_append_layout(page: &[u8], key: &[u8]) -> (r: Result<
    Option<LeafAppendLayout>,
    CowBeTreeError,
>)
    ensures
        match leaf_layout(page@, key@) {
            Err(e) => r is Err && r->Err_0 == e,
            Ok(None) => r is Ok && r->Ok_0 is None,
            Ok(Some(l)) => r is Ok && r->Ok_0 is Some && r->Ok_0->0@ == l && layout::HEADER_SIZE
                + l.dir + 4 * l.entry_count <= page@.len() && l.entry_count <= u16::MAX && l.dir
                <= u32::MAX && l.offsets.len() == l.entry_count && l.count_off + 2 <= l.dir && (
            l.upper matches Some((off, len)) ==> 0 <= off && 0 <= len && layout::HEADER_SIZE + off
                + len <= page@.len()),
        },
{
    let (kind, mut r0) = reader::page_body_reader(page)?;
    match kind {
        PageKind::Internal => {
            return Ok(None);
        },
        PageKind::Leaf => {},
    }
    let lower = r0.read_bytes_u16_len()?;
    if bytes::key_less(key, lower) {
        return Ok(None);
    }
    let upper_len: u16 = r0.read_u16()?;
    let upper_offset: Option<usize> = if upper_len != layout::NONE_FENCE_LEN {
        Some(r0.pos)
    } else {
        None
    };
    if upper_len != layout::NONE_FENCE_LEN {
        let upper = r0.read_exact(upper_len as usize)?;
        if !bytes::key_less(key, upper) {
            return Ok(None);
        }
    }
    let entry_count_offset: usize = r0.pos;
    let (entry_count, directory_start) = reader::read_leaf_header(&mut r0)?;
    let entry_offsets = read_offsets(r0.data, directory_start, entry_count)?;
    if entry_count > 0 {
        let last: usize = entry_offsets[entry_count - 1] as usize;
        let last_key = lookup::read_leaf_entry_key_at(r0.data, last)?;
        if !bytes::key_less(last_key, key) {
            return Ok(None);
        }
    }
    Ok(
        Some(
            LeafAppendLayout {
                entry_count,
                entry_count_offset,
                directory_start,
                entry_offsets,
                upper_offset,
                upper_len: if upper_len == layout::NONE_FENCE_LEN {
                    0
                } else {
                    upper_len as usize
                },
            },
        ),
    )
}

/// The upper fence of a page, read from the place that its layout gives.
pub fn leaf_append_upper<'a>(page: &'a [u8], l: &LeafAppendLayout) -> (r: Result<
    Option<&'a [u8]>,
    CowBeTreeError,
>)
    ensures
        match l@.upper {
            None => r is Ok && r->Ok_0 is None,
            Some((off, len)) => if layout::HEADER_SIZE + off + len <= page@.len() {
                r is Ok && r->Ok_0 is Some && Some(r->Ok_0->0@) == layout_upper(page@, l@)
            } else if layout::HEADER_SIZE + off + len > usize::MAX {
                r is Err && r->Err_0 == CowBeTreeError::CorruptPage("upper fence offset overflow")
            } else {
                r is Err && r->Err_0 == CowBeTreeError::CorruptPage(
                    "upper fence read out of bounds",
                )
            },
        },
{
    let size: usize = page.len();
    let offset: usize = match l.upper_offset {
        Some(offset) => offset,
        None => {
            return Ok(None);
        },
    };
    let start: usize = match layout::HEADER_SIZE.checked_add(offset) {
        Some(start) => start,
        None => {
            return Err(CowBeTreeError::CorruptPage("upper fence offset overflow"));
        },
    };
    let end: usize = match start.checked_add(l.upper_len) {
        Some(end) => end,
        None => {
            return Err(CowBeTreeError::CorruptPage("upper fence offset overflow"));
        },
    };
    if end > size {
        return Err(CowBeTreeError::CorruptPage("upper fence read out of bounds"));
    }
    Ok(Some(vstd::slice::slice_subrange(page, start, end)))
}

/// Bytes that a message takes up as an entry of a leaf.
pub fn leaf_entry_message_encoded_len(m: &BufferedMessage) -> (r: Result<usize, CowBeTreeError>)
    ensures
        match entry_len_error(m@) {
            Some(e) => r is Err && r->Err_0 == e,
            None => r is Ok && r->Ok_0 == message::clamp_usize(single_len(m@)),
        },
{
    if m.key.len() > 0xffff {
        return Err(CowBeTreeError::CorruptPage("leaf key too large"));
    }
    if m.version.value.len() as u64 > 0xffff_ffff {
        return Err(CowBeTreeError::CorruptPage("version value too large"));
    }
    let fixed: usize = 17;
    Ok(fixed.saturating_add(m.key.len()).saturating_add(m.version.value.len()))
}

// ---------------------------------------------------------------------------
// Deciding on an append.

/// The bytes that the messages from `i` on take up as entries, on top of `acc`;
/// `None` where their keys do not ascend.
pub open spec fn batch_bytes(ms: Seq<MessageView>, i: int, acc: int) -> Result<
    Option<int>,
    CowBeTreeError,
>
    decreases ms.len() - i,
{
    if i >= ms.len() {
        Ok(Some(acc))
    } else if i > 0 && !bytes::lex_lt(ms[i - 1].key, ms[i].key) {
        Ok(None)
    } else if entry_len_error(ms[i]) is Some {
        Err(entry_len_error(ms[i])->0)
    } else if acc + message::clamp_usize(single_len(ms[i])) > usize::MAX {
        layout::corrupt("leaf append length overflow")
    } else {
        batch_bytes(ms, i + 1, acc + message::clamp_usize(single_len(ms[i])))
    }
}

/// Whether a page has room for `ms`, which take up `entry_bytes` as entries.
pub open spec fn room_plan(
    page_len: int,
    l: LeafLayoutView,
    ms: Seq<MessageView>,
    entry_bytes: int,
    max_leaf_entries: int,
) -> Result<Option<LeafLayoutView>, CowBeTreeError> {
    let count = l.entry_count + ms.len();
    if count > usize::MAX {
        layout::corrupt("leaf entry count overflow")
    } else if count > max_leaf_entries {
        Ok(None)
    } else if 4 * count > usize::MAX {
        layout::corrupt("leaf directory length overflow")
    } else if l.dir + entry_bytes + 4 * count > usize::MAX {
        layout::corrupt("leaf body length overflow")
    } else if layout::HEADER_SIZE + l.dir + entry_bytes + 4 * count > page_len {
        Ok(None)
    } else if append_error(l, ms) is Some {
        Err(append_error(l, ms)->0)
    } else {
        Ok(Some(l))
    }
}

/// Whether and where all of `ms` is appended to a page.
pub open spec fn batch_plan(page: Seq<u8>, ms: Seq<MessageView>, max_leaf_entries: int) -> Result<
    Option<LeafLayoutView>,
    CowBeTreeError,
> {
    if ms.len() == 0 {
        Ok(None)
    } else {
        match leaf_layout(page, ms[0].key) {
            Err(e) => Err(e),
            Ok(None) => Ok(None),
            Ok(Some(l)) => match leaf_layout(page, ms.last().key) {
                Err(e) => Err(e),
                Ok(None) => Ok(None),
                Ok(Some(_)) => match batch_bytes(ms, 0, 0) {
                    Err(e) => Err(e),
                    Ok(None) => Ok(None),
                    Ok(Some(entry_bytes)) => room_plan(
                        page.len() as int,
                        l,
                        ms,
                        entry_bytes,
                        max_leaf_entries,
                    ),
                },
            },
        }
    }
}

/// How many of `ms` can be appended, given that the first `i` can and take up
/// `acc` bytes as entries.
pub open spec fn prefix_count(
    page_len: int,
    l: LeafLayoutView,
    upper: Option<Seq<u8>>,
    ms: Seq<MessageView>,
    i: int,
    acc: int,
    max_leaf_entries: int,
) -> Result<int, CowBeTreeError>
    decreases ms.len() - i,
{
    if i >= ms.len() {
        Ok(i)
    } else if i > 0 && !bytes::lex_lt(ms[i - 1].key, ms[i].key) {
        Ok(i)
    } else if upper is Some && !bytes::lex_lt(ms[i].key, upper->0) {
        Ok(i)
    } else if l.entry_count + i + 1 > max_leaf_entries {
        Ok(i)
    } else if entry_len_error(ms[i]) is Some {
        Err(entry_len_error(ms[i])->0)
    } else {
        let len = message::clamp_usize(single_len(ms[i]));
        let body = l.dir + acc + len + 4 * (l.entry_count + i + 1);
        if body > usize::MAX {
            layout::corrupt("leaf body length overflow")
        } else if layout::HEADER_SIZE + body > page_len {
            Ok(i)
        } else {
            prefix_count(page_len, l, upper, ms, i + 1, acc + len, max_leaf_entries)
        }
    }
}

/// Whether and where a front part of `ms` is appended to a page, and how many
/// messages it has.
pub open spec fn prefix_plan(page: Seq<u8>, ms: Seq<MessageView>, max_leaf_entries: int) -> Result<
    Option<(LeafLayoutView, int)>,
    CowBeTreeError,
> {
    if ms.len() == 0 {
        Ok(None)
    } else {
        match leaf_layout(page, ms[0].key) {
            Err(e) => Err(e),
            Ok(None) => Ok(None),
            Ok(Some(l)) => match prefix_count(
                page.len() as int,
                l,
                layout_upper(page, l),
                ms,
                0,
                0,
                max_leaf_entries,
            ) {
                Err(e) => Err(e),
                Ok(k) => if k == 0 {
                    Ok(None)
                } else if append_error(l, ms.take(k)) is Some {
                    Err(append_error(l, ms.take(k))->0)
                } else {
                    Ok(Some((l, k)))
                },
            },
        }
    }
}

/// Where all of a batch is to be appended, its keys ascend, its messages fit the
/// format, and their entries have room.
pub proof fn batch_bytes_sum(ms: Seq<MessageView>, i: int)
    requires
        0 <= i <= ms.len(),
        forall|j: int| 0 <= j < i ==> entry_len_error(#[trigger] ms[j]) is None,
        forall|j: int| 0 < j < i ==> bytes::lex_lt(ms[j - 1].key, (#[trigger] ms[j]).key),
        enc_singles(ms.take(i)).len() < usize::MAX,
    ensures
        batch_bytes(ms, i, enc_singles(ms.take(i)).len() as int) matches Ok(Some(b)) ==> {
            &&& b <= usize::MAX
            &&& forall|j: int| 0 <= j < ms.len() ==> entry_len_error(#[trigger] ms[j]) is None
            &&& forall|j: int|
                0 < j < ms.len() ==> bytes::lex_lt(ms[j - 1].key, (#[trigger] ms[j]).key)
            &&& b < usize::MAX ==> b == enc_singles(ms).len()
            &&& b == usize::MAX ==> enc_singles(ms).len() >= usize::MAX
        },
    decreases ms.len() - i,
{
    if i < ms.len() {
        enc_singles_take(ms, i);
        let acc = enc_singles(ms.take(i)).len() as int;
        let acc2 = acc + message::clamp_usize(single_len(ms[i]));
        if batch_bytes(ms, i, acc) is Ok && batch_bytes(ms, i, acc)->Ok_0 is Some {
            if acc2 < usize::MAX {
                assert(acc2 == enc_singles(ms.take(i + 1)).len());
                batch_bytes_sum(ms, i + 1);
            } else {
                if i + 1 < ms.len() {
                    assert(single_len(ms[i + 1]) >= 17);
                    assert(batch_bytes(ms, i + 1, acc2) is Err || batch_bytes(
                        ms,
                        i + 1,
                        acc2,
                    )->Ok_0 is None);
                } else {
                    assert(ms.take(i + 1) =~= ms);
                }
            }
        }
    } else {
        assert(ms.take(i) =~= ms);
    }
}

/// Ascending neighbours make an ascending list.
pub proof fn ascending_messages(ms: Seq<MessageView>, a: int, b: int)
    requires
        forall|j: int| 0 < j < ms.len() ==> bytes::lex_lt(ms[j - 1].key, (#[trigger] ms[j]).key),
        0 <= a < b < ms.len(),
    ensures
        bytes::lex_lt(ms[a].key, ms[b].key),
    decreases b - a,
{
    assert(bytes::lex_lt(ms[b - 1].key, ms[b].key));
    if a < b - 1 {
        ascending_messages(ms, a, b - 1);
        bytes::lex_lt_transitive(ms[a].key, ms[b - 1].key, ms[b].key);
    }
}

/// Keys between two keys of a fence lie in the fence.
pub proof fn between_in_fence(fence: FenceView, ms: Seq<MessageView>, i: int)
    requires
        forall|j: int| 0 < j < ms.len() ==> bytes::lex_lt(ms[j - 1].key, (#[trigger] ms[j]).key),
        0 <= i < ms.len(),
        node::in_fence(fence, ms[0].key),
        node::in_fence(fence, ms.last().key),
    ensures
        node::in_fence(fence, ms[i].key),
{
    if 0 < i {
        ascending_messages(ms, 0, i);
        if bytes::lex_lt(ms[i].key, fence.lower) {
            bytes::lex_lt_transitive(ms[0].key, ms[i].key, fence.lower);
        }
    }
    if i < ms.len() - 1 && fence.upper is Some {
        ascending_messages(ms, i, ms.len() - 1);
        bytes::lex_lt_transitive(ms[i].key, ms.last().key, fence.upper->0);
    }
}

proof fn appended_entries_sorted(entries: Seq<EntryView>, ms: Seq<MessageView>)
    requires
        node::sorted_entries(entries),
        ms.len() > 0,
        entries.len() == 0 || bytes::lex_lt(entries.last().key, ms[0].key),
        forall|j: int| 0 < j < ms.len() ==> bytes::lex_lt(ms[j - 1].key, (#[trigger] ms[j]).key),
    ensures
        node::sorted_entries(entries + single_entries(ms)),
{
    let es2 = entries + single_entries(ms);
    let n = entries.len() as int;
    assert forall|i: int, j: int|
        #![trigger es2[i], es2[j]]
        0 <= i < j < es2.len() implies bytes::lex_lt(es2[i].key, es2[j].key) by {
        if j < n {
            assert(bytes::lex_lt(entries[i].key, entries[j].key));
        } else if i >= n {
            ascending_messages(ms, i - n, j - n);
        } else {
            if i < n - 1 {
                assert(bytes::lex_lt(entries[i].key, entries[n - 1].key));
                bytes::lex_lt_transitive(entries[i].key, entries[n - 1].key, ms[0].key);
            }
            if j > n {
                ascending_messages(ms, 0, j - n);
                bytes::lex_lt_transitive(entries[i].key, ms[0].key, ms[j - n].key);
            }
        }
    }
}

/// An append of a batch to a page that holds a leaf: the keys of the batch lie
/// in the leaf's fence, ascend and lie above its last key, and the page then
/// holds the leaf with one new entry per message behind its entries.
pub proof fn batch_append_pushes(page: Seq<u8>, ms: Seq<MessageView>, max_leaf_entries: int)
    requires
        layout::parse_page(page) is Ok,
        page.len() <= usize::MAX,
        batch_plan(page, ms, max_leaf_entries) is Ok,
        batch_plan(page, ms, max_leaf_entries)->Ok_0 is Some,
    ensures
        layout::parse_page(page)->Ok_0 matches NodeView::Leaf { fence, entries } && {
            &&& batch_plan(page, ms, max_leaf_entries)->Ok_0->0 == node_layout(fence, entries)
            &&& layout::parse_page(leaf_appended(page, node_layout(fence, entries), ms)) == Ok::<
                _,
                CowBeTreeError,
            >(NodeView::Leaf { fence, entries: entries + single_entries(ms) })
            &&& leaf_appended(page, node_layout(fence, entries), ms).len() == page.len()
            &&& entries.len() + ms.len() <= max_leaf_entries
            &&& appendable(fence, entries, ms[0].key)
            &&& forall|i: int| 0 <= i < ms.len() ==> node::in_fence(fence, (#[trigger] ms[i]).key)
            &&& node::sorted_entries(entries + single_entries(ms))
        },
{
    leaf_layout_of_node(page, ms[0].key);
    leaf_layout_of_node(page, ms.last().key);
    layout_laws::read_page_is_canonical(page);
    match layout::parse_page(page)->Ok_0 {
        NodeView::Internal { .. } => {},
        NodeView::Leaf { fence, entries } => {
            assert(ms.take(0) =~= Seq::<MessageView>::empty());
            assert(single_entries(ms.take(0)) =~= Seq::<EntryView>::empty());
            assert(enc_singles(ms.take(0)).len() == 0);
            batch_bytes_sum(ms, 0);
            appended_entries_sorted(entries, ms);
            leaf_appended_holds(page, fence, entries, ms);
            assert forall|i: int| 0 <= i < ms.len() implies node::in_fence(
                fence,
                (#[trigger] ms[i]).key,
            ) by {
                between_in_fence(fence, ms, i);
            }
        },
    }
}

/// The front part of a batch that can be appended: its keys ascend and lie below
/// the upper fence, its messages fit the format, and their entries have room.
pub proof fn prefix_count_bounds(
    page_len: int,
    l: LeafLayoutView,
    upper: Option<Seq<u8>>,
    ms: Seq<MessageView>,
    i: int,
    max_leaf_entries: int,
)
    requires
        0 <= i <= ms.len(),
        0 <= l.dir,
        0 <= l.entry_count,
        page_len <= usize::MAX,
        forall|j: int| 0 <= j < i ==> entry_len_error(#[trigger] ms[j]) is None,
        forall|j: int| 0 < j < i ==> bytes::lex_lt(ms[j - 1].key, (#[trigger] ms[j]).key),
        upper is Some ==> forall|j: int|
            0 <= j < i ==> bytes::lex_lt((#[trigger] ms[j]).key, upper->0),
        i > 0 ==> layout::HEADER_SIZE + appended_body_len(l, ms.take(i)) <= page_len,
        i > 0 ==> l.entry_count + i <= max_leaf_entries,
    ensures
        prefix_count(
            page_len,
            l,
            upper,
            ms,
            i,
            enc_singles(ms.take(i)).len() as int,
            max_leaf_entries,
        ) matches Ok(k) ==> {
            &&& i <= k <= ms.len()
            &&& forall|j: int| 0 <= j < k ==> entry_len_error(#[trigger] ms[j]) is None
            &&& forall|j: int| 0 < j < k ==> bytes::lex_lt(ms[j - 1].key, (#[trigger] ms[j]).key)
            &&& upper is Some ==> forall|j: int|
                0 <= j < k ==> bytes::lex_lt((#[trigger] ms[j]).key, upper->0)
            &&& k > 0 ==> layout::HEADER_SIZE + appended_body_len(l, ms.take(k)) <= page_len
            &&& k > 0 ==> l.entry_count + k <= max_leaf_entries
        },
    decreases ms.len() - i,
{
    if i < ms.len() {
        enc_singles_take(ms, i);
        let acc = enc_singles(ms.take(i)).len() as int;
        let len = message::clamp_usize(single_len(ms[i]));
        let stop = (i > 0 && !bytes::lex_lt(ms[i - 1].key, ms[i].key)) || (upper is Some
            && !bytes::lex_lt(ms[i].key, upper->0)) || l.entry_count + i + 1 > max_leaf_entries
            || entry_len_error(ms[i]) is Some || layout::HEADER_SIZE + l.dir + acc + len + 4 * (
        l.entry_count + i + 1) > page_len;
        if !stop {
            assert(len == single_len(ms[i]));
            assert(ms.take(i + 1).len() == i + 1);
            prefix_count_bounds(page_len, l, upper, ms, i + 1, max_leaf_entries);
        }
    }
}

/// An append of a front part of a batch to a page that holds a leaf: the page
/// then holds the leaf with one new entry per appended message behind its
/// entries.
#[verifier::rlimit(60)]
#[verifier::spinoff_prover]
pub proof fn prefix_append_pushes(page: Seq<u8>, ms: Seq<MessageView>, max_leaf_entries: int)
    requires
        layout::parse_page(page) is Ok,
        page.len() <= usize::MAX,
        prefix_plan(page, ms, max_leaf_entries) is Ok,
        prefix_plan(page, ms, max_leaf_entries)->Ok_0 is Some,
    ensures
        layout::parse_page(page)->Ok_0 matches NodeView::Leaf { fence, entries } && {
            let (l, k) = prefix_plan(page, ms, max_leaf_entries)->Ok_0->0;
            &&& l == node_layout(fence, entries)
            &&& 0 < k <= ms.len()
            &&& layout::parse_page(leaf_appended(page, l, ms.take(k))) == Ok::<_, CowBeTreeError>(
                NodeView::Leaf { fence, entries: entries + single_entries(ms.take(k)) },
            )
            &&& leaf_appended(page, l, ms.take(k)).len() == page.len()
            &&& entries.len() + k <= max_leaf_entries
            &&& appendable(fence, entries, ms[0].key)
            &&& forall|i: int| 0 <= i < k ==> node::in_fence(fence, (#[trigger] ms[i]).key)
            &&& node::sorted_entries(entries + single_entries(ms.take(k)))
        },
{
    leaf_layout_of_node(page, ms[0].key);
    layout_laws::read_page_is_canonical(page);
    match layout::parse_page(page)->Ok_0 {
        NodeView::Internal { .. } => {},
        NodeView::Leaf { fence, entries } => {
            let (l, k) = prefix_plan(page, ms, max_leaf_entries)->Ok_0->0;
            assert(ms.take(0) =~= Seq::<MessageView>::empty());
            assert(single_entries(ms.take(0)) =~= Seq::<EntryView>::empty());
            assert(enc_singles(ms.take(0)).len() == 0);
            prefix_count_bounds(
                page.len() as int,
                l,
                layout_upper(page, l),
                ms,
                0,
                max_leaf_entries,
            );
            let front = ms.take(k);
            assert forall|i: int| 0 <= i < front.len() implies entry_len_error(
                #[trigger] front[i],
            ) is None by {
                assert(front[i] == ms[i]);
            }
            assert forall|i: int| 0 < i < front.len() implies bytes::lex_lt(
                front[i - 1].key,
                (#[trigger] front[i]).key,
            ) by {
                assert(front[i] == ms[i]);
            }
            appended_entries_sorted(entries, front);
            leaf_appended_holds(page, fence, entries, front);
            assert forall|i: int| 0 <= i < k implies node::in_fence(
                fence,
                (#[trigger] ms[i]).key,
            ) by {
                assert(front[0] == ms[0]);
                assert(front[i] == ms[i]);
                assert(front.last() == ms[k - 1]);
                if fence.upper is Some {
                    assert(bytes::lex_lt(ms[k - 1].key, fence.upper->0));
                }
                if k > 1 {
                    ascending_messages(front, 0, k - 1);
                    bytes::lex_lt_asymmetric(front[0].key, front.last().key);
                    if bytes::lex_lt(front.last().key, fence.lower) {
                        bytes::lex_lt_transitive(front[0].key, front.last().key, fence.lower);
                    }
                }
                between_in_fence(fence, front, i);
            }
        },
    }
}

// ---------------------------------------------------------------------------
// Appending.

/// Write the entries of the messages and the longer directory over the old
/// directory, and the new counts and body length.
fn write_entries(page: &mut [u8], l: &LeafAppendLayout, messages: &[BufferedMessage], count: usize)
    requires
        0 < count <= messages@.len(),
        ({
            let ms = message::messages_view(messages@).take(count as int);
            &&& forall|i: int| 0 <= i < ms.len() ==> entry_len_error(#[trigger] ms[i]) is None
            &&& append_error(l@, ms) is None
            &&& layout::HEADER_SIZE + appended_body_len(l@, ms) <= old(page)@.len()
            &&& l@.offsets.len() == l@.entry_count
            &&& 0 <= l@.count_off
            &&& l@.count_off + 2 <= l@.dir
        }),
    ensures
        final(page)@ == leaf_appended(
            old(page)@,
            l@,
            message::messages_view(messages@).take(count as int),
        ),
{
    let size: usize = page.len();
    let ghost all = message::messages_view(messages@);
    let ghost ms = all.take(count as int);
    let ghost dir = l.directory_start as int;
    let mut w = BodyWriter::new();
    let mut offsets: Vec<u32> = copy_offsets(&l.entry_offsets);
    let mut i: usize = 0;
    proof {
        assert(single_entries(ms.take(0)) =~= Seq::<EntryView>::empty());
        assert(enc_singles(ms.take(0)) =~= Seq::<u8>::empty());
    }
    while i < count
        invariant
            i <= count <= messages@.len(),
            all == message::messages_view(messages@),
            ms == all.take(count as int),
            dir == l.directory_start,
            append_error(l@, ms) is None,
            layout::HEADER_SIZE + appended_body_len(l@, ms) <= size,
            forall|j: int| 0 <= j < ms.len() ==> entry_len_error(#[trigger] ms[j]) is None,
            w.data@ == enc_singles(ms.take(i as int)),
            offsets@.len() == l@.offsets.len() + i,
            forall|j: int| 0 <= j < l@.offsets.len() ==> #[trigger] offsets@[j] == l@.offsets[j],
            forall|j: int|
                l@.offsets.len() <= j < offsets@.len() ==> #[trigger] offsets@[j]
                    == layout::entry_offset(
                    dir,
                    single_entries(ms),
                    j - l@.offsets.len(),
                ) as u32,
        decreases count - i,
    {
        let ghost before = w.data@;
        let ghost m = ms[i as int];
        proof {
            enc_singles_take(ms, i as int);
            enc_singles_grow(ms, i as int, ms.len() - 1);
            assert(ms.take(ms.len() - 1) =~= ms.drop_last());
            enc_singles_grow(ms, i as int, ms.len() as int);
            assert(ms.take(ms.len() as int) =~= ms);
            assert(single_entries(ms).take(i as int) =~= single_entries(ms.take(i as int)));
            assert(m == messages@[i as int]@);
            assert(entry_len_error(m) is None);
        }
        offsets.push((l.directory_start + w.data.len()) as u32);
        let pushed = push_single(&mut w, &messages[i]);
        assert(w.data@ =~= before + layout::enc_entry(single_entry(m)));
        i += 1;
    }
    let entry_bytes: usize = w.data.len();
    proof {
        assert(ms.take(i as int) =~= ms);
        assert(offsets@ =~= appended_offsets(l@, ms));
    }
    let ghost full = w.data@;
    let ghost g = |o: u32| bytes::le32(o);
    let ghost os = offsets@;
    let mut k: usize = 0;
    proof {
        assert(os.take(0) =~= Seq::<u32>::empty());
        assert(full + layout::flat(os.take(0), g) =~= full);
    }
    while k < offsets.len()
        invariant
            k <= offsets@.len(),
            os == offsets@,
            g == (|o: u32| bytes::le32(o)),
            w.data@ == full + layout::flat(os.take(k as int), g),
        decreases offsets@.len() - k,
    {
        w.push_u32_raw(offsets[k]);
        proof {
            layout::flat_split(os, k as int, g);
            assert(w.data@ =~= full + layout::flat(os.take(k + 1), g));
        }
        k += 1;
    }
    proof {
        assert(os.take(k as int) =~= os);
        layout::flat_fixed(os, g, 4);
        assert(w.data@.len() == enc_singles(ms).len() + 4 * (l@.entry_count + ms.len()));
    }
    let new_entry_count: usize = l.entry_count + count;
    let new_body_len: usize = l.directory_start + w.data.len();
    let block = w.into_inner();
    bytes::write_at(page, layout::HEADER_SIZE + l.directory_start, block.as_slice());
    let len_bytes = vstd::bytes::u32_to_le_bytes(new_body_len as u32);
    bytes::write_at(page, layout::BODY_LEN_OFF, len_bytes.as_slice());
    let count_bytes = vstd::bytes::u16_to_le_bytes(new_entry_count as u16);
    bytes::write_at(page, layout::COUNT_OFF, count_bytes.as_slice());
    bytes::write_at(page, layout::HEADER_SIZE + l.entry_count_offset, count_bytes.as_slice());
}

fn copy_offsets(offsets: &Vec<u32>) -> (r: Vec<u32>)
    ensures
        r@ == offsets@,
{
    vstd::slice::slice_to_vec(offsets.as_slice())
}

/// Write the entry that a message becomes.
fn push_single(w: &mut BodyWriter, m: &BufferedMessage) -> (r: bool)
    requires
        entry_len_error(m@) is None,
    ensures
        final(w).data@ == old(w).data@ + layout::enc_entry(single_entry(m@)),
        r,
{
    let ghost before = w.data@;
    let ok1 = w.push_bytes_with_u16_len(m.key.as_slice(), "leaf key too large").is_ok();
    w.push_u16_raw(1);
    let ok2 = writer::encode_version(w, &m.version).is_ok();
    proof {
        layout::flat_one(m@.version, |v: message::VersionView| layout::enc_version(v));
        assert(w.data@ =~= before + layout::enc_entry(single_entry(m@)));
    }
    ok1 && ok2
}

/// Check that the format has room for an append.
fn check_append(l: &LeafAppendLayout, last_len: usize, entry_bytes: usize, count: usize, ms: Ghost<
    Seq<MessageView>,
>) -> (r: Result<(), CowBeTreeError>)
    requires
        ms@.len() == count,
        count > 0,
        last_len == single_len(ms@.last()),
        entry_bytes == enc_singles(ms@).len(),
        l@.dir + entry_bytes + 4 * (l@.entry_count + count) <= usize::MAX,
    ensures
        match append_error(l@, ms@) {
            Some(e) => r is Err && r->Err_0 == e,
            None => r is Ok,
        },
{
    proof {
        enc_singles_push(ms@.drop_last(), ms@.last());
        assert(ms@.drop_last().push(ms@.last()) =~= ms@);
    }
    let last_offset: usize = l.directory_start + (entry_bytes - last_len);
    if last_offset as u64 > 0xffff_ffff {
        return Err(CowBeTreeError::CorruptPage("leaf entry offset too large"));
    }
    let new_count: usize = l.entry_count + count;
    let body: usize = l.directory_start + entry_bytes + 4 * new_count;
    if body as u64 > 0xffff_ffff {
        return Err(CowBeTreeError::CorruptPage("leaf page body too large"));
    }
    if new_count > 0xffff {
        return Err(CowBeTreeError::CorruptPage("too many leaf entries"));
    }
    Ok(())
}

/// The bytes that a batch takes up as entries; `None` where its keys do not
/// ascend.
fn sum_entry_bytes(messages: &[BufferedMessage]) -> (r: Result<Option<usize>, CowBeTreeError>)
    ensures
        match batch_bytes(message::messages_view(messages@), 0, 0) {
            Err(e) => r is Err && r->Err_0 == e,
            Ok(None) => r is Ok && r->Ok_0 is None,
            Ok(Some(b)) => r is Ok && r->Ok_0 is Some && r->Ok_0->0 == b,
        },
{
    let ghost ms = message::messages_view(messages@);
    let mut total: usize = 0;
    let mut i: usize = 0;
    while i < messages.len()
        invariant
            i <= messages@.len(),
            ms == message::messages_view(messages@),
            batch_bytes(ms, 0, 0) == batch_bytes(ms, i as int, total as int),
        decreases messages@.len() - i,
    {
        assert(ms[i as int] == messages@[i as int]@);
        if i > 0 {
            assert(ms[i - 1] == messages@[i - 1]@);
            if !bytes::key_less(messages[i - 1].key.as_slice(), messages[i].key.as_slice()) {
                return Ok(None);
            }
        }
        let len: usize = leaf_entry_message_encoded_len(&messages[i])?;
        total =
        match total.checked_add(len) {
            Some(total) => total,
            None => {
                return Err(CowBeTreeError::CorruptPage("leaf append length overflow"));
            },
        };
        i += 1;
    }
    Ok(Some(total))
}

/// Append one entry per message to a leaf page, all or nothing: unless the page
/// is no leaf, a key lies outside the fence, the keys do not ascend above the
/// last key, or there is no room.
pub fn append_leaf_entry_batch(
    page: &mut [u8],
    messages: &[BufferedMessage],
    max_leaf_entries: usize,
) -> (r: Result<Option<LeafEntryAppend>, CowBeTreeError>)
    ensures
        match batch_plan(
            old(page)@,
            message::messages_view(messages@),
            max_leaf_entries as int,
        ) {
            Err(e) => r is Err && r->Err_0 == e && final(page)@ == old(page)@,
            Ok(None) => r is Ok && r->Ok_0 is None && final(page)@ == old(page)@,
            Ok(Some(l)) => r == Ok::<_, CowBeTreeError>(
                Some(leaf_append_result(l, message::messages_view(messages@))),
            ) && final(page)@ == leaf_appended(old(page)@, l, message::messages_view(messages@)),
        },
{
    let ghost ms = message::messages_view(messages@);
    let size: usize = page.len();
    if messages.len() == 0 {
        return Ok(None);
    }
    assert(ms[0] == messages@[0]@);
    assert(ms.last() == messages@[messages@.len() - 1]@);
    let found = leaf_append_layout(page, messages[0].key.as_slice())?;
    let l = match found {
        Some(l) => l,
        None => {
            return Ok(None);
        },
    };
    if messages.len() > 1 {
        let last = leaf_append_layout(page, messages[messages.len() - 1].key.as_slice())?;
        if last.is_none() {
            return Ok(None);
        }
    }
    let sum = sum_entry_bytes(messages)?;
    let entry_bytes: usize = match sum {
        Some(entry_bytes) => entry_bytes,
        None => {
            return Ok(None);
        },
    };
    proof {
        assert(single_entries(ms.take(0)) =~= Seq::<EntryView>::empty());
        assert(enc_singles(ms.take(0)).len() == 0);
        batch_bytes_sum(ms, 0);
    }
    let new_entry_count: usize = match l.entry_count.checked_add(messages.len()) {
        Some(n) => n,
        None => {
            return Err(CowBeTreeError::CorruptPage("leaf entry count overflow"));
        },
    };
    if new_entry_count > max_leaf_entries {
        return Ok(None);
    }
    let directory_bytes: usize = match new_entry_count.checked_mul(layout::LEAF_DIR_ENTRY_SIZE) {
        Some(n) => n,
        None => {
            return Err(CowBeTreeError::CorruptPage("leaf directory length overflow"));
        },
    };
    let with_entries: usize = match l.directory_start.checked_add(entry_bytes) {
        Some(n) => n,
        None => {
            return Err(CowBeTreeError::CorruptPage("leaf body length overflow"));
        },
    };
    let new_body_len: usize = match with_entries.checked_add(directory_bytes) {
        Some(n) => n,
        None => {
            return Err(CowBeTreeError::CorruptPage("leaf body length overflow"));
        },
    };
    if new_body_len > size - layout::HEADER_SIZE {
        return Ok(None);
    }
    let last_len: usize = leaf_entry_message_encoded_len(&messages[messages.len() - 1])?;
    proof {
        enc_singles_push(ms.drop_last(), ms.last());
        assert(ms.drop_last().push(ms.last()) =~= ms);
        assert(ms.take(ms.len() as int) =~= ms);
    }
    check_append(&l, last_len, entry_bytes, messages.len(), Ghost(ms))?;
    write_entries(page, &l, messages, messages.len());
    Ok(
        Some(
            LeafEntryAppend {
                entry_count: new_entry_count,
                body_len: new_body_len,
                entry_bytes,
                message_count: messages.len(),
            },
        ),
    )
}

/// Append one entry for a message to a leaf page, likewise.
pub fn append_leaf_entry_message(
    page: &mut [u8],
    m: &BufferedMessage,
    max_leaf_entries: usize,
) -> (r: Result<Option<LeafEntryAppend>, CowBeTreeError>)
    ensures
        match batch_plan(old(page)@, seq![m@], max_leaf_entries as int) {
            Err(e) => r is Err && r->Err_0 == e && final(page)@ == old(page)@,
            Ok(None) => r is Ok && r->Ok_0 is None && final(page)@ == old(page)@,
            Ok(Some(l)) => r == Ok::<_, CowBeTreeError>(Some(leaf_append_result(l, seq![m@])))
                && final(page)@ == leaf_appended(old(page)@, l, seq![m@]),
        },
{
    let mut one: Vec<BufferedMessage> = Vec::new();
    one.push(m.duplicate());
    assert(message::messages_view(one@) =~= seq![m@]);
    append_leaf_entry_batch(page, one.as_slice(), max_leaf_entries)
}

/// Append one entry for a put to a leaf page, likewise.
pub fn append_leaf_kv(
    page: &mut [u8],
    key: &[u8],
    value: &[u8],
    commit_ts: u64,
    max_leaf_entries: usize,
) -> (r: Result<Option<LeafEntryAppend>, CowBeTreeError>)
    ensures
        ({
            let ms = seq![message::put_view(key@, commit_ts, value@)];
            match batch_plan(old(page)@, ms, max_leaf_entries as int) {
                Err(e) => r is Err && r->Err_0 == e && final(page)@ == old(page)@,
                Ok(None) => r is Ok && r->Ok_0 is None && final(page)@ == old(page)@,
                Ok(Some(l)) => r == Ok::<_, CowBeTreeError>(Some(leaf_append_result(l, ms)))
                    && final(page)@ == leaf_appended(old(page)@, l, ms),
            }
        }),
{
    let m = BufferedMessage::put(key, commit_ts, value);
    append_leaf_entry_message(page, &m, max_leaf_entries)
}

/// Append one entry per message for as many messages at the front as ascend, lie
/// in the fence and have room.
#[verifier::rlimit(40)]
#[verifier::spinoff_prover]
pub fn append_leaf_entry_prefix(
    page: &mut [u8],
    messages: &[BufferedMessage],
    max_leaf_entries: usize,
) -> (r: Result<Option<LeafEntryAppend>, CowBeTreeError>)
    ensures
        match prefix_plan(
            old(page)@,
            message::messages_view(messages@),
            max_leaf_entries as int,
        ) {
            Err(e) => r is Err && r->Err_0 == e && final(page)@ == old(page)@,
            Ok(None) => r is Ok && r->Ok_0 is None && final(page)@ == old(page)@,
            Ok(Some((l, k))) => r == Ok::<_, CowBeTreeError>(
                Some(leaf_append_result(l, message::messages_view(messages@).take(k))),
            ) && final(page)@ == leaf_appended(
                old(page)@,
                l,
                message::messages_view(messages@).take(k),
            ) && 0 < k <= messages@.len(),
        },
{
    let ghost ms = message::messages_view(messages@);
    let size: usize = page.len();
    if messages.len() == 0 {
        return Ok(None);
    }
    assert(ms[0] == messages@[0]@);
    let found = leaf_append_layout(page, messages[0].key.as_slice())?;
    let l = match found {
        Some(l) => l,
        None => {
            return Ok(None);
        },
    };
    let upper = leaf_append_upper(page, &l)?;
    let ghost up = layout_upper(page@, l@);
    let mut entry_bytes: usize = 0;
    let mut last_len: usize = 0;
    let mut i: usize = 0;
    let mut stop = false;
    proof {
        assert(single_entries(ms.take(0)) =~= Seq::<EntryView>::empty());
        assert(enc_singles(ms.take(0)).len() == 0);
    }
    while !stop && i < messages.len()
        invariant
            i <= messages@.len(),
            messages@.len() > 0,
            ms == message::messages_view(messages@),
            page@ == old(page)@,
            leaf_layout(page@, ms[0].key) == Ok::<_, CowBeTreeError>(Some(l@)),
            up == layout_upper(page@, l@),
            size == page@.len(),
            size >= layout::HEADER_SIZE,
            l.entry_count <= u16::MAX,
            l@.dir <= u32::MAX,
            upper is Some <==> up is Some,
            upper is Some ==> upper->0@ == up->0,
            entry_bytes == enc_singles(ms.take(i as int)).len(),
            i > 0 ==> layout::HEADER_SIZE + l@.dir + entry_bytes + 4 * (l@.entry_count + i) <= size,
            i > 0 ==> last_len == single_len(ms[i - 1]),
            forall|j: int| 0 <= j < i ==> entry_len_error(#[trigger] ms[j]) is None,
            !stop ==> prefix_count(size as int, l@, up, ms, 0, 0, max_leaf_entries as int)
                == prefix_count(
                size as int,
                l@,
                up,
                ms,
                i as int,
                entry_bytes as int,
                max_leaf_entries as int,
            ),
            stop ==> prefix_count(size as int, l@, up, ms, 0, 0, max_leaf_entries as int) == Ok::<
                _,
                CowBeTreeError,
            >(i as int),
        decreases messages@.len() - i + (if stop {
            0int
        } else {
            1int
        }),
    {
        assert(ms[i as int] == messages@[i as int]@);
        let ascends = if i > 0 {
            assert(ms[i - 1] == messages@[i - 1]@);
            bytes::key_less(messages[i - 1].key.as_slice(), messages[i].key.as_slice())
        } else {
            true
        };
        let below = match upper {
            Some(u) => bytes::key_less(messages[i].key.as_slice(), u),
            None => true,
        };
        let new_entry_count: usize = l.entry_count + i + 1;
        if !ascends || !below || new_entry_count > max_leaf_entries {
            stop = true;
        } else {
            let entry_len: usize = leaf_entry_message_encoded_len(&messages[i])?;
            let with_entries: usize = l.directory_start + entry_bytes;
            let with_entry: usize = match with_entries.checked_add(entry_len) {
                Some(n) => n,
                None => {
                    return Err(CowBeTreeError::CorruptPage("leaf body length overflow"));
                },
            };
            let body_len: usize = match with_entry.checked_add(
                new_entry_count * layout::LEAF_DIR_ENTRY_SIZE,
            ) {
                Some(n) => n,
                None => {
                    return Err(CowBeTreeError::CorruptPage("leaf body length overflow"));
                },
            };
            if body_len > size - layout::HEADER_SIZE {
                stop = true;
            } else {
                proof {
                    enc_singles_take(ms, i as int);
                }
                entry_bytes = entry_bytes + entry_len;
                last_len = entry_len;
                i += 1;
            }
        }
    }
    if i == 0 {
        return Ok(None);
    }
    let ghost front = ms.take(i as int);
    proof {
        assert(front.last() == ms[i - 1]);
        assert forall|j: int| 0 <= j < front.len() implies entry_len_error(
            #[trigger] front[j],
        ) is None by {
            assert(front[j] == ms[j]);
        }
    }
    check_append(&l, last_len, entry_bytes, i, Ghost(front))?;
    write_entries(page, &l, messages, i);
    Ok(
        Some(
            LeafEntryAppend {
                entry_count: l.entry_count + i,
                body_len: l.directory_start + entry_bytes + 4 * (l.entry_count + i),
                entry_bytes,
                message_count: i,
            },
        ),
    )
}

} // verus!
