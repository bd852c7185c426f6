//! Looking a key up in a page without decoding the page: versions in a leaf,
//! the child and the buffered versions in an internal page, and the child slots.
use vstd::prelude::*;

use crate::betree::layout;
use crate::betree::layout_laws;
use crate::betree::message::{MessageView, VersionView};
use crate::betree::node;
use crate::betree::node::{CowBeTreeError, EntryView, Fence, NodeView, PageKind};
use crate::betree::reader;
use crate::betree::reader::{BodyReader, RawVisibleVersion};
use crate::bytes;

verus! {

// ---------------------------------------------------------------------------
// Visibility.

/// The newer of a candidate and a version; the candidate where they are as old.
pub open spec fn newer_of(visible: Option<VersionView>, v: VersionView) -> Option<VersionView> {
    if visible is None || v.commit_ts > visible->0.commit_ts {
        Some(v)
    } else {
        visible
    }
}

/// The newest version committed at `ts` or before; the first of several as old.
pub open spec fn newest(vs: Seq<VersionView>, ts: u64) -> Option<VersionView>
    decreases vs.len(),
{
    if vs.len() == 0 {
        None
    } else if vs.last().commit_ts <= ts {
        newer_of(newest(vs.drop_last(), ts), vs.last())
    } else {
        newest(vs.drop_last(), ts)
    }
}

/// The newest version of `key` in a buffer, committed at `ts` or before; the
/// first of several as old.
pub open spec fn newest_message(ms: Seq<MessageView>, key: Seq<u8>, ts: u64) -> Option<VersionView>
    decreases ms.len(),
{
    if ms.len() == 0 {
        None
    } else if ms.last().key == key && ms.last().version.commit_ts <= ts {
        newer_of(newest_message(ms.drop_last(), key, ts), ms.last().version)
    } else {
        newest_message(ms.drop_last(), key, ts)
    }
}

/// The newest version of `key` in a leaf, committed at `ts` or before.
pub open spec fn leaf_visible(es: Seq<EntryView>, key: Seq<u8>, ts: u64) -> Option<VersionView> {
    let p = node::lower_bound(es, key) as int;
    if p < es.len() && es[p].key == key {
        newest(es[p].versions, ts)
    } else {
        None
    }
}

/// The newest version is one of the versions, not later than `ts`, and none of
/// those not later than `ts` is newer; it is missing only where there are none.
pub proof fn newest_is_newest(vs: Seq<VersionView>, ts: u64)
    ensures
        match newest(vs, ts) {
            Some(v) => vs.contains(v) && v.commit_ts <= ts && forall|x: VersionView| #[trigger]
                vs.contains(x) && x.commit_ts <= ts ==> x.commit_ts <= v.commit_ts,
            None => forall|x: VersionView| #[trigger] vs.contains(x) ==> x.commit_ts > ts,
        },
    decreases vs.len(),
{
    if vs.len() > 0 {
        let front = vs.drop_last();
        newest_is_newest(front, ts);
        assert(vs[vs.len() - 1] == vs.last());
        assert forall|x: VersionView| #[trigger] vs.contains(x) implies x == vs.last()
            || front.contains(x) by {
            let i = choose|i: int| 0 <= i < vs.len() && vs[i] == x;
            if i < front.len() {
                assert(front[i] == x);
            }
        }
        if newest(front, ts) is Some {
            let v = newest(front, ts)->0;
            let i = choose|i: int| 0 <= i < front.len() && front[i] == v;
            assert(vs[i] == v);
        }
    }
}

/// The newest version of a key in a buffer, likewise.
pub proof fn newest_message_is_newest(ms: Seq<MessageView>, key: Seq<u8>, ts: u64)
    ensures
        match newest_message(ms, key, ts) {
            Some(v) => ms.contains(MessageView { key, version: v }) && v.commit_ts <= ts && forall|
                m: MessageView,
            | #[trigger]
                ms.contains(m) && m.key == key && m.version.commit_ts <= ts ==> m.version.commit_ts
                    <= v.commit_ts,
            None => forall|m: MessageView| #[trigger]
                ms.contains(m) && m.key == key ==> m.version.commit_ts > ts,
        },
    decreases ms.len(),
{
    if ms.len() > 0 {
        let front = ms.drop_last();
        newest_message_is_newest(front, key, ts);
        assert(ms[ms.len() - 1] == ms.last());
        assert forall|x: MessageView| #[trigger] ms.contains(x) implies x == ms.last()
            || front.contains(x) by {
            let i = choose|i: int| 0 <= i < ms.len() && ms[i] == x;
            if i < front.len() {
                assert(front[i] == x);
            }
        }
        if newest_message(front, key, ts) is Some {
            let m = MessageView { key, version: newest_message(front, key, ts)->0 };
            let i = choose|i: int| 0 <= i < front.len() && front[i] == m;
            assert(ms[i] == m);
        }
        if ms.last().key == key {
            assert(ms.last() == MessageView { key, version: ms.last().version });
        }
    }
}

/// Versions of another timestamp do not hide a version: in a newest-first list
/// the first version not later than `ts` is the newest.
pub proof fn newest_of_sorted(vs: Seq<VersionView>, ts: u64, i: int)
    requires
        node::sorted_versions(vs),
        0 <= i < vs.len(),
        vs[i].commit_ts <= ts,
        forall|j: int| 0 <= j < i ==> (#[trigger] vs[j]).commit_ts > ts,
    ensures
        newest(vs, ts) == Some(vs[i]),
{
    newest_is_newest(vs, ts);
    assert(vs.contains(vs[i]));
    let v = newest(vs, ts)->0;
    let k = choose|k: int| 0 <= k < vs.len() && vs[k] == v;
    if k > i {
        assert(vs[i].commit_ts > vs[k].commit_ts);
    }
}

// ---------------------------------------------------------------------------
// What a lookup in a page gives.

pub enum LookupView {
    Leaf { visible: Option<VersionView> },
    Internal { child: u64, slot: u16, visible: Option<VersionView>, buffer_count: int },
}

/// The entry of `key` among the entries `[low, high)`, found by halving.
pub open spec fn find_entry(data: Seq<u8>, dir: int, low: int, high: int, key: Seq<u8>) -> Result<
    Option<int>,
    CowBeTreeError,
>
    decreases high - low,
{
    if low >= high {
        Ok(None)
    } else {
        let mid = low + (high - low) / 2;
        match layout::p_dir_offset(data, dir, mid) {
            Err(e) => Err(e),
            Ok(offset) => match layout::p_bytes16(data, offset) {
                Err(e) => Err(e),
                Ok((k, _)) => if bytes::lex_lt(k, key) {
                    find_entry(data, dir, mid + 1, high, key)
                } else if k == key {
                    Ok(Some(mid))
                } else {
                    find_entry(data, dir, low, mid, key)
                },
            },
        }
    }
}

pub open spec fn leaf_lookup(data: Seq<u8>, pos: int, key: Seq<u8>, ts: u64) -> Result<
    LookupView,
    CowBeTreeError,
> {
    match layout::p_leaf_header(data, pos) {
        Err(e) => Err(e),
        Ok((n, _, dir)) => match find_entry(data, dir, 0, n, key) {
            Err(e) => Err(e),
            Ok(None) => Ok(LookupView::Leaf { visible: None }),
            Ok(Some(idx)) => match layout::p_dir_offset(data, dir, idx) {
                Err(e) => Err(e),
                Ok(offset) => match layout::p_entry(data, offset) {
                    Err(e) => Err(e),
                    Ok((entry, _)) => Ok(
                        LookupView::Leaf { visible: newest(entry.versions, ts) },
                    ),
                },
            },
        },
    }
}

/// How many of the separators are not above `key`.
pub open spec fn count_not_above(separators: Seq<Seq<u8>>, key: Seq<u8>) -> int
    decreases separators.len(),
{
    if separators.len() == 0 {
        0
    } else {
        count_not_above(separators.drop_last(), key) + if bytes::lex_lt(key, separators.last()) {
            0int
        } else {
            1
        }
    }
}

/// The child word and slot that `key` is routed to in an internal body, the
/// number of its messages, and the position of its messages.
pub open spec fn child_route(data: Seq<u8>, pos: int, key: Seq<u8>) -> Result<
    (u64, u16, int, int),
    CowBeTreeError,
> {
    match layout::p_internal_header(data, pos) {
        Err(e) => Err(e),
        Ok((nc, ns, nb, p1)) => match layout::p_exact(data, p1, 8 * nc) {
            Err(e) => Err(e),
            Ok((words, p2)) => match layout::p_keys(data, p2, ns as nat) {
                Err(e) => Err(e),
                Ok((separators, p3)) => {
                    let idx = count_not_above(separators, key);
                    Ok((bytes::of_le64(words.subrange(8 * idx, 8 * idx + 8)), idx as u16, nb, p3))
                },
            },
        },
    }
}

pub open spec fn internal_lookup(data: Seq<u8>, pos: int, key: Seq<u8>, ts: u64) -> Result<
    LookupView,
    CowBeTreeError,
> {
    match child_route(data, pos, key) {
        Err(e) => Err(e),
        Ok((child, slot, nb, p3)) => match layout::p_messages(data, p3, nb as nat) {
            Err(e) => Err(e),
            Ok((buffer, _)) => Ok(
                LookupView::Internal {
                    child,
                    slot,
                    visible: newest_message(buffer, key, ts),
                    buffer_count: nb,
                },
            ),
        },
    }
}

/// What a lookup of `key` at `ts` in a page gives.
pub open spec fn page_lookup(page: Seq<u8>, key: Seq<u8>, ts: u64) -> Result<
    LookupView,
    CowBeTreeError,
> {
    match layout::p_page(page) {
        Err(e) => Err(e),
        Ok((kind, body)) => match layout::p_fence(body, 0) {
            Err(e) => Err(e),
            Ok((_, pos)) => match kind {
                PageKind::Leaf => leaf_lookup(body, pos, key, ts),
                PageKind::Internal => internal_lookup(body, pos, key, ts),
            },
        },
    }
}

/// What a lookup of `key` at `ts` in a node gives.
pub open spec fn node_lookup(n: NodeView, key: Seq<u8>, ts: u64) -> LookupView {
    match n {
        NodeView::Leaf { entries, .. } => LookupView::Leaf {
            visible: leaf_visible(entries, key, ts),
        },
        NodeView::Internal { children, separators, buffer, .. } => LookupView::Internal {
            child: children[node::route(separators, key) as int],
            slot: node::route(separators, key) as u16,
            visible: newest_message(buffer, key, ts),
            buffer_count: buffer.len() as int,
        },
    }
}

/// In sorted separators those not above `key` are the ones at the front.
pub proof fn count_is_route(separators: Seq<Seq<u8>>, key: Seq<u8>)
    requires
        node::sorted_keys(separators),
    ensures
        count_not_above(separators, key) == node::route(separators, key),
    decreases separators.len(),
{
    if separators.len() > 0 {
        let front = separators.drop_last();
        assert forall|i: int, j: int|
            #![trigger front[i], front[j]]
            0 <= i < j < front.len() implies bytes::lex_lt(front[i], front[j]) by {
            assert(bytes::lex_lt(separators[i], separators[j]));
        }
        count_is_route(front, key);
        node::route_splits(front, key);
        node::route_splits(separators, key);
        let r = node::route(front, key) as int;
        if bytes::lex_lt(key, separators.last()) {
            assert forall|i: int| 0 <= i < r implies !bytes::lex_lt(
                key,
                #[trigger] separators[i],
            ) by {
                assert(separators[i] == front[i]);
            }
            if r < front.len() {
                assert(separators[r] == front[r]);
            }
            node::route_is(separators, key, r);
        } else {
            if r < front.len() {
                assert(bytes::lex_lt(key, front[r]));
                bytes::lex_lt_transitive(key, separators[r], separators.last());
            }
            assert forall|i: int| 0 <= i < r + 1 implies !bytes::lex_lt(
                key,
                #[trigger] separators[i],
            ) by {
                if i < r {
                    assert(separators[i] == front[i]);
                }
            }
            node::route_is(separators, key, r + 1);
        }
    }
}

/// Halving finds the entry of a key in a leaf body, if it has one.
proof fn find_entry_in_leaf(
    data: Seq<u8>,
    base: int,
    es: Seq<EntryView>,
    low: int,
    high: int,
    key: Seq<u8>,
)
    requires
        node::sorted_entries(es),
        layout::at(data, base, layout::enc_entries(es)),
        layout::at(
            data,
            base + layout::enc_entries(es).len(),
            layout::enc_offsets(layout::entry_offsets(base, es)),
        ),
        forall|j: int| 0 <= j < es.len() ==> layout::entry_fits(#[trigger] es[j]),
        forall|j: int|
            0 <= j < es.len() ==> #[trigger] layout::entry_offset(base, es, j) <= u32::MAX,
        0 <= low <= high <= es.len(),
        forall|j: int| 0 <= j < low ==> bytes::lex_lt(#[trigger] es[j].key, key),
        forall|j: int| high <= j < es.len() ==> bytes::lex_lt(key, #[trigger] es[j].key),
    ensures
        ({
            let dir = (base + layout::enc_entries(es).len()) as int;
            let p = node::lower_bound(es, key) as int;
            find_entry(data, dir, low, high, key) == Ok::<_, CowBeTreeError>(
                if p < es.len() && es[p].key == key {
                    Some(p)
                } else {
                    None
                },
            )
        }),
    decreases high - low,
{
    broadcast use bytes::group_lex;

    let dir = base + layout::enc_entries(es).len();
    if low < high {
        let mid = low + (high - low) / 2;
        layout_laws::entries_written(data, base, es, 0);
        let off = layout::entry_offset(base, es, mid);
        assert(layout::p_dir_offset(data, dir, mid) == Ok::<_, CowBeTreeError>(off));
        assert(layout::at(data, off, layout::enc_entry(es[mid])));
        layout_laws::entry_written(data, off, es[mid]);
        let k = es[mid].key;
        assert(layout::p_bytes16(data, off)->Ok_0.0 == k);
        if bytes::lex_lt(k, key) {
            assert forall|j: int| 0 <= j < mid + 1 implies bytes::lex_lt(
                #[trigger] es[j].key,
                key,
            ) by {
                if j < mid {
                    assert(bytes::lex_lt(es[j].key, es[mid].key));
                }
            }
            find_entry_in_leaf(data, base, es, mid + 1, high, key);
        } else if k == key {
            assert forall|j: int| 0 <= j < mid implies bytes::lex_lt(#[trigger] es[j].key, key) by {
                assert(bytes::lex_lt(es[j].key, es[mid].key));
            }
            node::lower_bound_is(es, key, mid);
        } else {
            assert(bytes::lex_lt(key, k));
            assert forall|j: int| mid <= j < es.len() implies bytes::lex_lt(
                key,
                #[trigger] es[j].key,
            ) by {
                if j > mid {
                    assert(bytes::lex_lt(es[mid].key, es[j].key));
                }
            }
            find_entry_in_leaf(data, base, es, low, mid, key);
        }
    } else {
        node::lower_bound_is(es, key, low);
    }
}

/// A lookup in a page gives what a lookup in the decoded page gives.
pub proof fn page_lookup_is_node_lookup(page: Seq<u8>, key: Seq<u8>, ts: u64)
    requires
        layout::parse_page(page) is Ok,
    ensures
        page_lookup(page, key, ts) == Ok::<_, CowBeTreeError>(
            node_lookup(layout::parse_page(page)->Ok_0, key, ts),
        ),
{
    layout_laws::read_page_is_canonical(page);
    let body = layout::p_page(page)->Ok_0.1;
    match layout::parse_page(page)->Ok_0 {
        NodeView::Leaf { fence, entries } => {
            layout_laws::leaf_written(fence, entries);
            let base = layout::leaf_base(fence);
            find_entry_in_leaf(body, base, entries, 0, entries.len() as int, key);
            layout_laws::entries_written(body, base, entries, 0);
            let p = node::lower_bound(entries, key) as int;
            if p < entries.len() && entries[p].key == key {
                let dir = (base + layout::enc_entries(entries).len()) as int;
                let off = layout::entry_offset(base, entries, p);
                assert(layout::p_dir_offset(body, dir, p) == Ok::<_, CowBeTreeError>(off));
                layout_laws::entry_written(body, off, entries[p]);
            }
        },
        NodeView::Internal { fence, children, separators, buffer } => {
            layout_laws::internal_written(fence, children, separators, buffer);
            count_is_route(separators, key);
            node::route_splits(separators, key);
            internal_child_word(body, fence, children, separators, buffer, key);
        },
    }
}

/// Routing in an internal body finds the child that the node routes to.
proof fn internal_child_word(
    body: Seq<u8>,
    fence: node::FenceView,
    children: Seq<u64>,
    separators: Seq<Seq<u8>>,
    buffer: Seq<MessageView>,
    key: Seq<u8>,
)
    requires
        layout::internal_fits(fence, children, separators, buffer),
        node::sorted_keys(separators),
        body == layout::internal_body(fence, children, separators, buffer),
    ensures
        ({
            let p0 = layout::enc_fence(fence).len() as int;
            let r = node::route(separators, key);
            &&& child_route(body, p0, key) is Ok
            &&& child_route(body, p0, key)->Ok_0.0 == children[r as int]
            &&& child_route(body, p0, key)->Ok_0.1 == r as u16
            &&& child_route(body, p0, key)->Ok_0.2 == buffer.len()
            &&& child_route(body, p0, key)->Ok_0.3 == p0 + 6 + 8 * children.len()
                + layout::enc_keys(separators).len()
        }),
{
    broadcast use bytes::group_le;

    layout_laws::internal_written(fence, children, separators, buffer);
    count_is_route(separators, key);
    node::route_splits(separators, key);
    let p0 = layout::enc_fence(fence).len() as int;
    let p1 = p0 + 6;
    let r = node::route(separators, key) as int;
    let f = |w: u64| bytes::le64(w);
    layout::flat_fixed(children, f, 8);
    let words = body.subrange(p1, p1 + 8 * children.len());
    assert(words == layout::enc_words(children));
    assert(layout::at(words, r * 8, f(children[r])));
    assert(words.subrange(8 * r, 8 * r + 8) == bytes::le64(children[r]));
}

// ---------------------------------------------------------------------------
// Looking up.

/// What a lookup in one page gives.
#[derive(Clone, Copy, Debug, PartialEq, Eq)]
pub enum LookupStep<'a> {
    Leaf { visible: Option<RawVisibleVersion<'a>> },
    Internal {
        child_swip: u64,
        child_slot: u16,
        visible_buffer: Option<RawVisibleVersion<'a>>,
        buffer_count: usize,
    },
}

pub open spec fn raw_view(v: Option<RawVisibleVersion<'_>>) -> Option<VersionView> {
    match v {
        Some(v) => Some(v@),
        None => None,
    }
}

impl<'a> View for LookupStep<'a> {
    type V = LookupView;

    open spec fn view(&self) -> LookupView {
        match self {
            LookupStep::Leaf { visible } => LookupView::Leaf { visible: raw_view(*visible) },
            LookupStep::Internal { child_swip, child_slot, visible_buffer, buffer_count } =>
            LookupView::Internal {
                child: *child_swip,
                slot: *child_slot,
                visible: raw_view(*visible_buffer),
                buffer_count: *buffer_count as int,
            },
        }
    }
}

/// Keep the newer of the two.
pub fn merge_raw_visible<'a>(
    visible: &mut Option<RawVisibleVersion<'a>>,
    candidate: RawVisibleVersion<'a>,
)
    ensures
        raw_view(*final(visible)) == newer_of(raw_view(*old(visible)), candidate@),
{
    let replace = match visible {
        None => true,
        Some(existing) => candidate.commit_ts > existing.commit_ts,
    };
    if replace {
        *visible = Some(candidate);
    }
}

/// The newest of the next `version_count` versions that `read_ts` can see.
pub fn first_visible_version<'a>(
    reader: &mut BodyReader<'a>,
    version_count: usize,
    read_ts: u64,
) -> (r: Result<Option<RawVisibleVersion<'a>>, CowBeTreeError>)
    ensures
        match layout::p_versions(old(reader).data@, old(reader).pos as int, version_count as nat) {
            Ok((vs, _)) => r is Ok && raw_view(r->Ok_0) == newest(vs, read_ts),
            Err(e) => r is Err && r->Err_0 == e,
        },
{
    let ghost data = reader.data@;
    let ghost start = reader.pos as int;
    let ghost p = |d: Seq<u8>, q: int| layout::p_version(d, q);
    let ghost mut seen: Seq<VersionView> = Seq::empty();
    let mut visible: Option<RawVisibleVersion<'a>> = None;
    let mut i: usize = 0;
    proof {
        let all = layout::p_list(data, start, version_count as nat, p);
        if all is Ok {
            assert(seen + all->Ok_0.0 =~= all->Ok_0.0);
        }
    }
    while i < version_count
        invariant
            i <= version_count,
            reader.data == old(reader).data,
            data == reader.data@,
            start == old(reader).pos as int,
            p == (|d: Seq<u8>, q: int| layout::p_version(d, q)),
            raw_view(visible) == newest(seen, read_ts),
            layout::p_list(data, start, version_count as nat, p) == layout::prepend(
                seen,
                layout::p_list(data, reader.pos as int, (version_count - i) as nat, p),
            ),
        decreases version_count - i,
    {
        let ghost here = reader.pos as int;
        let ghost rest = layout::p_list(data, here, (version_count - i) as nat, p);
        assert(p(data, here) == layout::p_version(data, here));
        let version = reader::read_raw_version(reader)?;
        proof {
            let tail = layout::p_list(data, reader.pos as int, (version_count - i - 1) as nat, p);
            if tail is Ok {
                assert(seen + (seq![version@] + tail->Ok_0.0) =~= seen.push(version@)
                    + tail->Ok_0.0);
            }
            assert(seen.push(version@).drop_last() =~= seen);
            seen = seen.push(version@);
        }
        if version.commit_ts <= read_ts {
            merge_raw_visible(&mut visible, version);
        }
        i += 1;
    }
    proof {
        assert(seen + Seq::empty() =~= seen);
    }
    Ok(visible)
}

/// The key of the entry at `offset`.
pub fn read_leaf_entry_key_at<'a>(data: &'a [u8], offset: usize) -> (r: Result<
    &'a [u8],
    CowBeTreeError,
>)
    ensures
        offset <= data@.len() ==> match layout::p_bytes16(data@, offset as int) {
            Ok((k, _)) => r is Ok && r->Ok_0@ == k,
            Err(e) => r is Err && r->Err_0 == e,
        },
        offset > data@.len() ==> r is Err && r->Err_0 == CowBeTreeError::CorruptPage(
            "body reader offset out of bounds",
        ),
{
    let mut reader = BodyReader::at(data, offset)?;
    reader.read_bytes_u16_len()
}

/// The entry of `key`, found by halving.
pub fn find_leaf_entry(
    data: &[u8],
    directory_start: usize,
    entry_count: usize,
    key: &[u8],
) -> (r: Result<Option<usize>, CowBeTreeError>)
    requires
        directory_start <= data@.len(),
    ensures
        match find_entry(data@, directory_start as int, 0, entry_count as int, key@) {
            Ok(Some(idx)) => r is Ok && r->Ok_0 is Some && r->Ok_0->0 == idx && idx < entry_count,
            Ok(None) => r is Ok && r->Ok_0 is None,
            Err(e) => r is Err && r->Err_0 == e,
        },
{
    let ghost dir = directory_start as int;
    let mut low: usize = 0;
    let mut high: usize = entry_count;
    while low < high
        invariant
            low <= high <= entry_count,
            dir == directory_start,
            dir <= data@.len(),
            find_entry(data@, dir, 0, entry_count as int, key@) == find_entry(
                data@,
                dir,
                low as int,
                high as int,
                key@,
            ),
        decreases high - low,
    {
        let mid: usize = low + (high - low) / 2;
        let offset: usize = reader::read_leaf_entry_offset(data, directory_start, mid)?;
        let entry_key = read_leaf_entry_key_at(data, offset)?;
        match bytes::compare_keys(entry_key, key) {
            bytes::KeyOrder::Less => {
                low = mid + 1;
            },
            bytes::KeyOrder::Equal => {
                proof {
                    bytes::lex_lt_irreflexive(key@);
                }
                return Ok(Some(mid));
            },
            bytes::KeyOrder::Greater => {
                proof {
                    bytes::lex_lt_asymmetric(key@, entry_key@);
                }
                high = mid;
            },
        }
    }
    Ok(None)
}

fn lookup_leaf<'a>(reader: BodyReader<'a>, key: &[u8], read_ts: u64) -> (r: Result<
    LookupStep<'a>,
    CowBeTreeError,
>)
    ensures
        match leaf_lookup(reader.data@, reader.pos as int, key@, read_ts) {
            Ok(v) => r is Ok && r->Ok_0@ == v,
            Err(e) => r is Err && r->Err_0 == e,
        },
{
    let mut reader = reader;
    let (entry_count, directory_start) = reader::read_leaf_header(&mut reader)?;
    let found = find_leaf_entry(reader.data, directory_start, entry_count, key)?;
    let entry_idx: usize = match found {
        Some(idx) => idx,
        None => {
            return Ok(LookupStep::Leaf { visible: None });
        },
    };
    let entry_offset: usize = reader::read_leaf_entry_offset(
        reader.data,
        directory_start,
        entry_idx,
    )?;
    let mut entry_reader = BodyReader::at(reader.data, entry_offset)?;
    let _entry_key = entry_reader.read_bytes_u16_len()?;
    let version_count: usize = entry_reader.read_u16()? as usize;
    let visible = first_visible_version(&mut entry_reader, version_count, read_ts)?;
    Ok(LookupStep::Leaf { visible })
}

/// Walk past the separators and count those not above `key`.
fn count_separators(reader: &mut BodyReader<'_>, count: usize, key: &[u8]) -> (r: Result<
    usize,
    CowBeTreeError,
>)
    ensures
        final(reader).data == old(reader).data,
        match layout::p_keys(old(reader).data@, old(reader).pos as int, count as nat) {
            Ok((ks, p)) => r is Ok && r->Ok_0 == count_not_above(ks, key@) && final(reader).pos == p
                && r->Ok_0 <= count,
            Err(e) => r is Err && r->Err_0 == e,
        },
{
    let ghost data = reader.data@;
    let ghost start = reader.pos as int;
    let ghost p = |d: Seq<u8>, q: int| layout::p_bytes16(d, q);
    let ghost mut seen: Seq<Seq<u8>> = Seq::empty();
    let mut idx: usize = 0;
    let mut i: usize = 0;
    proof {
        let all = layout::p_list(data, start, count as nat, p);
        if all is Ok {
            assert(seen + all->Ok_0.0 =~= all->Ok_0.0);
        }
    }
    while i < count
        invariant
            idx <= i <= count,
            reader.data == old(reader).data,
            data == reader.data@,
            start == old(reader).pos as int,
            p == (|d: Seq<u8>, q: int| layout::p_bytes16(d, q)),
            idx == count_not_above(seen, key@),
            layout::p_list(data, start, count as nat, p) == layout::prepend(
                seen,
                layout::p_list(data, reader.pos as int, (count - i) as nat, p),
            ),
        decreases count - i,
    {
        let ghost here = reader.pos as int;
        let ghost rest = layout::p_list(data, here, (count - i) as nat, p);
        assert(p(data, here) == layout::p_bytes16(data, here));
        let separator = reader.read_bytes_u16_len()?;
        proof {
            let tail = layout::p_list(data, reader.pos as int, (count - i - 1) as nat, p);
            if tail is Ok {
                assert(seen + (seq![separator@] + tail->Ok_0.0) =~= seen.push(separator@)
                    + tail->Ok_0.0);
            }
            assert(seen.push(separator@).drop_last() =~= seen);
            seen = seen.push(separator@);
        }
        if !bytes::key_less(key, separator) {
            idx += 1;
        }
        i += 1;
    }
    proof {
        assert(seen + Seq::empty() =~= seen);
    }
    Ok(idx)
}

/// Route `key` from a reader that stands behind the fence of an internal body:
/// the child word, its slot, and the number of messages, which the reader then
/// stands before.
fn read_child_route(reader: &mut BodyReader<'_>, key: &[u8]) -> (r: Result<
    (u64, u16, usize),
    CowBeTreeError,
>)
    ensures
        final(reader).data == old(reader).data,
        match child_route(old(reader).data@, old(reader).pos as int, key@) {
            Ok((child, slot, nb, p)) => r is Ok && r->Ok_0.0 == child && r->Ok_0.1 == slot
                && r->Ok_0.2 == nb && final(reader).pos == p,
            Err(e) => r is Err && r->Err_0 == e,
        },
{
    let (child_count, separator_count, buffer_count) = reader::read_internal_header(reader)?;
    let words = reader.read_exact(child_count * 8)?;
    let child_idx: usize = count_separators(reader, separator_count, key)?;
    let word = vstd::slice::slice_subrange(words, child_idx * 8, child_idx * 8 + 8);
    let child: u64 = vstd::bytes::u64_from_le_bytes(word);
    Ok((child, child_idx as u16, buffer_count))
}

/// The newest of the next `count` messages for `key` that `read_ts` can see.
fn first_visible_message<'a>(
    reader: &mut BodyReader<'a>,
    count: usize,
    key: &[u8],
    read_ts: u64,
) -> (r: Result<Option<RawVisibleVersion<'a>>, CowBeTreeError>)
    ensures
        match layout::p_messages(old(reader).data@, old(reader).pos as int, count as nat) {
            Ok((ms, _)) => r is Ok && raw_view(r->Ok_0) == newest_message(ms, key@, read_ts),
            Err(e) => r is Err && r->Err_0 == e,
        },
{
    let ghost data = reader.data@;
    let ghost start = reader.pos as int;
    let ghost p = |d: Seq<u8>, q: int| layout::p_message(d, q);
    let ghost mut seen: Seq<MessageView> = Seq::empty();
    let mut visible: Option<RawVisibleVersion<'a>> = None;
    let mut i: usize = 0;
    proof {
        let all = layout::p_list(data, start, count as nat, p);
        if all is Ok {
            assert(seen + all->Ok_0.0 =~= all->Ok_0.0);
        }
    }
    while i < count
        invariant
            i <= count,
            reader.data == old(reader).data,
            data == reader.data@,
            start == old(reader).pos as int,
            p == (|d: Seq<u8>, q: int| layout::p_message(d, q)),
            raw_view(visible) == newest_message(seen, key@, read_ts),
            layout::p_list(data, start, count as nat, p) == layout::prepend(
                seen,
                layout::p_list(data, reader.pos as int, (count - i) as nat, p),
            ),
        decreases count - i,
    {
        let ghost here = reader.pos as int;
        let ghost rest = layout::p_list(data, here, (count - i) as nat, p);
        assert(p(data, here) == layout::p_message(data, here));
        let message_key = reader.read_bytes_u16_len()?;
        let version = reader::read_raw_version(reader)?;
        proof {
            let m = MessageView { key: message_key@, version: version@ };
            let tail = layout::p_list(data, reader.pos as int, (count - i - 1) as nat, p);
            if tail is Ok {
                assert(seen + (seq![m] + tail->Ok_0.0) =~= seen.push(m) + tail->Ok_0.0);
            }
            assert(seen.push(m).drop_last() =~= seen);
            seen = seen.push(m);
        }
        if bytes::keys_equal(message_key, key) && version.commit_ts <= read_ts {
            merge_raw_visible(&mut visible, version);
        }
        i += 1;
    }
    proof {
        assert(seen + Seq::empty() =~= seen);
    }
    Ok(visible)
}

fn lookup_internal<'a>(reader: BodyReader<'a>, key: &[u8], read_ts: u64) -> (r: Result<
    LookupStep<'a>,
    CowBeTreeError,
>)
    ensures
        match internal_lookup(reader.data@, reader.pos as int, key@, read_ts) {
            Ok(v) => r is Ok && r->Ok_0@ == v,
            Err(e) => r is Err && r->Err_0 == e,
        },
{
    let mut reader = reader;
    let (child_swip, child_slot, buffer_count) = read_child_route(&mut reader, key)?;
    let visible_buffer = first_visible_message(&mut reader, buffer_count, key, read_ts)?;
    Ok(LookupStep::Internal { child_swip, child_slot, visible_buffer, buffer_count })
}

/// Look `key` up in a page: the version that `read_ts` can see in a leaf; the
/// child and the buffered version in an internal page.
pub fn lookup_step<'a>(page: &'a [u8], key: &[u8], read_ts: u64) -> (r: Result<
    LookupStep<'a>,
    CowBeTreeError,
>)
    ensures
        match page_lookup(page@, key@, read_ts) {
            Ok(v) => r is Ok && r->Ok_0@ == v,
            Err(e) => r is Err && r->Err_0 == e,
        },
{
    let (kind, mut reader) = reader::page_body_reader(page)?;
    reader::skip_fence(&mut reader)?;
    match kind {
        PageKind::Leaf => lookup_leaf(reader, key, read_ts),
        PageKind::Internal => lookup_internal(reader, key, read_ts),
    }
}

/// The child word and slot that `key` is routed to, without a look at the
/// buffer; `None` in a leaf.
pub open spec fn page_route(page: Seq<u8>, key: Seq<u8>) -> Result<
    Option<(u64, u16)>,
    CowBeTreeError,
> {
    match layout::p_page(page) {
        Err(e) => Err(e),
        Ok((kind, body)) => match layout::p_fence(body, 0) {
            Err(e) => Err(e),
            Ok((_, pos)) => match kind {
                PageKind::Leaf => Ok(None),
                PageKind::Internal => match child_route(body, pos, key) {
                    Err(e) => Err(e),
                    Ok((child, slot, _, _)) => Ok(Some((child, slot))),
                },
            },
        },
    }
}

/// Routing in a page finds the child that the decoded page routes to.
pub proof fn page_route_is_node_route(page: Seq<u8>, key: Seq<u8>)
    requires
        layout::parse_page(page) is Ok,
    ensures
        page_route(page, key) == Ok::<_, CowBeTreeError>(
            match layout::parse_page(page)->Ok_0 {
                NodeView::Leaf { .. } => None,
                NodeView::Internal { children, separators, .. } => Some(
                    (
                        children[node::route(separators, key) as int],
                        node::route(separators, key) as u16,
                    ),
                ),
            },
        ),
{
    layout_laws::read_page_is_canonical(page);
    let body = layout::p_page(page)->Ok_0.1;
    match layout::parse_page(page)->Ok_0 {
        NodeView::Leaf { fence, entries } => {
            layout_laws::leaf_written(fence, entries);
        },
        NodeView::Internal { fence, children, separators, buffer } => {
            layout_laws::internal_written(fence, children, separators, buffer);
            internal_child_word(body, fence, children, separators, buffer, key);
        },
    }
}

/// The child word that `key` is routed to; `None` in a leaf.
pub fn lookup_child_swip(page: &[u8], key: &[u8]) -> (r: Result<Option<u64>, CowBeTreeError>)
    ensures
        match page_route(page@, key@) {
            Ok(Some((child, _))) => r == Ok::<Option<u64>, CowBeTreeError>(Some(child)),
            Ok(None) => r == Ok::<Option<u64>, CowBeTreeError>(None),
            Err(e) => r == Err::<Option<u64>, CowBeTreeError>(e),
        },
{
    match lookup_child_slot(page, key)? {
        Some((child, _)) => Ok(Some(child)),
        None => Ok(None),
    }
}

/// The child word and slot that `key` is routed to; `None` in a leaf.
pub fn lookup_child_slot(page: &[u8], key: &[u8]) -> (r: Result<
    Option<(u64, u16)>,
    CowBeTreeError,
>)
    ensures
        r == page_route(page@, key@),
{
    let (kind, mut reader) = reader::page_body_reader(page)?;
    reader::skip_fence(&mut reader)?;
    match kind {
        PageKind::Leaf => Ok(None),
        PageKind::Internal => {
            let (child, slot, _buffer_count) = read_child_route(&mut reader, key)?;
            Ok(Some((child, slot)))
        },
    }
}

// ---------------------------------------------------------------------------
// Child slots.

/// The number of child slots of an internal page and where they begin in it.
pub open spec fn child_array(page: Seq<u8>) -> Option<(int, int)> {
    match layout::p_page(page) {
        Err(_) => None,
        Ok((kind, body)) => if kind is Leaf {
            None
        } else {
            match layout::p_fence(body, 0) {
                Err(_) => None,
                Ok((_, pos)) => if pos + 6 > body.len() || bytes::of_le16(body.subrange(pos, pos + 2))
                    == 0 {
                    None
                } else {
                    Some(
                        (
                            bytes::of_le16(body.subrange(pos, pos + 2)) as int,
                            layout::HEADER_SIZE + pos + 6,
                        ),
                    )
                },
            }
        },
    }
}

/// The word in child slot `slot` of a page.
pub open spec fn child_word(page: Seq<u8>, slot: int) -> Option<u64> {
    match child_array(page) {
        None => None,
        Some((count, offset)) => if slot >= count || offset + slot * 8 + 8 > page.len() {
            None
        } else {
            Some(bytes::of_le64(page.subrange(offset + slot * 8, offset + slot * 8 + 8)))
        },
    }
}

/// Locate the child slots of an internal page: their number and the offset of
/// the first. `None` for other pages and for a header that cannot be read.
pub fn internal_child_array_range(page: &[u8]) -> (r: Option<(usize, usize)>)
    ensures
        match child_array(page@) {
            Some((count, offset)) => r == Some((count as usize, offset as usize)) && 0 < count
                <= u16::MAX && 0 <= offset <= page@.len(),
            None => r is None,
        },
{
    let (kind, mut reader) = match reader::page_body_reader(page) {
        Ok(pair) => pair,
        Err(_) => {
            return None;
        },
    };
    match kind {
        PageKind::Leaf => {
            return None;
        },
        PageKind::Internal => {},
    }
    if reader::skip_fence(&mut reader).is_err() {
        return None;
    }
    let child_count: usize = match reader.read_u16() {
        Ok(n) => n as usize,
        Err(_) => {
            return None;
        },
    };
    if reader.read_u16().is_err() {
        return None;
    }
    if reader.read_u16().is_err() {
        return None;
    }
    if child_count == 0 {
        return None;
    }
    let _size: usize = page.len();
    Some((child_count, layout::HEADER_SIZE + reader.pos))
}

/// The word in child slot `slot`.
pub fn read_child_swip_at(page: &[u8], slot: u16) -> (r: Option<u64>)
    ensures
        r == child_word(page@, slot as int),
{
    let (count, offset) = match internal_child_array_range(page) {
        Some(range) => range,
        None => {
            return None;
        },
    };
    if slot as usize >= count {
        return None;
    }
    let size: usize = page.len();
    if size - offset < (slot as usize) * 8 + 8 {
        return None;
    }
    let pos: usize = offset + (slot as usize) * 8;
    Some(vstd::bytes::u64_from_le_bytes(vstd::slice::slice_subrange(page, pos, pos + 8)))
}

/// A page after the word in child slot `slot` was replaced.
pub open spec fn with_child_word(page: Seq<u8>, slot: int, word: u64) -> Seq<u8> {
    match child_array(page) {
        Some((_, offset)) => bytes::patch(page, offset + slot * 8, bytes::le64(word)),
        None => page,
    }
}

/// Replace the word in child slot `slot`. A page without that slot is left
/// alone.
pub fn write_child_swip_at(page: &mut [u8], slot: u16, word: u64) -> (r: Option<()>)
    ensures
        r is Some <==> child_word(old(page)@, slot as int) is Some,
        final(page)@ == if r is Some {
            with_child_word(old(page)@, slot as int, word)
        } else {
            old(page)@
        },
{
    let (count, offset) = match internal_child_array_range(page) {
        Some(range) => range,
        None => {
            return None;
        },
    };
    if slot as usize >= count {
        return None;
    }
    let size: usize = page.len();
    if size - offset < (slot as usize) * 8 + 8 {
        return None;
    }
    let pos: usize = offset + (slot as usize) * 8;
    let b = vstd::bytes::u64_to_le_bytes(word);
    bytes::write_at(page, pos, b.as_slice());
    Some(())
}

/// A slot that is written reads back; the other slots keep their words.
pub proof fn written_child_word_is_read_back(page: Seq<u8>, slot: int, word: u64, other: int)
    requires
        0 <= slot,
        0 <= other,
        child_word(page, slot) is Some,
    ensures
        child_word(with_child_word(page, slot, word), slot) == Some(word),
        other != slot ==> child_word(with_child_word(page, slot, word), other) == child_word(
            page,
            other,
        ),
        child_array(with_child_word(page, slot, word)) == child_array(page),
{
    broadcast use bytes::group_le;

    let (count, offset) = child_array(page)->0;
    let new = with_child_word(page, slot, word);
    let body = layout::p_page(page)->Ok_0.1;
    let pos = layout::p_fence(body, 0)->Ok_0.1;
    layout_laws::fence_read(body, 0);
    assert(new.subrange(layout::MAGIC_OFF as int, layout::MAGIC_OFF + 4) =~= page.subrange(
        layout::MAGIC_OFF as int,
        layout::MAGIC_OFF + 4,
    ));
    assert(new.subrange(layout::BODY_LEN_OFF as int, layout::BODY_LEN_OFF + 4) =~= page.subrange(
        layout::BODY_LEN_OFF as int,
        layout::BODY_LEN_OFF + 4,
    ));
    let new_body = layout::p_page(new)->Ok_0.1;
    assert(new_body.len() == body.len());
    assert forall|i: int| 0 <= i < pos + 6 implies new_body[i] == body[i] by {
        assert(new_body[i] == new[layout::HEADER_SIZE + i]);
        assert(body[i] == page[layout::HEADER_SIZE + i]);
    }
    let fence = layout::p_fence(body, 0)->Ok_0.0;
    layout::at_agrees(body, new_body, 0, layout::enc_fence(fence));
    layout_laws::fence_written(new_body, 0, fence);
    assert(new_body.subrange(pos, pos + 2) =~= body.subrange(pos, pos + 2));
    assert(new.subrange(offset + slot * 8, offset + slot * 8 + 8) =~= bytes::le64(word));
    if other != slot {
        if child_word(page, other) is Some {
            assert(new.subrange(offset + other * 8, offset + other * 8 + 8) =~= page.subrange(
                offset + other * 8,
                offset + other * 8 + 8,
            ));
        }
    }
}

/// Some slot from `slot` on holds one of the two words, and none before it does;
/// `None` also where a slot cannot be read.
pub open spec fn slot_of_word(page: Seq<u8>, slot: int, hot: u64, evicted: u64) -> Option<u16>
    decreases
            (match child_array(page) {
                Some((count, _)) => count,
                None => 0,
            }) - slot,
{
    match child_array(page) {
        None => None,
        Some((count, _)) => if slot >= count {
            None
        } else {
            match child_word(page, slot) {
                None => None,
                Some(word) => if word == hot || word == evicted {
                    Some(slot as u16)
                } else {
                    slot_of_word(page, slot + 1, hot, evicted)
                },
            }
        },
    }
}

/// The first child slot that refers to a page, by the word of its frame or by
/// the word of its page id.
pub fn find_child_slot_by_frame(page: &[u8], expected_hot: u64, expected_evicted: u64) -> (r:
    Option<u16>)
    ensures
        r == slot_of_word(page@, 0, expected_hot, expected_evicted),
{
    let (count, _offset) = match internal_child_array_range(page) {
        Some(range) => range,
        None => {
            return None;
        },
    };
    let mut slot: usize = 0;
    while slot < count
        invariant
            slot <= count <= u16::MAX,
            child_array(page@) matches Some((n, _)) && n == count,
            slot_of_word(page@, 0, expected_hot, expected_evicted) == slot_of_word(
                page@,
                slot as int,
                expected_hot,
                expected_evicted,
            ),
        decreases count - slot,
    {
        match read_child_swip_at(page, slot as u16) {
            None => {
                return None;
            },
            Some(word) => {
                if word == expected_hot || word == expected_evicted {
                    return Some(slot as u16);
                }
            },
        }
        slot += 1;
    }
    None
}

// ---------------------------------------------------------------------------
// Leaf entries by index.

/// A leaf page whose entries can be read by index.
pub struct LeafPageReader<'a> {
    body: &'a [u8],
    directory_start: usize,
    entry_count: usize,
}

/// The raw bytes of entry `idx` of a leaf body.
pub open spec fn raw_entry(body: Seq<u8>, dir: int, n: int, idx: int) -> Result<
    Seq<u8>,
    CowBeTreeError,
> {
    match layout::p_dir_offset(body, dir, idx) {
        Err(e) => Err(e),
        Ok(start) => {
            let end = if idx + 1 < n {
                layout::p_dir_offset(body, dir, idx + 1)
            } else {
                Ok(dir)
            };
            match end {
                Err(e) => Err(e),
                Ok(end) => if start > end {
                    layout::corrupt("leaf entry has negative length")
                } else {
                    Ok(body.subrange(start, end))
                },
            }
        },
    }
}

impl<'a> LeafPageReader<'a> {
    pub closed spec fn body(&self) -> Seq<u8> {
        self.body@
    }

    pub closed spec fn dir(&self) -> int {
        self.directory_start as int
    }

    pub closed spec fn count(&self) -> int {
        self.entry_count as int
    }

    pub open spec fn wf(&self) -> bool {
        &&& 0 <= self.dir() <= self.body().len()
        &&& 0 <= self.count() <= u16::MAX
    }

    /// Open a leaf page.
    pub fn new(page: &'a [u8]) -> (r: Result<Self, CowBeTreeError>)
        ensures
            match layout::p_page(page@) {
                Err(e) => r is Err && r->Err_0 == e,
                Ok((kind, body)) => if kind is Internal {
                    r is Err && r->Err_0 == CowBeTreeError::CorruptPage("expected leaf page")
                } else {
                    match layout::p_fence(body, 0) {
                        Err(e) => r is Err && r->Err_0 == e,
                        Ok((_, pos)) => match layout::p_leaf_header(body, pos) {
                            Err(e) => r is Err && r->Err_0 == e,
                            Ok((n, _, dir)) => r is Ok && r->Ok_0.wf() && r->Ok_0.body() == body
                                && r->Ok_0.count() == n && r->Ok_0.dir() == dir,
                        },
                    }
                },
            },
    {
        let (kind, mut reader) = reader::page_body_reader(page)?;
        match kind {
            PageKind::Internal => {
                return Err(CowBeTreeError::CorruptPage("expected leaf page"));
            },
            PageKind::Leaf => {},
        }
        let body = reader.data;
        reader::skip_fence(&mut reader)?;
        let (entry_count, directory_start) = reader::read_leaf_header(&mut reader)?;
        Ok(Self { body, directory_start, entry_count })
    }

    pub fn entry_count(&self) -> (r: usize)
        ensures
            r == self.count(),
    {
        self.entry_count
    }

    /// The key of entry `idx`.
    pub fn entry_key(&self, idx: usize) -> (r: Result<&'a [u8], CowBeTreeError>)
        requires
            self.wf(),
        ensures
            match layout::p_dir_offset(self.body(), self.dir(), idx as int) {
                Err(e) => r is Err && r->Err_0 == e,
                Ok(offset) => match layout::p_bytes16(self.body(), offset) {
                    Err(e) => r is Err && r->Err_0 == e,
                    Ok((k, _)) => r is Ok && r->Ok_0@ == k,
                },
            },
    {
        let offset: usize = reader::read_leaf_entry_offset(self.body, self.directory_start, idx)?;
        read_leaf_entry_key_at(self.body, offset)
    }

    /// The bytes of entry `idx`: key, version count and versions.
    pub fn entry_raw(&self, idx: usize) -> (r: Result<&'a [u8], CowBeTreeError>)
        requires
            self.wf(),
            idx < usize::MAX,
        ensures
            match raw_entry(self.body(), self.dir(), self.count(), idx as int) {
                Err(e) => r is Err && r->Err_0 == e,
                Ok(b) => r is Ok && r->Ok_0@ == b,
            },
    {
        let start: usize = reader::read_leaf_entry_offset(self.body, self.directory_start, idx)?;
        let end: usize = if idx + 1 < self.entry_count {
            reader::read_leaf_entry_offset(self.body, self.directory_start, idx + 1)?
        } else {
            self.directory_start
        };
        if start > end {
            return Err(CowBeTreeError::CorruptPage("leaf entry has negative length"));
        }
        Ok(vstd::slice::slice_subrange(self.body, start, end))
    }

    /// The fence of the leaf.
    pub fn fence(&self) -> (r: Result<Fence, CowBeTreeError>)
        ensures
            match layout::p_fence(self.body(), 0) {
                Err(e) => r is Err && r->Err_0 == e,
                Ok((f, _)) => r is Ok && r->Ok_0@ == f,
            },
    {
        let mut reader = BodyReader::new(self.body);
        reader::decode_fence(&mut reader)
    }
}

} // verus!
