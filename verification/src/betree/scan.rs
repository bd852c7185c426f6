//! Scans: the rows of a tree in key order, as a reader sees them.
use vstd::prelude::*;

use crate::betree::lookup;
use crate::betree::message;
use crate::betree::message::{BufferedMessage, MessageView, VersionRecord, VersionView};
use crate::betree::node;
use crate::betree::node::{EntryView, LeafEntry, NodePage};
use crate::betree::pool;
use crate::betree::pool::PagePool;
use crate::betree::read;
use crate::betree::rewrite;
use crate::betree::shape;
use crate::betree::shape::TreeView;
use crate::bytes;

verus! {

// ---------------------------------------------------------------------------
// Ranges.

/// One end of a range of keys.
#[derive(Clone, Copy, Debug)]
pub enum Bound<'a> {
    Included(&'a [u8]),
    Excluded(&'a [u8]),
    Unbounded,
}

pub open spec fn above_lower(key: Seq<u8>, lower: Bound<'_>) -> bool {
    match lower {
        Bound::Unbounded => true,
        Bound::Included(b) => !bytes::lex_lt(key, b@),
        Bound::Excluded(b) => bytes::lex_lt(b@, key),
    }
}

pub open spec fn below_upper(key: Seq<u8>, upper: Bound<'_>) -> bool {
    match upper {
        Bound::Unbounded => true,
        Bound::Included(b) => !bytes::lex_lt(b@, key),
        Bound::Excluded(b) => bytes::lex_lt(key, b@),
    }
}

pub open spec fn in_range(key: Seq<u8>, lower: Bound<'_>, upper: Bound<'_>) -> bool {
    above_lower(key, lower) && below_upper(key, upper)
}

pub fn range_contains(key: &[u8], lower: Bound<'_>, upper: Bound<'_>) -> (r: bool)
    ensures
        r == in_range(key@, lower, upper),
{
    let above = match lower {
        Bound::Unbounded => true,
        Bound::Included(bound) => !bytes::key_less(key, bound),
        Bound::Excluded(bound) => bytes::key_less(bound, key),
    };
    if !above {
        return false;
    }
    match upper {
        Bound::Unbounded => true,
        Bound::Included(bound) => !bytes::key_less(bound, key),
        Bound::Excluded(bound) => bytes::key_less(key, bound),
    }
}

// ---------------------------------------------------------------------------
// Rows.

/// A key and its value.
#[derive(Debug, PartialEq, Eq)]
pub struct Row {
    pub key: Vec<u8>,
    pub value: Vec<u8>,
}

#[verifier::ext_equal]
pub struct RowView {
    pub key: Seq<u8>,
    pub value: Seq<u8>,
}

impl View for Row {
    type V = RowView;

    open spec fn view(&self) -> RowView {
        RowView { key: self.key@, value: self.value@ }
    }
}

pub open spec fn rows_view(rows: Seq<Row>) -> Seq<RowView> {
    Seq::new(rows.len(), |i: int| rows[i]@)
}

/// The row says what a reader at `ts` sees of its key.
pub open spec fn row_is_seen(recs: Set<MessageView>, ts: u64, row: RowView) -> bool {
    exists|v: VersionView| #[trigger]
        read::is_newest(recs, row.key, ts, Some(v)) && !v.deleted && v.value == row.value
}

/// A reader at `ts` sees nothing of the key: it has no version, or was deleted.
pub open spec fn is_unseen(recs: Set<MessageView>, ts: u64, key: Seq<u8>) -> bool {
    exists|v: Option<VersionView>| #[trigger]
        read::is_newest(recs, key, ts, v) && (v matches Some(v) ==> v.deleted)
}

pub open spec fn has_row(rows: Seq<RowView>, key: Seq<u8>) -> bool {
    exists|i: int| 0 <= i < rows.len() && (#[trigger] rows[i]).key == key
}

/// The rows are those of the keys that `wanted` picks, in key order, as a reader
/// at `ts` sees them.
pub open spec fn are_rows(
    recs: Set<MessageView>,
    ts: u64,
    wanted: spec_fn(Seq<u8>) -> bool,
    rows: Seq<RowView>,
) -> bool {
    &&& forall|i: int, j: int|
        #![trigger rows[i], rows[j]]
        0 <= i < j < rows.len() ==> bytes::lex_lt(rows[i].key, rows[j].key)
    &&& forall|i: int|
        0 <= i < rows.len() ==> wanted((#[trigger] rows[i]).key) && row_is_seen(recs, ts, rows[i])
    &&& forall|key: Seq<u8>| #[trigger]
        wanted(key) && !has_row(rows, key) ==> is_unseen(recs, ts, key)
}

// ---------------------------------------------------------------------------
// Collecting.

/// The versions of a key as messages.
pub open spec fn version_messages(key: Seq<u8>, vs: Seq<VersionView>) -> Seq<MessageView> {
    Seq::new(vs.len(), |i: int| MessageView { key, version: vs[i] })
}

/// The versions of all entries as messages.
pub open spec fn entry_messages(es: Seq<EntryView>) -> Seq<MessageView>
    decreases es.len(),
{
    if es.len() == 0 {
        Seq::empty()
    } else {
        entry_messages(es.drop_last()) + version_messages(es.last().key, es.last().versions)
    }
}

/// What is gathered of a tree below nodes in whose buffers `path` waits: of every leaf
/// its entries, and then what waits above it, from the root down.
pub open spec fn gathered(t: TreeView, path: Seq<MessageView>) -> Seq<MessageView>
    decreases t, 0nat,
{
    match t {
        TreeView::Leaf { entries, .. } => entry_messages(entries) + path,
        TreeView::Node { buffer, kids, .. } => gathered_all(kids, kids.len(), path + buffer),
    }
}

/// The same of the first `n` trees, in turn.
pub open spec fn gathered_all(kids: Seq<TreeView>, n: nat, path: Seq<MessageView>) -> Seq<
    MessageView,
>
    decreases kids, n,
{
    if n == 0 || n > kids.len() {
        Seq::empty()
    } else {
        gathered_all(kids, (n - 1) as nat, path) + gathered(kids[n - 1], path)
    }
}

/// The entries that a leaf would have to which all that is gathered of a tree was
/// written in turn: of two versions of a key with the same timestamp the later one.
pub open spec fn entries_of(t: TreeView) -> Seq<EntryView> {
    node::apply_messages(Seq::empty(), gathered(t, Seq::empty()))
}

/// All versions of the entries as messages.
fn push_entries(entries: &[LeafEntry], out: &mut Vec<BufferedMessage>)
    ensures
        message::messages_view(final(out)@) == message::messages_view(old(out)@)
            + entry_messages(node::entries_view(entries@)),
        shape::message_recs(message::messages_view(final(out)@)) == shape::message_recs(
            message::messages_view(old(out)@),
        ).union(shape::entry_recs(node::entries_view(entries@))),
{
    let ghost es = node::entries_view(entries@);
    let ghost base = shape::message_recs(message::messages_view(out@));
    let ghost first = message::messages_view(out@);
    let mut i: usize = 0;
    proof {
        assert(first + entry_messages(es.take(0)) =~= first);
        assert(shape::entry_recs(es.take(0)) =~= Set::<MessageView>::empty());
        assert(base.union(shape::entry_recs(es.take(0))) =~= base);
    }
    while i < entries.len()
        invariant
            i <= entries@.len(),
            es == node::entries_view(entries@),
            message::messages_view(out@) == first + entry_messages(es.take(i as int)),
            shape::message_recs(message::messages_view(out@)) == base.union(
                shape::entry_recs(es.take(i as int)),
            ),
        decreases entries@.len() - i,
    {
        let entry = &entries[i];
        let ghost e = es[i as int];
        let ghost mid = shape::message_recs(message::messages_view(out@));
        let ghost so_far = message::messages_view(out@);
        let mut k: usize = 0;
        proof {
            assert(e == entry@);
            assert(so_far + version_messages(e.key, e.versions.take(0)) =~= so_far);
            assert(versions_recs(e.key, e.versions.take(0)) =~= Set::<MessageView>::empty());
            assert(mid.union(versions_recs(e.key, e.versions.take(0))) =~= mid);
        }
        while k < entry.versions.len()
            invariant
                k <= entry.versions@.len(),
                e == entry@,
                message::messages_view(out@) == so_far + version_messages(
                    e.key,
                    e.versions.take(k as int),
                ),
                shape::message_recs(message::messages_view(out@)) == mid.union(
                    versions_recs(e.key, e.versions.take(k as int)),
                ),
            decreases entry.versions@.len() - k,
        {
            let ghost before = message::messages_view(out@);
            let m = BufferedMessage {
                key: bytes::copy_bytes(entry.key.as_slice()),
                version: entry.versions[k].duplicate(),
            };
            let ghost mv = m@;
            out.push(m);
            proof {
                assert(message::messages_view(out@) =~= before + seq![mv]);
                shape::message_recs_add(before, seq![mv]);
                versions_recs_push(e.key, e.versions, k as int);
                assert(mv == (MessageView { key: e.key, version: e.versions[k as int] }));
                assert(message::messages_view(out@) =~= so_far + version_messages(
                    e.key,
                    e.versions.take(k + 1),
                ));
                assert(shape::message_recs(message::messages_view(out@)) =~= mid.union(
                    versions_recs(e.key, e.versions.take(k + 1)),
                ));
            }
            k += 1;
        }
        proof {
            assert(e.versions.take(k as int) =~= e.versions);
            let es2 = es.take(i + 1);
            assert(es2.drop_last() =~= es.take(i as int));
            assert(es2.last() == e);
            assert(message::messages_view(out@) =~= first + entry_messages(es2));
            entry_recs_push(es, i as int);
            assert(shape::message_recs(message::messages_view(out@)) =~= base.union(
                shape::entry_recs(es.take(i + 1)),
            ));
        }
        i += 1;
    }
    assert(es.take(i as int) =~= es);
}

/// The versions of a key as records.
pub open spec fn versions_recs(key: Seq<u8>, vs: Seq<VersionView>) -> Set<MessageView> {
    Set::new(|m: MessageView| m.key == key && vs.contains(m.version))
}

proof fn versions_recs_push(key: Seq<u8>, vs: Seq<VersionView>, k: int)
    requires
        0 <= k < vs.len(),
    ensures
        versions_recs(key, vs.take(k + 1)) == versions_recs(key, vs.take(k)).union(
            shape::message_recs(seq![MessageView { key, version: vs[k] }]),
        ),
{
    let m = MessageView { key, version: vs[k] };
    let a = vs.take(k);
    let b = vs.take(k + 1);
    assert forall|x: MessageView| #[trigger] versions_recs(key, b).contains(x) <==> versions_recs(
        key,
        a,
    ).union(shape::message_recs(seq![m])).contains(x) by {
        if x.key == key && b.contains(x.version) {
            let i = choose|i: int| 0 <= i < b.len() && b[i] == x.version;
            if i < k {
                assert(a[i] == x.version);
            } else {
                assert(seq![m][0] == x);
            }
        }
        if x.key == key && a.contains(x.version) {
            let i = choose|i: int| 0 <= i < a.len() && a[i] == x.version;
            assert(b[i] == x.version);
        }
        if seq![m].contains(x) {
            assert(b[k] == x.version);
        }
    }
    assert(versions_recs(key, b) =~= versions_recs(key, a).union(shape::message_recs(seq![m])));
}

proof fn entry_recs_push(es: Seq<EntryView>, i: int)
    requires
        0 <= i < es.len(),
    ensures
        shape::entry_recs(es.take(i + 1)) == shape::entry_recs(es.take(i)).union(
            versions_recs(es[i].key, es[i].versions),
        ),
{
    let a = es.take(i);
    let b = es.take(i + 1);
    assert forall|x: MessageView| #[trigger] shape::entry_recs(b).contains(x) <==> shape::entry_recs(
        a,
    ).union(versions_recs(es[i].key, es[i].versions)).contains(x) by {
        if node::entries_have(b, x.key, x.version) {
            let j = choose|j: int|
                #![trigger b[j]]
                0 <= j < b.len() && b[j].key == x.key && b[j].versions.contains(x.version);
            if j < i {
                assert(a[j] == b[j]);
            }
        }
        if node::entries_have(a, x.key, x.version) {
            let j = choose|j: int|
                #![trigger a[j]]
                0 <= j < a.len() && a[j].key == x.key && a[j].versions.contains(x.version);
            assert(b[j] == a[j]);
        }
        if versions_recs(es[i].key, es[i].versions).contains(x) {
            assert(b[i] == es[i]);
        }
    }
    assert(shape::entry_recs(b) =~= shape::entry_recs(a).union(
        versions_recs(es[i].key, es[i].versions),
    ));
}

/// Collect the records of a tree: leaf by leaf its versions, and behind them the
/// messages on the path to the leaf.
pub fn materialize_node(
    pool: &PagePool,
    pid: u64,
    path: &Vec<BufferedMessage>,
    out: &mut Vec<BufferedMessage>,
    Ghost(t): Ghost<TreeView>,
    Ghost(h): Ghost<nat>,
)
    requires
        pool.wf(),
        shape::rep(pool.view().pages, t),
        shape::wf(t, h),
        pid == shape::pid_of(t),
    ensures
        message::messages_view(final(out)@) == message::messages_view(old(out)@) + gathered(
            t,
            message::messages_view(path@),
        ),
        shape::message_recs(message::messages_view(final(out)@)) == shape::message_recs(
            message::messages_view(old(out)@),
        ).union(shape::tree_recs(t)).union(shape::message_recs(message::messages_view(path@))),
    decreases h,
{
    let ghost pages = pool.view().pages;
    let ghost base = shape::message_recs(message::messages_view(out@));
    let ghost first = message::messages_view(out@);
    let ghost ps = message::messages_view(path@);
    proof {
        shape::tree_parts(t);
    }
    match pool.read_node(pid) {
        Err(_) => {
            proof {
                assert(false);
            }
        },
        Ok(NodePage::Leaf { fence: _, entries }) => {
            push_entries(entries.as_slice(), out);
            let mut more = message::copy_messages(path.as_slice(), 0, path.len());
            let ghost before = message::messages_view(out@);
            let ghost before_out = out@;
            let ghost more0 = more@;
            out.append(&mut more);
            proof {
                assert(message::messages_view(more0) =~= ps);
                assert(message::messages_view(out@) =~= before + ps);
                assert(before + ps =~= first + (entry_messages(t->entries) + ps));
                shape::message_recs_add(before, ps);
            }
        },
        Ok(NodePage::Internal { fence: _, children, separators: _, buffer }) => {
            let mut next = message::copy_messages(path.as_slice(), 0, path.len());
            let ghost next0 = next@;
            let mut buffer = buffer;
            let ghost buffer0 = buffer@;
            next.append(&mut buffer);
            let ghost ns = message::messages_view(next@);
            let ghost kids = t->kids;
            let ghost none = Set::<MessageView>::empty();
            proof {
                assert(message::messages_view(next0) =~= ps);
                assert(ns =~= ps + t->buffer);
                shape::message_recs_add(ps, t->buffer);
                shape::wf_node(t, h);
                assert(shape::forest_recs(kids.take(0)) =~= none);
                assert(base.union(none).union(none) =~= base);
                assert(first + gathered_all(kids, 0, ns) =~= first);
            }
            let mut i: usize = 0;
            while i < children.len()
                invariant
                    i <= children@.len(),
                    h > 0,
                    pool.wf(),
                    pages == pool.view().pages,
                    shape::rep_all(pages, kids),
                    forall|k: int|
                        0 <= k < kids.len() ==> shape::wf(#[trigger] kids[k], (h - 1) as nat),
                    children@ == shape::pids_of(kids),
                    ns == message::messages_view(next@),
                    none == Set::<MessageView>::empty(),
                    message::messages_view(out@) == first + gathered_all(kids, i as nat, ns),
                    shape::message_recs(message::messages_view(out@)) == base.union(
                        shape::forest_recs(kids.take(i as int)),
                    ).union(
                        if i > 0 {
                            shape::message_recs(ns)
                        } else {
                            none
                        },
                    ),
                decreases children@.len() - i,
            {
                proof {
                    assert(children@[i as int] == shape::pid_of(kids[i as int]));
                    assert(shape::rep(pages, kids[i as int]));
                }
                materialize_node(
                    pool,
                    children[i],
                    &next,
                    out,
                    Ghost(kids[i as int]),
                    Ghost((h - 1) as nat),
                );
                proof {
                    let k = i as int;
                    assert(message::messages_view(out@) =~= first + gathered_all(
                        kids,
                        (i + 1) as nat,
                        ns,
                    ));
                    assert(kids.take(k + 1) =~= kids.take(k) + seq![kids[k]]);
                    shape::forest_parts(kids.take(k), seq![kids[k]]);
                    shape::forest_of_one(kids[k]);
                    assert(shape::message_recs(message::messages_view(out@)) =~= base.union(
                        shape::forest_recs(kids.take(k + 1)),
                    ).union(shape::message_recs(ns)));
                }
                i += 1;
            }
            proof {
                assert(kids.take(i as int) =~= kids);
                assert(shape::message_recs(message::messages_view(out@)) =~= base.union(
                    shape::tree_recs(t),
                ).union(shape::message_recs(ps)));
            }
        },
    }
}

/// The value that a reader at `read_ts` sees in versions, newest first.
pub fn visible_from_versions(versions: &[VersionRecord], read_ts: u64) -> (r: Option<&[u8]>)
    requires
        node::sorted_versions(message::versions_view(versions@)),
    ensures
        match lookup::newest(message::versions_view(versions@), read_ts) {
            Some(v) => if v.deleted {
                r is None
            } else {
                r is Some && r->0@ == v.value
            },
            None => r is None,
        },
{
    let ghost vs = message::versions_view(versions@);
    proof {
        lookup::newest_is_newest(vs, read_ts);
    }
    let mut i: usize = 0;
    while i < versions.len()
        invariant
            i <= versions@.len(),
            vs == message::versions_view(versions@),
            node::sorted_versions(vs),
            forall|j: int| 0 <= j < i ==> (#[trigger] vs[j]).commit_ts > read_ts,
        decreases versions@.len() - i,
    {
        assert(vs[i as int] == versions@[i as int]@);
        if versions[i].commit_ts <= read_ts {
            proof {
                lookup::newest_of_sorted(vs, read_ts, i as int);
            }
            if versions[i].deleted {
                return None;
            }
            return Some(versions[i].value.as_slice());
        }
        i += 1;
    }
    proof {
        if lookup::newest(vs, read_ts) is Some {
            let v = lookup::newest(vs, read_ts)->0;
            let k = choose|k: int| 0 <= k < vs.len() && vs[k] == v;
            assert(vs[k].commit_ts > read_ts);
        }
    }
    None
}

/// In sorted entries a lookup finds the newest version of a key.
proof fn entries_lookup(es: Seq<EntryView>, key: Seq<u8>, ts: u64)
    requires
        node::sorted_entries(es),
        node::entries_newest_first(es),
    ensures
        read::is_newest(shape::entry_recs(es), key, ts, lookup::leaf_visible(es, key, ts)),
{
    let t = TreeView::Leaf { pid: 1, fence: node::root_fence(), entries: es };
    assert forall|i: int| 0 <= i < es.len() implies node::in_fence(
        node::root_fence(),
        (#[trigger] es[i]).key,
    ) by {
        read::nothing_below_empty(es[i].key);
    }
    assert(shape::wf(t, 0));
    read::nothing_below_empty(key);
    read::lookup_finds_newest(t, 0, key, ts);
    shape::tree_parts(t);
}

/// In sorted entries the entry with a key is where its lower bound is.
proof fn entry_at(es: Seq<EntryView>, i: int, ts: u64)
    requires
        node::sorted_entries(es),
        0 <= i < es.len(),
    ensures
        node::lower_bound(es, es[i].key) == i,
        lookup::leaf_visible(es, es[i].key, ts) == lookup::newest(es[i].versions, ts),
{
    broadcast use bytes::group_lex;

    let key = es[i].key;
    node::lower_bound_splits(es, key);
    let p = node::lower_bound(es, key) as int;
    if p < i {
        assert(!bytes::lex_lt(es[p].key, key));
        assert(bytes::lex_lt(es[p].key, es[i].key));
    } else if p > i {
        assert(bytes::lex_lt(es[i].key, key));
    }
}

/// The rows of the range in collected entries.
fn rows_of(
    entries: &Vec<LeafEntry>,
    lower: Bound<'_>,
    upper: Bound<'_>,
    read_ts: u64,
    Ghost(recs): Ghost<Set<MessageView>>,
) -> (rows: Vec<Row>)
    requires
        node::sorted_entries(node::entries_view(entries@)),
        node::entries_newest_first(node::entries_view(entries@)),
        shape::refine(shape::entry_recs(node::entries_view(entries@)), recs),
    ensures
        are_rows(recs, read_ts, |key: Seq<u8>| in_range(key, lower, upper), rows_view(rows@)),
        picked(
            node::entries_view(entries@),
            read_ts,
            |key: Seq<u8>| in_range(key, lower, upper),
            rows_view(rows@),
        ),
{
    let ghost es = node::entries_view(entries@);
    let ghost wanted = |key: Seq<u8>| in_range(key, lower, upper);
    let mut rows: Vec<Row> = Vec::new();
    let mut i: usize = 0;
    while i < entries.len()
        invariant
            i <= entries@.len(),
            es == node::entries_view(entries@),
            wanted == (|key: Seq<u8>| in_range(key, lower, upper)),
            node::sorted_entries(es),
            node::entries_newest_first(es),
            forall|a: int, b: int|
                #![trigger rows@[a], rows@[b]]
                0 <= a < b < rows@.len() ==> bytes::lex_lt(rows@[a].key@, rows@[b].key@),
            forall|a: int|
                0 <= a < rows@.len() ==> row_of(es, i as int, read_ts, #[trigger] rows@[a]@)
                    && wanted(rows@[a].key@),
            forall|k: int|
                0 <= k < i && wanted(es[k].key) && seen_value(es[k], read_ts) is Some ==> has_row(
                    rows_view(rows@),
                    (#[trigger] es[k]).key,
                ),
        decreases entries@.len() - i,
    {
        let entry = &entries[i];
        let ghost before = rows@;
        proof {
            assert(es[i as int] == entry@);
            assert(node::sorted_versions(es[i as int].versions));
        }
        if range_contains(entry.key.as_slice(), lower, upper) {
            match visible_from_versions(entry.versions.as_slice(), read_ts) {
                None => {},
                Some(value) => {
                    rows.push(
                        Row {
                            key: bytes::copy_bytes(entry.key.as_slice()),
                            value: bytes::copy_bytes(value),
                        },
                    );
                },
            }
        }
        proof {
            let i = i as int;
            assert forall|a: int| 0 <= a < rows@.len() implies row_of(
                es,
                i + 1,
                read_ts,
                #[trigger] rows@[a]@,
            ) && wanted(rows@[a].key@) by {
                if a < before.len() {
                    assert(rows@[a] == before[a]);
                    assert(row_of(es, i, read_ts, before[a]@));
                    let k = choose|k: int|
                        0 <= k < i && (#[trigger] es[k]).key == before[a]@.key && seen_value(
                            es[k],
                            read_ts,
                        ) == Some(before[a]@.value);
                    assert(es[k].key == rows@[a]@.key);
                } else {
                    assert(es[i].key == rows@[a]@.key);
                    assert(seen_value(es[i], read_ts) == Some(rows@[a]@.value));
                }
            }
            assert forall|a: int, b: int|
                #![trigger rows@[a], rows@[b]]
                0 <= a < b < rows@.len() implies bytes::lex_lt(rows@[a].key@, rows@[b].key@) by {
                if b < before.len() {
                    assert(rows@[a] == before[a]);
                    assert(rows@[b] == before[b]);
                } else {
                    assert(rows@[a] == before[a]);
                    assert(row_of(es, i, read_ts, before[a]@));
                    let k = choose|k: int|
                        0 <= k < i && (#[trigger] es[k]).key == before[a]@.key && seen_value(
                            es[k],
                            read_ts,
                        ) == Some(before[a]@.value);
                    assert(bytes::lex_lt(es[k].key, es[i].key));
                }
            }
            assert forall|k: int|
                0 <= k < i + 1 && wanted(es[k].key) && seen_value(
                    es[k],
                    read_ts,
                ) is Some implies has_row(rows_view(rows@), (#[trigger] es[k]).key) by {
                let rv = rows_view(rows@);
                if k < i {
                    let bv = rows_view(before);
                    assert(has_row(bv, es[k].key));
                    let a = choose|a: int| 0 <= a < bv.len() && (#[trigger] bv[a]).key == es[k].key;
                    assert(rv[a].key == es[k].key);
                } else {
                    assert(rv[rv.len() - 1].key == es[k].key);
                }
            }
        }
        i += 1;
    }
    proof {
        collected_rows(es, recs, read_ts, wanted, rows_view(rows@));
    }
    rows
}

/// The value that a reader sees in an entry.
pub open spec fn seen_value(e: EntryView, ts: u64) -> Option<Seq<u8>> {
    match lookup::newest(e.versions, ts) {
        Some(v) => if v.deleted {
            None
        } else {
            Some(v.value)
        },
        None => None,
    }
}

/// The row comes from one of the first `n` entries.
pub open spec fn row_of(es: Seq<EntryView>, n: int, ts: u64, row: RowView) -> bool {
    exists|k: int|
        0 <= k < n && (#[trigger] es[k]).key == row.key && seen_value(es[k], ts) == Some(row.value)
}

/// The rows are those of the entries whose keys `wanted` picks, with what a reader at
/// `ts` sees in them.
pub open spec fn picked(
    es: Seq<EntryView>,
    ts: u64,
    wanted: spec_fn(Seq<u8>) -> bool,
    rows: Seq<RowView>,
) -> bool {
    &&& forall|i: int|
        0 <= i < rows.len() ==> row_of(es, es.len() as int, ts, #[trigger] rows[i]) && wanted(
            rows[i].key,
        )
    &&& forall|k: int|
        0 <= k < es.len() && wanted((#[trigger] es[k]).key) && seen_value(es[k], ts) is Some
            ==> has_row(rows, es[k].key)
}

/// Rows picked from entries that hold the records are the rows of the records.
proof fn collected_rows(
    es: Seq<EntryView>,
    recs: Set<MessageView>,
    ts: u64,
    wanted: spec_fn(Seq<u8>) -> bool,
    rows: Seq<RowView>,
)
    requires
        node::sorted_entries(es),
        node::entries_newest_first(es),
        shape::refine(shape::entry_recs(es), recs),
        forall|i: int, j: int|
            #![trigger rows[i], rows[j]]
            0 <= i < j < rows.len() ==> bytes::lex_lt(rows[i].key, rows[j].key),
        forall|i: int|
            0 <= i < rows.len() ==> row_of(es, es.len() as int, ts, #[trigger] rows[i]) && wanted(
                rows[i].key,
            ),
        forall|k: int|
            0 <= k < es.len() && wanted(es[k].key) && seen_value(es[k], ts) is Some ==> has_row(
                rows,
                (#[trigger] es[k]).key,
            ),
    ensures
        are_rows(recs, ts, wanted, rows),
{
    let er = shape::entry_recs(es);
    assert forall|i: int| 0 <= i < rows.len() implies wanted((#[trigger] rows[i]).key)
        && row_is_seen(recs, ts, rows[i]) by {
        let row = rows[i];
        let k = choose|k: int|
            0 <= k < es.len() && (#[trigger] es[k]).key == row.key && seen_value(es[k], ts) == Some(
                row.value,
            );
        entries_lookup(es, row.key, ts);
        entry_at(es, k, ts);
        let v = lookup::newest(es[k].versions, ts);
        read::newest_of_refined(er, recs, row.key, ts, v);
        assert(read::is_newest(recs, row.key, ts, Some(v->0)));
    }
    assert forall|key: Seq<u8>| #[trigger] wanted(key) && !has_row(rows, key) implies is_unseen(
        recs,
        ts,
        key,
    ) by {
        entries_lookup(es, key, ts);
        let v = lookup::leaf_visible(es, key, ts);
        read::newest_of_refined(er, recs, key, ts, v);
        let p = node::lower_bound(es, key) as int;
        if p < es.len() && es[p].key == key {
            assert(wanted(es[p].key));
            assert(seen_value(es[p], ts) is None);
        }
        assert(read::is_newest(recs, key, ts, v));
    }
}

/// The rows of a tree in a range.
pub fn scan_tree(
    pool: &PagePool,
    root: u64,
    lower: Bound<'_>,
    upper: Bound<'_>,
    read_ts: u64,
    Ghost(t): Ghost<TreeView>,
    Ghost(h): Ghost<nat>,
) -> (rows: Vec<Row>)
    requires
        pool.wf(),
        shape::rep(pool.view().pages, t),
        shape::wf(t, h),
        root == shape::pid_of(t),
    ensures
        are_rows(
            shape::tree_recs(t),
            read_ts,
            |key: Seq<u8>| in_range(key, lower, upper),
            rows_view(rows@),
        ),
        picked(
            entries_of(t),
            read_ts,
            |key: Seq<u8>| in_range(key, lower, upper),
            rows_view(rows@),
        ),
{
    let path: Vec<BufferedMessage> = Vec::new();
    let mut out: Vec<BufferedMessage> = Vec::new();
    proof {
        assert(shape::message_recs(message::messages_view(path@)) =~= Set::<MessageView>::empty());
    }
    materialize_node(pool, root, &path, &mut out, Ghost(t), Ghost(h));
    let ghost ms = message::messages_view(out@);
    proof {
        assert(message::messages_view(path@) =~= Seq::<MessageView>::empty());
        assert(ms =~= gathered(t, Seq::empty()));
    }
    let mut entries: Vec<LeafEntry> = Vec::new();
    let ghost none = Seq::<EntryView>::empty();
    proof {
        assert(node::entries_view(entries@) =~= none);
        read::inside_root_fence(none, ms);
        shape::apply_messages_refine(none, ms, node::root_fence());
        assert(shape::entry_recs(none) =~= Set::<MessageView>::empty());
        assert(shape::entry_recs(none).union(shape::message_recs(ms)) =~= shape::tree_recs(t));
    }
    rewrite::apply_all(&mut entries, out.as_slice());
    rows_of(&entries, lower, upper, read_ts, Ghost(shape::tree_recs(t)))
}

/// The rows whose keys start with `prefix`.
pub fn keep_prefix(
    rows: Vec<Row>,
    prefix: &[u8],
    Ghost(recs): Ghost<Set<MessageView>>,
    Ghost(ts): Ghost<u64>,
) -> (r: Vec<Row>)
    requires
        are_rows(recs, ts, |key: Seq<u8>| in_range(key, Bound::Unbounded, Bound::Unbounded), rows_view(rows@)),
    ensures
        are_rows(recs, ts, |key: Seq<u8>| bytes::has_prefix(key, prefix@), rows_view(r@)),
        kept_prefix(rows_view(rows@), prefix@, rows_view(r@)),
{
    let ghost all = rows_view(rows@);
    let mut r: Vec<Row> = Vec::new();
    let mut i: usize = 0;
    while i < rows.len()
        invariant
            i <= rows@.len(),
            all == rows_view(rows@),
            forall|a: int, b: int|
                #![trigger r@[a], r@[b]]
                0 <= a < b < r@.len() ==> bytes::lex_lt(r@[a].key@, r@[b].key@),
            forall|a: int, b: int|
                #![trigger all[a], all[b]]
                0 <= a < b < all.len() ==> bytes::lex_lt(all[a].key, all[b].key),
            forall|a: int|
                0 <= a < r@.len() ==> bytes::has_prefix((#[trigger] r@[a]).key@, prefix@)
                    && from_rows(all, i as int, r@[a]@),
            forall|k: int|
                0 <= k < i && bytes::has_prefix(all[k].key, prefix@) ==> has_row(
                    rows_view(r@),
                    (#[trigger] all[k]).key,
                ),
        decreases rows@.len() - i,
    {
        let ghost before = r@;
        let row = &rows[i];
        assert(all[i as int] == row@);
        if bytes::starts_with(row.key.as_slice(), prefix) {
            r.push(
                Row {
                    key: bytes::copy_bytes(row.key.as_slice()),
                    value: bytes::copy_bytes(row.value.as_slice()),
                },
            );
        }
        proof {
            let i = i as int;
            assert forall|a: int| 0 <= a < r@.len() implies bytes::has_prefix(
                (#[trigger] r@[a]).key@,
                prefix@,
            ) && from_rows(all, i + 1, r@[a]@) by {
                if a < before.len() {
                    assert(r@[a] == before[a]);
                    let k = choose|k: int| 0 <= k < i && #[trigger] all[k] == before[a]@;
                    assert(all[k] == r@[a]@);
                } else {
                    assert(all[i] == r@[a]@);
                }
            }
            assert forall|a: int, b: int|
                #![trigger r@[a], r@[b]]
                0 <= a < b < r@.len() implies bytes::lex_lt(r@[a].key@, r@[b].key@) by {
                assert(r@[a] == before[a]);
                if b < before.len() {
                    assert(r@[b] == before[b]);
                } else {
                    assert(from_rows(all, i, before[a]@));
                    let k = choose|k: int| 0 <= k < i && #[trigger] all[k] == before[a]@;
                    assert(bytes::lex_lt(all[k].key, all[i].key));
                }
            }
            assert forall|k: int|
                0 <= k < i + 1 && bytes::has_prefix(all[k].key, prefix@) implies has_row(
                rows_view(r@),
                (#[trigger] all[k]).key,
            ) by {
                let rv = rows_view(r@);
                if k < i {
                    let bv = rows_view(before);
                    let a = choose|a: int| 0 <= a < bv.len() && (#[trigger] bv[a]).key == all[k].key;
                    assert(rv[a].key == all[k].key);
                } else {
                    assert(rv[rv.len() - 1].key == all[k].key);
                }
            }
        }
        i += 1;
    }
    proof {
        let rv = rows_view(r@);
        let every = |key: Seq<u8>| in_range(key, Bound::Unbounded, Bound::Unbounded);
        let wanted = |key: Seq<u8>| bytes::has_prefix(key, prefix@);
        assert(kept_prefix(all, prefix@, rv)) by {
            assert forall|a: int| 0 <= a < rv.len() implies bytes::has_prefix(
                (#[trigger] rv[a]).key,
                prefix@,
            ) && from_rows(all, all.len() as int, rv[a]) by {
                assert(rv[a] == r@[a]@);
            }
        }
        assert forall|a: int| 0 <= a < rv.len() implies wanted((#[trigger] rv[a]).key)
            && row_is_seen(recs, ts, rv[a]) by {
            assert(rv[a] == r@[a]@);
            let k = choose|k: int| 0 <= k < rows@.len() && #[trigger] all[k] == r@[a]@;
            assert(row_is_seen(recs, ts, all[k]));
        }
        assert forall|key: Seq<u8>| #[trigger]
            wanted(key) && !has_row(rv, key) implies is_unseen(recs, ts, key) by {
            assert(every(key));
            if has_row(all, key) {
                let k = choose|k: int| 0 <= k < all.len() && (#[trigger] all[k]).key == key;
                assert(has_row(rv, all[k].key));
            }
        }
    }
    r
}

/// Of the rows those whose keys start with `prefix`, and no others.
pub open spec fn kept_prefix(all: Seq<RowView>, prefix: Seq<u8>, rows: Seq<RowView>) -> bool {
    &&& forall|a: int|
        0 <= a < rows.len() ==> bytes::has_prefix((#[trigger] rows[a]).key, prefix) && from_rows(
            all,
            all.len() as int,
            rows[a],
        )
    &&& forall|k: int|
        0 <= k < all.len() && bytes::has_prefix((#[trigger] all[k]).key, prefix) ==> has_row(
            rows,
            all[k].key,
        )
}

/// What is kept of the rows of all keys is what would have been picked by prefix.
pub proof fn kept_is_picked(
    es: Seq<EntryView>,
    ts: u64,
    prefix: Seq<u8>,
    all: Seq<RowView>,
    rows: Seq<RowView>,
)
    requires
        picked(
            es,
            ts,
            |key: Seq<u8>| in_range(key, Bound::Unbounded, Bound::Unbounded),
            all,
        ),
        kept_prefix(all, prefix, rows),
    ensures
        picked(es, ts, |key: Seq<u8>| bytes::has_prefix(key, prefix), rows),
{
    let every = |key: Seq<u8>| in_range(key, Bound::Unbounded, Bound::Unbounded);
    let wanted = |key: Seq<u8>| bytes::has_prefix(key, prefix);
    assert forall|i: int| 0 <= i < rows.len() implies row_of(
        es,
        es.len() as int,
        ts,
        #[trigger] rows[i],
    ) && wanted(rows[i].key) by {
        let k = choose|k: int| 0 <= k < all.len() && #[trigger] all[k] == rows[i];
        assert(row_of(es, es.len() as int, ts, all[k]));
    }
    assert forall|k: int|
        0 <= k < es.len() && wanted((#[trigger] es[k]).key) && seen_value(es[k], ts) is Some implies
        has_row(rows, es[k].key) by {
        assert(every(es[k].key));
        let j = choose|j: int| 0 <= j < all.len() && (#[trigger] all[j]).key == es[k].key;
        assert(has_row(rows, all[j].key));
    }
}

pub open spec fn from_rows(all: Seq<RowView>, n: int, row: RowView) -> bool {
    exists|k: int| 0 <= k < n && #[trigger] all[k] == row
}

} // verus!
