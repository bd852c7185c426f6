//! What holds of trees across operations: what is read back, what stays as it
//! was, and that the trees of a family do not disturb each other.
use vstd::prelude::*;

use crate::betree::calm;
use crate::betree::carry;
use crate::betree::config::CowBeTreeConfig;
use crate::betree::course;
use crate::betree::course::Out;
use crate::betree::gc;
use crate::betree::local::LocalWrite;
use crate::betree::message;
use crate::betree::message::{MessageView, VersionView};
use crate::betree::node;
use crate::betree::node::{CowBeTreeError, EntryView, FenceView};
use crate::betree::pool;
use crate::betree::pool::PoolView;
use crate::betree::read;
use crate::betree::rewrite;
use crate::betree::scan;
use crate::betree::scan::RowView;
use crate::betree::scan_laws;
use crate::betree::shape;
use crate::betree::shape::TreeView;
use crate::betree::takes;
use crate::betree::tree;
use crate::betree::tree::CowBeTree;
use crate::page_id::Lsn;

verus! {

// ---------------------------------------------------------------------------
// Reading.

/// What a reader at `ts` sees of `key`.
pub open spec fn visible(t: CowBeTree, key: Seq<u8>, ts: u64) -> Option<VersionView> {
    read::tree_lookup(t.tree(), key, ts)
}

/// No two records of the key have the same timestamp.
pub open spec fn one_version_each(recs: Set<MessageView>, key: Seq<u8>) -> bool {
    forall|a: MessageView, b: MessageView| #[trigger]
        recs.contains(a) && #[trigger] recs.contains(b) && a.key == key && b.key == key
            && a.version.commit_ts == b.version.commit_ts ==> a == b
}

/// A reader sees the newest version at or before its timestamp.
pub proof fn reader_sees_newest(t: CowBeTree, s: PoolView, key: Seq<u8>, ts: u64)
    requires
        t.stands(s),
    ensures
        read::is_newest(t.recs(), key, ts, visible(t, key, ts)),
{
    read::nothing_below_empty(key);
    read::lookup_finds_newest(t.tree(), t.depth(), key, ts);
}

/// There is one newest version.
proof fn newest_is_unique(
    recs: Set<MessageView>,
    key: Seq<u8>,
    ts: u64,
    a: Option<VersionView>,
    b: Option<VersionView>,
)
    requires
        read::is_newest(recs, key, ts, a),
        read::is_newest(recs, key, ts, b),
        one_version_each(recs, key),
    ensures
        a == b,
{
    if a is Some {
        assert(recs.contains(MessageView { key, version: a->0 }));
    }
    if b is Some {
        assert(recs.contains(MessageView { key, version: b->0 }));
    }
}

proof fn only_holds(m: MessageView)
    ensures
        forall|x: MessageView| #[trigger] tree::only(m).contains(x) <==> x == m,
{
    assert forall|x: MessageView| #[trigger] tree::only(m).contains(x) <==> x == m by {
        assert(seq![m][0] == m);
    }
}

/// A write is read back by every reader at or after its timestamp, until a newer
/// version comes. No version of the key may have had the same timestamp.
pub proof fn write_is_read_back(
    pre: CowBeTree,
    s1: PoolView,
    post: CowBeTree,
    s2: PoolView,
    m: MessageView,
    ts: u64,
)
    requires
        tree::written(pre, s1, post, s2, tree::only(m)),
        m.version.commit_ts <= ts,
        forall|x: MessageView| #[trigger]
            pre.recs().contains(x) && x.key == m.key ==> x.version.commit_ts
                < m.version.commit_ts || x.version.commit_ts > ts,
    ensures
        visible(post, m.key, ts) == Some(m.version),
{
    let all = pre.recs().union(tree::only(m));
    only_holds(m);
    reader_sees_newest(post, s2, m.key, ts);
    read::newest_of_refined(post.recs(), all, m.key, ts, visible(post, m.key, ts));
    assert(all.contains(m));
    let v = visible(post, m.key, ts);
    assert(v is Some);
    assert(all.contains(MessageView { key: m.key, version: v->0 }));
}

/// The message waits in no buffer of the tree under another version: none waits that
/// gives its key another version with its timestamp.
pub open spec fn no_rival_waits(t: CowBeTree, m: MessageView) -> bool {
    forall|y: MessageView| #[trigger]
        carry::waits(t.tree(), y) && y.key == m.key && y.version.commit_ts == m.version.commit_ts
            ==> y == m
}

/// No version of the key of `m` is newer than `m`, but not too new for a reader at
/// `ts`.
pub open spec fn none_between(t: CowBeTree, m: MessageView, ts: u64) -> bool {
    forall|x: MessageView| #[trigger]
        t.recs().contains(x) && x.key == m.key ==> x.version.commit_ts <= m.version.commit_ts
            || x.version.commit_ts > ts
}

proof fn none_newer_after(
    pre: CowBeTree,
    s1: PoolView,
    post: CowBeTree,
    s2: PoolView,
    m: MessageView,
    ts: u64,
)
    requires
        tree::written(pre, s1, post, s2, tree::only(m)),
        none_between(pre, m, ts),
    ensures
        carry::none_newer(post.tree(), m, ts),
{
    let all = pre.recs().union(tree::only(m));
    only_holds(m);
    assert forall|y: MessageView| #[trigger]
        shape::has_rec(post.tree(), y) && y.key == m.key && y.version.commit_ts <= ts implies
        y.version.commit_ts <= m.version.commit_ts by {
        assert(post.recs().contains(y));
        assert(all.contains(y));
    }
}

/// A write that is made is in the tree, and what waits with its key and timestamp is the
/// write itself, if no other waited.
#[verifier::rlimit(40)]
#[verifier::spinoff_prover]
proof fn write_stands(
    pre: CowBeTree,
    s1: PoolView,
    post: CowBeTree,
    s2: PoolView,
    m: MessageView,
    way: LocalWrite,
)
    requires
        pre.stands(s1),
        tree::write_outcome(pre, s1, m, way, post, s2, None),
        takes::is_sized(m),
        no_rival_waits(pre, m),
    ensures
        shape::has_rec(post.tree(), m),
        no_rival_waits(post, m),
{
    let (t, t2) = (pre.tree(), post.tree());
    match tree::one_page(pre, s1, m, way) {
        Err(_) => {},
        Ok(Some(p)) => {
            carry::landing_is_in_tree(s1.pages, t, m, pre.options(), way);
            assert(shape::has_pid(t, p));
            carry::taken_carries(t, p, m);
        },
        Ok(None) => {
            let w = carry::waiting_with(t, m);
            assert(carry::unrivalled(w, m)) by {
                assert forall|y: MessageView| #[trigger] w.contains(y) && carry::same_slot(
                    y,
                    m,
                ) implies y == m by {}
            }
            let whole = course::bare(t2);
            carry::root_put_carries(pre.options(), t, pre.depth(), m, whole);
            carry::bare_carries(t2, m);
            assert forall|y: MessageView| #[trigger] carry::waits(t2, y) implies carry::waits(t, y)
                || y == m by {
                carry::bare_carries(t2, y);
            }
        },
    }
}

/// A write takes the place of what the leaf of its key held with its timestamp: it is
/// read back by every reader at or after its timestamp, until a newer version comes.
///
/// Only a version with the same timestamp that still waits in a buffer may keep the
/// write from being seen, since in a buffer the earlier message comes first.
pub proof fn last_write_is_read_back(
    pre: CowBeTree,
    s1: PoolView,
    post: CowBeTree,
    s2: PoolView,
    m: MessageView,
    way: LocalWrite,
    ts: u64,
)
    requires
        pre.stands(s1),
        tree::written(pre, s1, post, s2, tree::only(m)),
        tree::write_outcome(pre, s1, m, way, post, s2, None),
        takes::is_sized(m),
        no_rival_waits(pre, m),
        m.version.commit_ts <= ts,
        none_between(pre, m, ts),
    ensures
        visible(post, m.key, ts) == Some(m.version),
{
    let t2 = post.tree();
    write_stands(pre, s1, post, s2, m, way);
    none_newer_after(pre, s1, post, s2, m, ts);
    assert forall|y: MessageView| #[trigger] carry::waits(t2, y) && carry::same_slot(
        y,
        m,
    ) implies y == m by {}
    assert(node::in_fence(shape::fence_of(t2), m.key));
    carry::unrivalled_comes_first(t2, post.depth(), m);
    carry::first_on_the_way_is_seen(t2, post.depth(), m, ts);
}

/// A scan shows a write as a lookup does, also where its leaf held another version with
/// its timestamp; a deletion keeps the key from being shown.
pub proof fn last_write_is_scanned(
    pre: CowBeTree,
    s1: PoolView,
    post: CowBeTree,
    s2: PoolView,
    m: MessageView,
    way: LocalWrite,
    ts: u64,
    wanted: spec_fn(Seq<u8>) -> bool,
    rows: Seq<RowView>,
)
    requires
        pre.stands(s1),
        tree::written(pre, s1, post, s2, tree::only(m)),
        tree::write_outcome(pre, s1, m, way, post, s2, None),
        takes::is_sized(m),
        no_rival_waits(pre, m),
        m.version.commit_ts <= ts,
        none_between(pre, m, ts),
        scan::picked(scan::entries_of(post.tree()), ts, wanted, rows),
        wanted(m.key),
    ensures
        m.version.deleted ==> !scan::has_row(rows, m.key),
        !m.version.deleted ==> rows.contains(RowView { key: m.key, value: m.version.value }),
{
    let t2 = post.tree();
    write_stands(pre, s1, post, s2, m, way);
    none_newer_after(pre, s1, post, s2, m, ts);
    assert forall|y: MessageView| #[trigger] carry::waits(t2, y) && carry::same_slot(
        y,
        m,
    ) implies y == m by {}
    scan_laws::scan_shows_what_waits(t2, post.depth(), m, ts, wanted, rows);
}

/// A write that the buffer of the root takes up is read back by every reader at or
/// after its timestamp, until a newer version comes, whatever waits below it and
/// whatever the leaf holds with its timestamp.
pub proof fn write_in_root_buffer_is_read_back(
    pre: CowBeTree,
    s1: PoolView,
    post: CowBeTree,
    s2: PoolView,
    m: MessageView,
    ts: u64,
)
    requires
        tree::written(pre, s1, post, s2, tree::only(m)),
        pre.tree() is Node,
        post.tree() is Node,
        post.tree()->buffer == pre.tree()->buffer.push(m),
        forall|k: int|
            0 <= k < pre.tree()->buffer.len() ==> !carry::same_slot(
                #[trigger] pre.tree()->buffer[k],
                m,
            ),
        m.version.commit_ts <= ts,
        none_between(pre, m, ts),
    ensures
        visible(post, m.key, ts) == Some(m.version),
{
    let (b, b2) = (pre.tree()->buffer, post.tree()->buffer);
    let j = b.len() as int;
    assert(carry::leads(b2, m, j)) by {
        assert forall|k: int| 0 <= k < j implies !carry::same_slot(#[trigger] b2[k], m) by {
            assert(b2[k] == b[k]);
        }
    }
    none_newer_after(pre, s1, post, s2, m, ts);
    assert(node::in_fence(shape::fence_of(post.tree()), m.key));
    carry::first_on_the_way_is_seen(post.tree(), post.depth(), m, ts);
}

/// A key that was deleted last is not seen by readers at or after the deletion, until
/// a newer version comes, also where its leaf held a value with the same timestamp.
pub proof fn last_deletion_hides_the_key(
    pre: CowBeTree,
    s1: PoolView,
    post: CowBeTree,
    s2: PoolView,
    key: Seq<u8>,
    commit_ts: u64,
    way: LocalWrite,
    ts: u64,
)
    requires
        pre.stands(s1),
        tree::written(pre, s1, post, s2, tree::only(message::delete_view(key, commit_ts))),
        tree::write_outcome(pre, s1, message::delete_view(key, commit_ts), way, post, s2, None),
        takes::is_sized(message::delete_view(key, commit_ts)),
        no_rival_waits(pre, message::delete_view(key, commit_ts)),
        commit_ts <= ts,
        none_between(pre, message::delete_view(key, commit_ts), ts),
    ensures
        tree::seen(visible(post, key, ts)) is None,
{
    last_write_is_read_back(
        pre,
        s1,
        post,
        s2,
        message::delete_view(key, commit_ts),
        way,
        ts,
    );
}

/// A buffer is flushed when it is full: a write that goes through the root leaves fewer
/// messages in every buffer than it takes to flush one, if it was so before.
pub proof fn full_buffers_are_flushed(
    pre: CowBeTree,
    s1: PoolView,
    post: CowBeTree,
    s2: PoolView,
    m: MessageView,
    way: LocalWrite,
)
    requires
        tree::write_outcome(pre, s1, m, way, post, s2, None),
        tree::one_page(pre, s1, m, way) == Ok::<Option<u64>, CowBeTreeError>(None),
        takes::is_sized(m),
        calm::calm(pre.options().flush_threshold_messages as int, pre.tree()),
        pre.tree() is Node,
    ensures
        calm::calm(pre.options().flush_threshold_messages as int, post.tree()),
{
    calm::root_put_is_calm(pre.options(), pre.tree(), pre.depth(), m, post.tree());
}

/// A root that is a leaf is split by a write that goes through the root where it would
/// have more entries than the limit, or have no place on its page: into two leaves of
/// as many entries, or one less in the left one. A leaf of one entry is not split.
#[verifier::rlimit(40)]
#[verifier::spinoff_prover]
pub proof fn full_leaf_is_split(
    pre: CowBeTree,
    s1: PoolView,
    post: CowBeTree,
    s2: PoolView,
    m: MessageView,
    way: LocalWrite,
)
    requires
        tree::write_outcome(pre, s1, m, way, post, s2, None),
        tree::one_page(pre, s1, m, way) == Ok::<Option<u64>, CowBeTreeError>(None),
        takes::is_sized(m),
        pre.tree() is Leaf,
    ensures
        ({
            let es = pre.tree()->entries;
            let max = pre.options().max_leaf_entries;
            let known = exists|i: int| 0 <= i < es.len() && (#[trigger] es[i]).key == m.key;
            let t2 = post.tree();
            &&& !known && es.len() + 1 > max && es.len() >= 1 ==> t2 is Node
            &&& t2 is Leaf ==> t2->entries.len() <= max || t2->entries.len() < 2
            &&& t2 is Node ==> {
                let (l, r) = (t2->kids[0], t2->kids[1]);
                &&& t2->kids.len() == 2
                &&& t2->buffer.len() == 0
                &&& l is Leaf && r is Leaf
                &&& 1 <= l->entries.len() <= r->entries.len() <= l->entries.len() + 1
                &&& es.len() <= l->entries.len() + r->entries.len() <= es.len() + 1
                &&& !known ==> l->entries.len() + r->entries.len() == es.len() + 1
            }
        }),
{
    let es = pre.tree()->entries;
    let b = course::bare(pre.tree());
    course::bare_node(pre.tree());
    let all = node::apply_messages(es, seq![m]);
    one_more_entry(es, m);
    let o = course::put(pre.options(), b, seq![m], pre.depth())->Ok_0;
    cut_in_half(pre.options(), shape::fence_of(b), all, o);
    let t2 = post.tree();
    assert(course::rooted(Ok(o)) == Ok::<TreeView, CowBeTreeError>(course::bare(t2)));
    bare_lens(t2);
    if o.kids.len() == 2 {
        assert(course::bare(t2)->kids == o.kids);
    }
}

proof fn one_more_entry(es: Seq<EntryView>, m: MessageView)
    ensures
        ({
            let all = node::apply_messages(es, seq![m]);
            let known = exists|i: int| 0 <= i < es.len() && (#[trigger] es[i]).key == m.key;
            &&& es.len() <= all.len() <= es.len() + 1
            &&& !known ==> all.len() == es.len() + 1
        }),
{
    let ms = seq![m];
    assert(ms.drop_last() =~= Seq::<MessageView>::empty());
    assert(node::apply_messages(es, ms.drop_last()) == es);
    assert(node::apply_messages(es, ms) == node::apply_message(es, m));
    node::lower_bound_splits(es, m.key);
}

proof fn cut_in_half(config: CowBeTreeConfig, fence: FenceView, all: Seq<EntryView>, o: Out)
    requires
        course::leaf_written(config, fence, all) == Ok::<Out, CowBeTreeError>(o),
    ensures
        o.kids.len() == 1 || o.kids.len() == 2,
        o.kids.len() == 1 ==> o.kids[0] is Leaf && o.kids[0]->entries == all && (all.len()
            <= config.max_leaf_entries || all.len() < 2),
        o.kids.len() == 2 ==> {
            let (l, r) = (o.kids[0], o.kids[1]);
            &&& l is Leaf && r is Leaf
            &&& 1 <= l->entries.len() <= r->entries.len() <= l->entries.len() + 1
            &&& l->entries.len() + r->entries.len() == all.len()
        },
{
}

/// Page ids aside, a tree has the nodes that it has.
proof fn bare_lens(t: TreeView)
    ensures
        course::bare(t) is Leaf == t is Leaf,
        t is Leaf ==> course::bare(t)->entries == t->entries,
        t is Node ==> course::bare(t)->buffer == t->buffer && course::bare(t)->kids.len()
            == t->kids.len(),
        forall|i: int|
            #![trigger t->kids[i]]
            t is Node && 0 <= i < t->kids.len() ==> (course::bare(t)->kids[i] is Leaf
                == t->kids[i] is Leaf) && (t->kids[i] is Leaf ==> course::bare(t)->kids[i]->entries
                == t->kids[i]->entries),
{
    course::bare_node(t);
    if t is Node {
        assert forall|i: int|
            #![trigger t->kids[i]]
            0 <= i < t->kids.len() implies (course::bare(t)->kids[i] is Leaf == t->kids[i] is Leaf)
            && (t->kids[i] is Leaf ==> course::bare(t)->kids[i]->entries
            == t->kids[i]->entries) by {
            course::bare_node(t->kids[i]);
        }
    }
}

/// A write does not change what is read of other keys, nor of its key before its
/// timestamp.
pub proof fn write_leaves_other_reads(
    pre: CowBeTree,
    s1: PoolView,
    post: CowBeTree,
    s2: PoolView,
    m: MessageView,
    key: Seq<u8>,
    ts: u64,
)
    requires
        pre.stands(s1),
        tree::written(pre, s1, post, s2, tree::only(m)),
        key != m.key || ts < m.version.commit_ts,
        one_version_each(pre.recs(), key),
    ensures
        visible(post, key, ts) == visible(pre, key, ts),
{
    let all = pre.recs().union(tree::only(m));
    only_holds(m);
    reader_sees_newest(pre, s1, key, ts);
    reader_sees_newest(post, s2, key, ts);
    let v = visible(post, key, ts);
    read::newest_of_refined(post.recs(), all, key, ts, v);
    assert forall|x: MessageView| #[trigger] pre.recs().contains(x) implies all.contains(x) by {}
    if v is Some {
        assert(all.contains(MessageView { key, version: v->0 }));
    }
    assert(read::is_newest(pre.recs(), key, ts, v));
    newest_is_unique(pre.recs(), key, ts, v, visible(pre, key, ts));
}

/// A deleted key is not seen by readers at or after the deletion, until a newer
/// version comes.
pub proof fn deleted_key_is_not_seen(
    pre: CowBeTree,
    s1: PoolView,
    post: CowBeTree,
    s2: PoolView,
    key: Seq<u8>,
    commit_ts: u64,
    ts: u64,
)
    requires
        tree::written(pre, s1, post, s2, tree::only(message::delete_view(key, commit_ts))),
        commit_ts <= ts,
        forall|x: MessageView| #[trigger]
            pre.recs().contains(x) && x.key == key ==> x.version.commit_ts < commit_ts
                || x.version.commit_ts > ts,
    ensures
        tree::seen(visible(post, key, ts)) is None,
{
    write_is_read_back(pre, s1, post, s2, message::delete_view(key, commit_ts), ts);
}

/// No write of a message longer than a page succeeds, if the tree has no record of
/// its key with its timestamp.
pub proof fn long_message_is_refused(
    pre: CowBeTree,
    s1: PoolView,
    post: CowBeTree,
    s2: PoolView,
    m: MessageView,
)
    requires
        pool::pool_ok(s2),
        !takes::is_short(m),
        !shape::has_slot(pre.recs(), m.key, m.version.commit_ts),
    ensures
        !tree::written(pre, s1, post, s2, tree::only(m)),
{
    if tree::written(pre, s1, post, s2, tree::only(m)) {
        let all = pre.recs().union(tree::only(m));
        assert(seq![m][0] == m);
        assert(all.contains(m));
        let x = choose|x: MessageView| #[trigger]
            post.recs().contains(x) && x.key == m.key && x.version.commit_ts
                == m.version.commit_ts;
        assert(all.contains(x));
        assert(x == m);
        takes::records_are_short(s2, post.tree(), m);
    }
}

/// Flushing and compacting do not change what is read.
pub proof fn rearranging_keeps_reads(
    pre: CowBeTree,
    s1: PoolView,
    post: CowBeTree,
    s2: PoolView,
    key: Seq<u8>,
    ts: u64,
)
    requires
        pre.stands(s1),
        tree::written(pre, s1, post, s2, tree::nothing()),
        one_version_each(pre.recs(), key),
    ensures
        visible(post, key, ts) == visible(pre, key, ts),
{
    assert(pre.recs().union(tree::nothing()) =~= pre.recs());
    reader_sees_newest(pre, s1, key, ts);
    reader_sees_newest(post, s2, key, ts);
    let v = visible(post, key, ts);
    read::newest_of_refined(post.recs(), pre.recs(), key, ts, v);
    newest_is_unique(pre.recs(), key, ts, v, visible(pre, key, ts));
}

/// Reclaiming versions does not change what is read at or above the watermark.
pub proof fn reclaiming_keeps_reads(
    pre: CowBeTree,
    s1: PoolView,
    post: CowBeTree,
    s2: PoolView,
    watermark: u64,
    key: Seq<u8>,
    ts: u64,
)
    requires
        pre.stands(s1),
        tree::reclaimed(pre, s1, post, s2, watermark),
        watermark <= ts,
        one_version_each(pre.recs(), key),
    ensures
        visible(post, key, ts) == visible(pre, key, ts),
{
    reader_sees_newest(pre, s1, key, ts);
    reader_sees_newest(post, s2, key, ts);
    let v = visible(pre, key, ts);
    let w = visible(post, key, ts);
    if v is Some {
        let m = MessageView { key, version: v->0 };
        assert(pre.recs().contains(m));
        assert(gc::needed(pre.recs(), watermark).contains(m));
        let x = choose|x: MessageView| #[trigger]
            post.recs().contains(x) && x.key == m.key && x.version.commit_ts
                == m.version.commit_ts;
        assert(shape::has_slot(post.recs(), m.key, m.version.commit_ts));
        assert(post.recs().contains(x));
        assert(pre.recs().contains(x));
        assert(x == m);
        assert(read::is_newest(post.recs(), key, ts, v));
        assert(one_version_each(post.recs(), key));
        newest_is_unique(post.recs(), key, ts, v, w);
    } else if w is Some {
        assert(post.recs().contains(MessageView { key, version: w->0 }));
        assert(pre.recs().contains(MessageView { key, version: w->0 }));
    }
}

/// A scan and a lookup of a tree agree.
pub proof fn scan_agrees_with_lookup(
    t: CowBeTree,
    s: PoolView,
    ts: u64,
    wanted: spec_fn(Seq<u8>) -> bool,
    rows: Seq<RowView>,
    key: Seq<u8>,
    value: Seq<u8>,
)
    requires
        t.stands(s),
        scan::are_rows(t.recs(), ts, wanted, rows),
        wanted(key),
        one_version_each(t.recs(), key),
    ensures
        rows.contains(RowView { key, value }) <==> tree::seen(visible(t, key, ts)) == Some(value),
{
    reader_sees_newest(t, s, key, ts);
    let v = visible(t, key, ts);
    if rows.contains(RowView { key, value }) {
        let i = choose|i: int| 0 <= i < rows.len() && rows[i] == RowView { key, value };
        assert(scan::row_is_seen(t.recs(), ts, rows[i]));
        let w = choose|w: VersionView| #[trigger]
            read::is_newest(t.recs(), key, ts, Some(w)) && !w.deleted && w.value == value;
        newest_is_unique(t.recs(), key, ts, v, Some(w));
    }
    if tree::seen(v) == Some(value) {
        if !scan::has_row(rows, key) {
            assert(scan::is_unseen(t.recs(), ts, key));
            unseen_is_not_read(t.recs(), ts, key, v);
        } else {
            let i = choose|i: int| 0 <= i < rows.len() && (#[trigger] rows[i]).key == key;
            assert(scan::row_is_seen(t.recs(), ts, rows[i]));
            let w = choose|w: VersionView| #[trigger]
                read::is_newest(t.recs(), key, ts, Some(w)) && !w.deleted && w.value
                    == rows[i].value;
            newest_is_unique(t.recs(), key, ts, v, Some(w));
            assert(rows[i] == RowView { key, value });
        }
    }
}

proof fn unseen_is_not_read(
    recs: Set<MessageView>,
    ts: u64,
    key: Seq<u8>,
    v: Option<VersionView>,
)
    requires
        scan::is_unseen(recs, ts, key),
        read::is_newest(recs, key, ts, v),
        one_version_each(recs, key),
    ensures
        tree::seen(v) is None,
{
    let w = choose|w: Option<VersionView>| #[trigger]
        read::is_newest(recs, key, ts, w) && (w matches Some(w) ==> w.deleted);
    newest_is_unique(recs, key, ts, v, w);
}

/// Two writes of different versions may come in either order.
pub proof fn writes_commute(
    pre: CowBeTree,
    s1: PoolView,
    a1: CowBeTree,
    sa1: PoolView,
    a2: CowBeTree,
    sa2: PoolView,
    b1: CowBeTree,
    sb1: PoolView,
    b2: CowBeTree,
    sb2: PoolView,
    m: MessageView,
    n: MessageView,
)
    requires
        tree::written(pre, s1, a1, sa1, tree::only(m)),
        tree::written(a1, sa1, a2, sa2, tree::only(n)),
        tree::written(pre, s1, b1, sb1, tree::only(n)),
        tree::written(b1, sb1, b2, sb2, tree::only(m)),
        shape::slots_unique(pre.recs().union(tree::only(m)).union(tree::only(n))),
    ensures
        a2.recs() == b2.recs(),
{
    only_holds(m);
    only_holds(n);
    let all = pre.recs().union(tree::only(m)).union(tree::only(n));
    let with_m = pre.recs().union(tree::only(m));
    let with_n = pre.recs().union(tree::only(n));
    assert forall|x: MessageView| #[trigger] with_m.contains(x) implies all.contains(x) by {}
    assert forall|x: MessageView| #[trigger] with_n.contains(x) implies all.contains(x) by {}
    assert(shape::slots_unique(with_m));
    assert(shape::slots_unique(with_n));
    shape::refine_unique(a1.recs(), with_m);
    shape::refine_unique(b1.recs(), with_n);
    assert(a1.recs().union(tree::only(n)) =~= all);
    assert(b1.recs().union(tree::only(m)) =~= all);
    shape::refine_unique(a2.recs(), all);
    shape::refine_unique(b2.recs(), all);
}

// ---------------------------------------------------------------------------
// Pages.

/// Every page that a logged write changed or made is listed with its sequence
/// number, and a page that was listed still is.
pub proof fn changed_pages_are_listed(
    pre: CowBeTree,
    s1: PoolView,
    post: CowBeTree,
    s2: PoolView,
    more: Set<MessageView>,
    lsn: Option<Lsn>,
    p: u64,
)
    requires
        tree::written(pre, tree::with_lsn(s1, lsn), post, tree::with_lsn(s2, lsn), more),
    ensures
        pool::differs(s1, s2, p) ==> pool::is_listed(s2, p, lsn),
        forall|old_lsn: Option<Lsn>|
            pool::is_listed(s1, p, old_lsn) ==> #[trigger] pool::is_listed(s2, p, old_lsn),
{
    let l1 = tree::with_lsn(s1, lsn);
    let l2 = tree::with_lsn(s2, lsn);
    assert(pool::differs(l1, l2, p) == pool::differs(s1, s2, p));
    assert(pool::is_listed(l2, p, lsn) == pool::is_listed(s2, p, lsn));
    assert forall|old_lsn: Option<Lsn>|
        pool::is_listed(s1, p, old_lsn) implies #[trigger] pool::is_listed(s2, p, old_lsn) by {
        assert(pool::is_listed(l1, p, old_lsn));
        assert(pool::is_listed(l2, p, old_lsn));
    }
}

// ---------------------------------------------------------------------------
// Families of trees.

/// How many of the trees hold page `p`.
pub open spec fn holders(trees: Seq<CowBeTree>, p: u64) -> int
    decreases trees.len(),
{
    if trees.len() == 0 {
        0
    } else {
        holders(trees.drop_last(), p) + if trees.last().pids().contains(p) {
            1int
        } else {
            0
        }
    }
}

/// The trees stand in one pool, and the pool knows of every page how many of
/// them hold it, or more.
pub open spec fn is_family(s: PoolView, trees: Seq<CowBeTree>) -> bool {
    &&& pool::pool_ok(s)
    &&& trees.len() <= s.active_roots
    &&& forall|i: int| 0 <= i < trees.len() ==> (#[trigger] trees[i]).stands(s)
    &&& forall|p: u64| #![trigger pool::owners(s, p)] holders(trees, p) <= pool::owners(s, p)
}

proof fn holders_bounds(trees: Seq<CowBeTree>, p: u64)
    ensures
        0 <= holders(trees, p),
        forall|i: int|
            0 <= i < trees.len() && #[trigger] trees[i].pids().contains(p) ==> holders(trees, p)
                >= 1,
        forall|i: int, j: int|
            0 <= i < j < trees.len() && #[trigger] trees[i].pids().contains(p)
                && #[trigger] trees[j].pids().contains(p) ==> holders(trees, p) >= 2,
    decreases trees.len(),
{
    if trees.len() > 0 {
        let front = trees.drop_last();
        holders_bounds(front, p);
        assert forall|i: int|
            0 <= i < trees.len() && #[trigger] trees[i].pids().contains(p) implies holders(
            trees,
            p,
        ) >= 1 by {
            if i < front.len() {
                assert(front[i].pids().contains(p));
            }
        }
        assert forall|i: int, j: int|
            0 <= i < j < trees.len() && #[trigger] trees[i].pids().contains(p)
                && #[trigger] trees[j].pids().contains(p) implies holders(trees, p) >= 2 by {
            assert(front[i].pids().contains(p));
            if j < front.len() {
                assert(front[j].pids().contains(p));
            }
        }
    }
}

proof fn no_holders(trees: Seq<CowBeTree>, p: u64)
    requires
        forall|i: int| 0 <= i < trees.len() ==> !(#[trigger] trees[i]).pids().contains(p),
    ensures
        holders(trees, p) == 0,
    decreases trees.len(),
{
    if trees.len() > 0 {
        let front = trees.drop_last();
        assert forall|i: int| 0 <= i < front.len() implies !(#[trigger] front[i]).pids().contains(
            p,
        ) by {
            assert(front[i] == trees[i]);
        }
        no_holders(front, p);
    }
}

proof fn holders_update(trees: Seq<CowBeTree>, i: int, t: CowBeTree, p: u64)
    requires
        0 <= i < trees.len(),
    ensures
        holders(trees.update(i, t), p) == holders(trees, p) + (if t.pids().contains(p) {
            1int
        } else {
            0
        }) - (if trees[i].pids().contains(p) {
            1int
        } else {
            0
        }),
    decreases trees.len(),
{
    let after = trees.update(i, t);
    if i == trees.len() - 1 {
        assert(after.drop_last() =~= trees.drop_last());
    } else {
        assert(after.drop_last() =~= trees.drop_last().update(i, t));
        holders_update(trees.drop_last(), i, t, p);
    }
}

/// Work on one tree of a family, done or failed, leaves every other tree of it
/// as it was: it stands in the pool with the records that it had.
pub proof fn forks_are_isolated(
    s1: PoolView,
    s2: PoolView,
    trees: Seq<CowBeTree>,
    i: int,
    after: Set<u64>,
    j: int,
)
    requires
        is_family(s1, trees),
        0 <= i < trees.len(),
        0 <= j < trees.len(),
        i != j,
        pool::step(s1, s2, trees[i].pids(), after),
    ensures
        trees[j].stands(s2),
{
    let a = trees[i];
    let b = trees[j];
    assert(b.stands(s1));
    assert forall|p: u64| #[trigger]
        shape::has_pid(b.tree(), p) && p < s1.pages.len() implies p < s2.pages.len()
        && s2.pages[p as int] == s1.pages[p as int] by {
        assert(b.pids().contains(p));
        if a.pids().contains(p) {
            holders_bounds(trees, p);
            assert(trees[i].pids().contains(p) && trees[j].pids().contains(p));
            if i < j {
                assert(holders(trees, p) >= 2);
            } else {
                assert(holders(trees, p) >= 2);
            }
            assert(pool::owners(s1, p) >= 2);
            assert(pool::is_shared(s1, p));
        }
        assert(s2.pages[p as int] == s1.pages[p as int]);
    }
    shape::rep_frame(s1.pages, s2.pages, b.tree());
}

/// A failed operation on one tree leaves every other tree of the family as it
/// was.
pub proof fn failure_is_isolated(
    s1: PoolView,
    s2: PoolView,
    trees: Seq<CowBeTree>,
    i: int,
    j: int,
)
    requires
        is_family(s1, trees),
        0 <= i < trees.len(),
        0 <= j < trees.len(),
        i != j,
        rewrite::failed(s1, s2, trees[i].pids()),
    ensures
        trees[j].stands(s2),
{
    forks_are_isolated(s1, s2, trees, i, Set::<u64>::empty(), j);
}

/// A family stays a family when one of its trees has been worked on.
pub proof fn family_after_work(
    s1: PoolView,
    s2: PoolView,
    trees: Seq<CowBeTree>,
    i: int,
    post: CowBeTree,
)
    requires
        is_family(s1, trees),
        0 <= i < trees.len(),
        post.stands(s2),
        pool::step(s1, s2, trees[i].pids(), post.pids()),
    ensures
        is_family(s2, trees.update(i, post)),
{
    let next = trees.update(i, post);
    assert forall|j: int| 0 <= j < next.len() implies (#[trigger] next[j]).stands(s2) by {
        if j != i {
            forks_are_isolated(s1, s2, trees, i, post.pids(), j);
        }
    }
    assert forall|p: u64|
        #![trigger pool::owners(s2, p)]
        holders(next, p) <= pool::owners(s2, p) by {
        holders_update(trees, i, post, p);
        assert(holders(trees, p) <= pool::owners(s1, p));
        if p >= s1.pages.len() {
            assert forall|j: int| 0 <= j < trees.len() implies !(
            #[trigger] trees[j]).pids().contains(p) by {
                assert(trees[j].stands(s1));
                if trees[j].pids().contains(p) {
                    shape::rep_in_bounds(s1.pages, trees[j].tree(), p);
                }
            }
            no_holders(trees, p);
        }
    }
}

/// A family stays a family when one of its trees is forked.
pub proof fn family_after_fork(
    s1: PoolView,
    s2: PoolView,
    trees: Seq<CowBeTree>,
    i: int,
    fork: CowBeTree,
)
    requires
        is_family(s1, trees),
        0 <= i < trees.len(),
        pool::pool_ok(s2),
        fork.stands(s2),
        fork.tree() == trees[i].tree(),
        s2.pages == s1.pages,
        s2.active_roots == s1.active_roots + 1,
        forall|p: u64|
            #![trigger pool::owners(s2, p)]
            pool::owners(s2, p) == pool::owners(s1, p) + (if trees[i].pids().contains(p) {
                1int
            } else {
                0
            }),
    ensures
        is_family(s2, trees.push(fork)),
{
    let next = trees.push(fork);
    assert(next.drop_last() =~= trees);
    assert forall|j: int| 0 <= j < next.len() implies (#[trigger] next[j]).stands(s2) by {
        if j < trees.len() {
            assert(trees[j].stands(s1));
        }
    }
    assert forall|p: u64|
        #![trigger pool::owners(s2, p)]
        holders(next, p) <= pool::owners(s2, p) by {
        assert(holders(trees, p) <= pool::owners(s1, p));
    }
}

/// A tree alone in its pool is a family.
pub proof fn one_tree_is_a_family(s: PoolView, t: CowBeTree)
    requires
        t.wf(s),
    ensures
        is_family(s, seq![t]),
{
    let trees = seq![t];
    assert(trees.drop_last() =~= Seq::<CowBeTree>::empty());
    assert forall|p: u64|
        #![trigger pool::owners(s, p)]
        holders(trees, p) <= pool::owners(s, p) by {
        assert(holders(trees.drop_last(), p) == 0);
    }
}

/// A tree and its fork read the same.
pub proof fn fork_keeps_reads(a: CowBeTree, b: CowBeTree, key: Seq<u8>, ts: u64)
    requires
        a.tree() == b.tree(),
    ensures
        visible(a, key, ts) == visible(b, key, ts),
{
}

/// A family stays a family without a tree on which work has failed.
pub proof fn family_after_failure(s1: PoolView, s2: PoolView, trees: Seq<CowBeTree>, i: int)
    requires
        is_family(s1, trees),
        0 <= i < trees.len(),
        rewrite::failed(s1, s2, trees[i].pids()),
    ensures
        is_family(s2, trees.remove(i)),
{
    let next = trees.remove(i);
    assert forall|j: int| 0 <= j < next.len() implies (#[trigger] next[j]).stands(s2) by {
        if j < i {
            failure_is_isolated(s1, s2, trees, i, j);
        } else {
            failure_is_isolated(s1, s2, trees, i, j + 1);
        }
    }
    assert forall|p: u64|
        #![trigger pool::owners(s2, p)]
        holders(next, p) <= pool::owners(s2, p) by {
        holders_remove(trees, i, p);
        assert(holders(trees, p) <= pool::owners(s1, p));
        if p >= s1.pages.len() {
            assert forall|j: int| 0 <= j < trees.len() implies !(
            #[trigger] trees[j]).pids().contains(p) by {
                assert(trees[j].stands(s1));
                if trees[j].pids().contains(p) {
                    shape::rep_in_bounds(s1.pages, trees[j].tree(), p);
                }
            }
            no_holders(trees, p);
        }
    }
}

proof fn holders_remove(trees: Seq<CowBeTree>, i: int, p: u64)
    requires
        0 <= i < trees.len(),
    ensures
        holders(trees.remove(i), p) == holders(trees, p) - (if trees[i].pids().contains(p) {
            1int
        } else {
            0
        }),
    decreases trees.len(),
{
    let next = trees.remove(i);
    if i == trees.len() - 1 {
        assert(next =~= trees.drop_last());
    } else {
        assert(next.drop_last() =~= trees.drop_last().remove(i));
        assert(next.last() == trees.last());
        holders_remove(trees.drop_last(), i, p);
    }
}

/// A tree was forked, as [`CowBeTree::fork`] does it.
pub open spec fn is_fork(s1: PoolView, s2: PoolView, t: CowBeTree, fork: CowBeTree) -> bool {
    &&& t.wf(s1)
    &&& t.wf(s2)
    &&& fork.wf(s2)
    &&& fork.tree() == t.tree()
    &&& s2.pages == s1.pages
    &&& s2.active_roots == s1.active_roots + 1
    &&& forall|p: u64|
        #![trigger pool::owners(s2, p)]
        pool::owners(s2, p) == pool::owners(s1, p) + (if t.pids().contains(p) {
            1int
        } else {
            0
        })
}

/// A pool and the trees in it, after some operations.
pub struct Moment {
    pub pool: PoolView,
    pub trees: Seq<CowBeTree>,
}

/// An operation on tree `i` was done between two moments.
pub open spec fn worked_on(a: Moment, b: Moment, i: int) -> bool {
    &&& 0 <= i < a.trees.len()
    &&& b.trees == a.trees.update(i, b.trees[i])
    &&& b.trees[i].stands(b.pool)
    &&& pool::step(a.pool, b.pool, a.trees[i].pids(), b.trees[i].pids())
}

/// Between any moment and the next, an operation was done on one of the trees: in
/// the step from moment `k`, on tree `at[k]`.
pub open spec fn is_run(run: Seq<Moment>, at: Seq<int>) -> bool {
    &&& run.len() == at.len() + 1
    &&& forall|k: int| 0 <= k < at.len() ==> worked_on(run[k], run[k + 1], #[trigger] at[k])
}

/// The trees of a family stay a family through a run, and a tree on which nothing
/// was done is what it was.
pub proof fn family_after_run(run: Seq<Moment>, at: Seq<int>, k: int)
    requires
        is_run(run, at),
        is_family(run[0].pool, run[0].trees),
        0 <= k < run.len(),
    ensures
        is_family(run[k].pool, run[k].trees),
        run[k].trees.len() == run[0].trees.len(),
        forall|j: int|
            0 <= j < run[0].trees.len() && !at.take(k).contains(j) ==> #[trigger] run[k].trees[j]
                == run[0].trees[j],
    decreases k,
{
    if k > 0 {
        family_after_run(run, at, k - 1);
        let i = at[k - 1];
        let a = run[k - 1];
        let b = run[k];
        assert(worked_on(a, run[k - 1 + 1], i));
        family_after_work(a.pool, b.pool, a.trees, i, b.trees[i]);
        assert forall|j: int|
            0 <= j < run[0].trees.len() && !at.take(k).contains(j) implies #[trigger] b.trees[j]
            == run[0].trees[j] by {
            assert(at.take(k)[k - 1] == i);
            assert(!at.take(k - 1).contains(j)) by {
                if at.take(k - 1).contains(j) {
                    let before = at.take(k - 1);
                    let x = choose|x: int| 0 <= x < before.len() && before[x] == j;
                    assert(at.take(k)[x] == j);
                }
            }
            assert(a.trees[j] == run[0].trees[j]);
        }
    }
}

/// A fork and its tree: right after the fork both answer every lookup as the tree
/// did before. Through any run of operations on the two, both stand in the pool; as
/// long as nothing was done on one of them it answers every lookup as right after the
/// fork, and an operation on the one leaves every answer of the other, also where it
/// fails.
pub proof fn fork_and_tree_live_apart(
    s0: PoolView,
    t: CowBeTree,
    fork: CowBeTree,
    run: Seq<Moment>,
    at: Seq<int>,
    k: int,
)
    requires
        is_run(run, at),
        run[0].trees == seq![t, fork],
        is_fork(s0, run[0].pool, t, fork),
        0 <= k < run.len(),
    ensures
        forall|key: Seq<u8>, ts: u64| #[trigger] visible(fork, key, ts) == visible(t, key, ts),
        run[k].trees.len() == 2,
        run[k].trees[0].stands(run[k].pool),
        run[k].trees[1].stands(run[k].pool),
        !at.take(k).contains(0) ==> run[k].trees[0] == t,
        !at.take(k).contains(1) ==> run[k].trees[1] == fork,
        !at.take(k).contains(0) ==> forall|key: Seq<u8>, ts: u64| #[trigger]
            visible(run[k].trees[0], key, ts) == visible(t, key, ts),
        !at.take(k).contains(1) ==> forall|key: Seq<u8>, ts: u64| #[trigger]
            visible(run[k].trees[1], key, ts) == visible(t, key, ts),
        k < at.len() ==> ({
            let other = 1 - at[k];
            run[k + 1].trees[other] == run[k].trees[other]
        }),
        forall|s2: PoolView|
            rewrite::failed(run[k].pool, s2, run[k].trees[0].pids())
                ==> #[trigger] run[k].trees[1].stands(s2),
        forall|s2: PoolView|
            rewrite::failed(run[k].pool, s2, run[k].trees[1].pids())
                ==> #[trigger] run[k].trees[0].stands(s2),
{
    let s1 = run[0].pool;
    one_tree_is_a_family(s0, t);
    family_after_fork(s0, s1, seq![t], 0, fork);
    assert(seq![t].push(fork) =~= seq![t, fork]);
    family_after_run(run, at, k);
    let now = run[k];
    assert(now.trees[0].stands(now.pool) && now.trees[1].stands(now.pool));
    assert(run[0].trees[0] == t && run[0].trees[1] == fork);
    if k < at.len() {
        assert(worked_on(run[k], run[k + 1], at[k]));
    }
    assert forall|s2: PoolView|
        rewrite::failed(now.pool, s2, now.trees[0].pids()) implies #[trigger] now.trees[1].stands(
        s2,
    ) by {
        failure_is_isolated(now.pool, s2, now.trees, 0, 1);
    }
    assert forall|s2: PoolView|
        rewrite::failed(now.pool, s2, now.trees[1].pids()) implies #[trigger] now.trees[0].stands(
        s2,
    ) by {
        failure_is_isolated(now.pool, s2, now.trees, 1, 0);
    }
}

} // verus!
