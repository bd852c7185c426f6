//! What scans, and lookups through the entry of a key, show of versions with the same
//! timestamp: what waits in a buffer comes before what its leaf holds.
use vstd::prelude::*;

use crate::betree::carry;
use crate::betree::lookup;
use crate::betree::message::MessageView;
use crate::betree::node;
use crate::betree::node::EntryView;
use crate::betree::read;
use crate::betree::scan;
use crate::betree::scan::RowView;
use crate::betree::shape;
use crate::betree::shape::TreeView;
use crate::bytes;

verus! {

/// Of the messages with the key and the timestamp of `x`, the last is `x`.
spec fn lastly(ms: Seq<MessageView>, x: MessageView) -> bool {
    exists|j: int| #[trigger] last_at(ms, x, j)
}

spec fn last_at(ms: Seq<MessageView>, x: MessageView, j: int) -> bool {
    &&& 0 <= j < ms.len()
    &&& ms[j] == x
    &&& forall|k: int| j < k < ms.len() && carry::same_slot(#[trigger] ms[k], x) ==> ms[k] == x
}

proof fn last_is_applied(es: Seq<EntryView>, ms: Seq<MessageView>, x: MessageView)
    requires
        lastly(ms, x),
    ensures
        node::entries_have(node::apply_messages(es, ms), x.key, x.version),
    decreases ms.len(),
{
    let j = choose|j: int| #[trigger] last_at(ms, x, j);
    let front = ms.drop_last();
    assert(ms.last() == ms[ms.len() - 1]);
    if ms.last() != x {
        assert(last_at(front, x, j)) by {
            assert forall|k: int| j < k < front.len() && carry::same_slot(
                #[trigger] front[k],
                x,
            ) implies front[k] == x by {
                assert(front[k] == ms[k]);
            }
        }
        last_is_applied(es, front, x);
        assert(!carry::same_slot(ms[ms.len() - 1], x));
    }
    carry::applied_keeps(node::apply_messages(es, front), ms.last(), x);
}

proof fn last_of_both(a: Seq<MessageView>, b: Seq<MessageView>, x: MessageView)
    requires
        lastly(b, x) || (lastly(a, x) && forall|k: int|
            0 <= k < b.len() ==> !carry::same_slot(#[trigger] b[k], x)),
    ensures
        lastly(a + b, x),
{
    let ab = a + b;
    if lastly(b, x) {
        let j = choose|j: int| #[trigger] last_at(b, x, j);
        assert(last_at(ab, x, a.len() + j)) by {
            assert forall|k: int| a.len() + j < k < ab.len() && carry::same_slot(
                #[trigger] ab[k],
                x,
            ) implies ab[k] == x by {
                assert(ab[k] == b[k - a.len()]);
            }
        }
    } else {
        let j = choose|j: int| #[trigger] last_at(a, x, j);
        assert(last_at(ab, x, j)) by {
            assert forall|k: int| j < k < ab.len() && carry::same_slot(
                #[trigger] ab[k],
                x,
            ) implies ab[k] == x by {
                if k < a.len() {
                    assert(ab[k] == a[k]);
                } else {
                    assert(ab[k] == b[k - a.len()]);
                }
            }
        }
    }
}

proof fn entry_messages_are(es: Seq<EntryView>, y: MessageView)
    ensures
        scan::entry_messages(es).contains(y) <==> node::entries_have(es, y.key, y.version),
    decreases es.len(),
{
    let all = scan::entry_messages(es);
    if es.len() > 0 {
        let front = es.drop_last();
        let e = es.last();
        let (a, b) = (scan::entry_messages(front), scan::version_messages(e.key, e.versions));
        entry_messages_are(front, y);
        assert(all == a + b);
        if all.contains(y) {
            let k = choose|k: int| 0 <= k < all.len() && all[k] == y;
            if k < a.len() {
                assert(a[k] == y);
                let j = choose|j: int|
                    #![trigger front[j]]
                    0 <= j < front.len() && front[j].key == y.key && front[j].versions.contains(
                        y.version,
                    );
                assert(es[j] == front[j]);
            } else {
                assert(b[k - a.len()] == y);
                assert(e.versions[k - a.len()] == y.version);
                assert(es[es.len() - 1] == e);
            }
        }
        if node::entries_have(es, y.key, y.version) {
            let j = choose|j: int|
                #![trigger es[j]]
                0 <= j < es.len() && es[j].key == y.key && es[j].versions.contains(y.version);
            if j < front.len() {
                assert(front[j] == es[j]);
                let k = choose|k: int| 0 <= k < a.len() && a[k] == y;
                assert(all[k] == y);
            } else {
                let v = choose|v: int| 0 <= v < e.versions.len() && e.versions[v] == y.version;
                assert(b[v] == y);
                assert(all[a.len() + v] == y);
            }
        }
    }
}

/// Nothing is gathered but what the tree holds or waits above it.
proof fn gathered_from(t: TreeView, path: Seq<MessageView>, y: MessageView)
    requires
        scan::gathered(t, path).contains(y),
    ensures
        shape::has_rec(t, y) || path.contains(y),
    decreases t, 0nat,
{
    let all = scan::gathered(t, path);
    let k = choose|k: int| 0 <= k < all.len() && all[k] == y;
    match t {
        TreeView::Leaf { entries, .. } => {
            let a = scan::entry_messages(entries);
            if k < a.len() {
                assert(a[k] == y);
                entry_messages_are(entries, y);
            } else {
                assert(path[k - a.len()] == y);
            }
        },
        TreeView::Node { buffer, kids, .. } => {
            let next = path + buffer;
            gathered_from_all(kids, kids.len(), next, y);
            if next.contains(y) {
                let j = choose|j: int| 0 <= j < next.len() && next[j] == y;
                if j < path.len() {
                    assert(path[j] == y);
                } else {
                    assert(buffer[j - path.len()] == y);
                }
            }
        },
    }
}

proof fn gathered_from_all(kids: Seq<TreeView>, n: nat, path: Seq<MessageView>, y: MessageView)
    requires
        n <= kids.len(),
        scan::gathered_all(kids, n, path).contains(y),
    ensures
        shape::some_has_rec(kids, y) || path.contains(y),
    decreases kids, n,
{
    let all = scan::gathered_all(kids, n, path);
    let k = choose|k: int| 0 <= k < all.len() && all[k] == y;
    if n > 0 {
        let a = scan::gathered_all(kids, (n - 1) as nat, path);
        let b = scan::gathered(kids[n - 1], path);
        if k < a.len() {
            assert(a[k] == y);
            gathered_from_all(kids, (n - 1) as nat, path, y);
        } else {
            assert(b[k - a.len()] == y);
            gathered_from(kids[n - 1], path, y);
        }
    }
}

/// What waits, or is held by a leaf for whose key nothing else waits, comes last.
proof fn gathered_lastly(t: TreeView, h: nat, path: Seq<MessageView>, x: MessageView)
    requires
        shape::wf(t, h),
        shape::has_rec(t, x) || path.contains(x),
        forall|y: MessageView| #[trigger]
            carry::waits(t, y) && carry::same_slot(y, x) ==> y == x,
        forall|k: int| 0 <= k < path.len() && carry::same_slot(#[trigger] path[k], x) ==> path[k]
            == x,
    ensures
        lastly(scan::gathered(t, path), x),
    decreases t, 0nat, 0nat,
{
    match t {
        TreeView::Leaf { entries, .. } => {
            let a = scan::entry_messages(entries);
            if path.contains(x) {
                let j = choose|j: int| 0 <= j < path.len() && path[j] == x;
                assert(last_at(path, x, j));
            } else {
                entry_messages_are(entries, x);
                let j = choose|j: int| 0 <= j < a.len() && a[j] == x;
                assert(last_at(a, x, j)) by {
                    assert forall|k: int| j < k < a.len() && carry::same_slot(
                        #[trigger] a[k],
                        x,
                    ) implies a[k] == x by {
                        assert(a.contains(a[k]));
                        entry_messages_are(entries, a[k]);
                        carry::leaf_slot(t, a[k], x);
                    }
                }
                assert forall|k: int| 0 <= k < path.len() implies !carry::same_slot(
                    #[trigger] path[k],
                    x,
                ) by {
                    if carry::same_slot(path[k], x) {
                        assert(path.contains(path[k]));
                    }
                }
            }
            last_of_both(a, path, x);
        },
        TreeView::Node { fence, separators, buffer, kids, .. } => {
            let next = path + buffer;
            shape::wf_node(t, h);
            let hk = (h - 1) as nat;
            assert forall|k: int| 0 <= k < next.len() && carry::same_slot(
                #[trigger] next[k],
                x,
            ) implies next[k] == x by {
                if k < path.len() {
                    assert(next[k] == path[k]);
                } else {
                    assert(next[k] == buffer[k - path.len()]);
                    assert(buffer.contains(next[k]));
                    assert(carry::waits(t, next[k]));
                }
            }
            if next.contains(x) {
                all_lastly(t, h, next, x, kids.len() - 1, kids.len());
            } else {
                if path.contains(x) {
                    let j = choose|j: int| 0 <= j < path.len() && path[j] == x;
                    assert(next[j] == x);
                }
                if buffer.contains(x) {
                    let j = choose|j: int| 0 <= j < buffer.len() && buffer[j] == x;
                    assert(next[path.len() + j] == x);
                }
                let i = choose|i: int| 0 <= i < kids.len() && shape::has_rec(#[trigger] kids[i], x);
                all_lastly(t, h, next, x, i, kids.len());
            }
        },
    }
}

proof fn all_lastly(
    t: TreeView,
    h: nat,
    next: Seq<MessageView>,
    x: MessageView,
    i: int,
    n: nat,
)
    requires
        t is Node,
        shape::wf(t, h),
        0 <= i < n <= t->kids.len(),
        shape::has_rec(t->kids[i], x) || (next.contains(x) && n == i + 1),
        !next.contains(x) || n == i + 1,
        forall|y: MessageView| #[trigger]
            carry::waits(t, y) && carry::same_slot(y, x) ==> y == x,
        forall|k: int| 0 <= k < next.len() && carry::same_slot(#[trigger] next[k], x) ==> next[k]
            == x,
    ensures
        lastly(scan::gathered_all(t->kids, n, next), x),
    decreases t->kids, n, 0nat,
{
    let (fence, separators, kids) = (t->Node_fence, t->separators, t->kids);
    let hk = (h - 1) as nat;
    shape::wf_node(t, h);
    let m = (n - 1) as nat;
    let k = kids[m as int];
    assert(shape::wf(k, hk));
    let a = scan::gathered_all(kids, m, next);
    let b = scan::gathered(k, next);
    assert forall|y: MessageView| #[trigger] carry::waits(k, y) && carry::same_slot(
        y,
        x,
    ) implies y == x by {
        assert(carry::waits(t, y));
    }
    if n == i + 1 {
        gathered_lastly(k, hk, next, x);
    } else {
        all_lastly(t, h, next, x, i, m);
        shape::recs_in_fence(kids[i], hk, x);
        assert(shape::wf(kids[i], hk));
        assert(shape::fence_of(kids[i]) == shape::child_fence(fence, separators, i));
        shape::child_is_routed(fence, separators, x.key, i);
        assert forall|j: int| 0 <= j < b.len() implies !carry::same_slot(#[trigger] b[j], x) by {
            if carry::same_slot(b[j], x) {
                let y = b[j];
                assert(b.contains(y));
                gathered_from(k, next, y);
                if next.contains(y) {
                    let p = choose|p: int| 0 <= p < next.len() && next[p] == y;
                    assert(next[p] == x);
                } else {
                    shape::recs_in_fence(k, hk, y);
                    assert(shape::fence_of(k) == shape::child_fence(fence, separators, m as int));
                    shape::child_is_routed(fence, separators, y.key, m as int);
                }
            }
        }
    }
    last_of_both(a, b, x);
}

/// What a scan shows of a key is its newest record at the reader's timestamp or
/// before, if no other record with that timestamp waits for the key: also where the
/// leaf holds another one with it. A deletion is not shown.
pub proof fn scan_shows_what_waits(
    t: TreeView,
    h: nat,
    x: MessageView,
    ts: u64,
    wanted: spec_fn(Seq<u8>) -> bool,
    rows: Seq<RowView>,
)
    requires
        shape::wf(t, h),
        scan::picked(scan::entries_of(t), ts, wanted, rows),
        wanted(x.key),
        shape::has_rec(t, x),
        forall|y: MessageView| #[trigger]
            carry::waits(t, y) && carry::same_slot(y, x) ==> y == x,
        x.version.commit_ts <= ts,
        carry::none_newer(t, x, ts),
    ensures
        x.version.deleted ==> !scan::has_row(rows, x.key),
        !x.version.deleted ==> rows.contains(RowView { key: x.key, value: x.version.value }),
        forall|i: int| 0 <= i < rows.len() && (#[trigger] rows[i]).key == x.key ==> rows[i].value
            == x.version.value && !x.version.deleted,
{
    broadcast use bytes::group_lex;

    let none = Seq::<MessageView>::empty();
    let ms = scan::gathered(t, none);
    let es = scan::entries_of(t);
    gathered_lastly(t, h, none, x);
    last_is_applied(Seq::empty(), ms, x);
    read::inside_root_fence(Seq::<EntryView>::empty(), ms);
    shape::apply_messages_refine(Seq::empty(), ms, node::root_fence());
    let k = choose|k: int|
        #![trigger es[k]]
        0 <= k < es.len() && es[k].key == x.key && es[k].versions.contains(x.version);
    let vs = es[k].versions;
    assert(node::sorted_versions(vs));
    lookup::newest_is_newest(vs, ts);
    let v = lookup::newest(vs, ts);
    assert(v == Some(x.version)) by {
        let y = MessageView { key: x.key, version: v->0 };
        assert(node::entries_have(es, y.key, y.version));
        assert(shape::entry_recs(es).contains(y));
        let all = shape::entry_recs(Seq::<EntryView>::empty()).union(shape::message_recs(ms));
        assert(all.contains(y));
        assert(ms.contains(y));
        gathered_from(t, none, y);
        assert(shape::has_rec(t, y));
        let p = choose|p: int| 0 <= p < vs.len() && vs[p] == x.version;
        let q = choose|q: int| 0 <= q < vs.len() && vs[q] == v->0;
        if p < q {
            assert(vs[p].commit_ts > vs[q].commit_ts);
        }
        if q < p {
            assert(vs[q].commit_ts > vs[p].commit_ts);
        }
    }
    assert forall|i: int| 0 <= i < rows.len() && (#[trigger] rows[i]).key == x.key implies
        rows[i].value == x.version.value && !x.version.deleted by {
        assert(scan::row_of(es, es.len() as int, ts, rows[i]));
        let k2 = choose|k2: int|
            0 <= k2 < es.len() && (#[trigger] es[k2]).key == rows[i].key && scan::seen_value(
                es[k2],
                ts,
            ) == Some(rows[i].value);
        if k2 < k {
            assert(bytes::lex_lt(es[k2].key, es[k].key));
        }
        if k < k2 {
            assert(bytes::lex_lt(es[k].key, es[k2].key));
        }
    }
    if !x.version.deleted {
        assert(scan::has_row(rows, es[k].key));
        let i = choose|i: int| 0 <= i < rows.len() && (#[trigger] rows[i]).key == x.key;
        assert(rows[i] == (RowView { key: x.key, value: x.version.value }));
    }
}

// ---------------------------------------------------------------------------
// Looking a key up through its entry.

proof fn way_waits(t: TreeView, key: Seq<u8>, y: MessageView)
    requires
        read::on_way(t, key).contains(y),
    ensures
        carry::waits(t, y),
    decreases t,
{
    let all = read::on_way(t, key);
    let k = choose|k: int| 0 <= k < all.len() && all[k] == y;
    if t is Node {
        let (buffer, kids) = (t->buffer, t->kids);
        let i = node::route(t->separators, key) as int;
        if k < buffer.len() {
            assert(buffer[k] == y);
        } else {
            let below = read::on_way(kids[i], key);
            assert(below[k - buffer.len()] == y);
            way_waits(kids[i], key, y);
            assert(carry::waits(kids[i], y));
        }
    }
}

/// A record of a key waits on the way to its leaf, or stands in its entry there; what
/// stands there is of the tree.
proof fn on_way_or_in_entry(t: TreeView, h: nat, key: Seq<u8>, x: MessageView)
    requires
        shape::wf(t, h),
        node::in_fence(shape::fence_of(t), key),
        x.key == key,
    ensures
        shape::has_rec(t, x) ==> read::on_way(t, key).contains(x) || node::entries_have(
            read::own_entry(t, key),
            x.key,
            x.version,
        ),
        node::entries_have(read::own_entry(t, key), x.key, x.version) ==> shape::has_rec(t, x),
        read::own_entry(t, key).len() <= 1,
        forall|k: int|
            0 <= k < read::own_entry(t, key).len() ==> (#[trigger] read::own_entry(t, key)[k]).key
                == key && node::sorted_versions(read::own_entry(t, key)[k].versions),
    decreases t,
{
    broadcast use bytes::group_lex;

    let own = read::own_entry(t, key);
    match t {
        TreeView::Leaf { entries, .. } => {
            let p = node::lower_bound(entries, key) as int;
            node::lower_bound_splits(entries, key);
            if shape::has_rec(t, x) {
                let i = choose|i: int|
                    #![trigger entries[i]]
                    0 <= i < entries.len() && entries[i].key == x.key
                        && entries[i].versions.contains(x.version);
                if i < p {
                    assert(bytes::lex_lt(entries[i].key, key));
                } else if i > p {
                    assert(!bytes::lex_lt(entries[p].key, key));
                    assert(bytes::lex_lt(entries[p].key, entries[i].key));
                }
                assert(own[0] == entries[p]);
            }
            if node::entries_have(own, x.key, x.version) {
                assert(own[0] == entries[p]);
            }
        },
        TreeView::Node { fence, separators, buffer, kids, .. } => {
            let i = node::route(separators, key) as int;
            shape::route_to_child(fence, separators, key);
            shape::wf_node(t, h);
            let hk = (h - 1) as nat;
            assert(shape::fence_of(kids[i]) == shape::child_fence(fence, separators, i));
            assert(shape::wf(kids[i], hk));
            on_way_or_in_entry(kids[i], hk, key, x);
            let below = read::on_way(kids[i], key);
            let all = read::on_way(t, key);
            assert(all == buffer + below);
            if shape::has_rec(t, x) {
                if buffer.contains(x) {
                    let j = choose|j: int| 0 <= j < buffer.len() && buffer[j] == x;
                    assert(all[j] == x);
                } else {
                    assert(shape::some_has_rec(kids, x));
                    shape::recs_are_routed(fence, separators, kids, hk, x);
                    if below.contains(x) {
                        let j = choose|j: int| 0 <= j < below.len() && below[j] == x;
                        assert(all[buffer.len() + j] == x);
                    }
                }
            }
            if node::entries_have(own, x.key, x.version) {
                assert(shape::has_rec(kids[i], x));
            }
        },
    }
}

/// Looking a key up through its entry gives what a lookup along the path gives, if no
/// two records wait for it with the newest timestamp: what waits comes before what the
/// leaf holds.
#[verifier::rlimit(40)]
#[verifier::spinoff_prover]
pub proof fn whole_entry_shows_what_waits(t: TreeView, h: nat, x: MessageView, ts: u64)
    requires
        shape::wf(t, h),
        node::in_fence(shape::fence_of(t), x.key),
        shape::has_rec(t, x),
        forall|y: MessageView| #[trigger]
            carry::waits(t, y) && carry::same_slot(y, x) ==> y == x,
        x.version.commit_ts <= ts,
        carry::none_newer(t, x, ts),
    ensures
        read::whole_entry(t, x.key).len() > 0,
        lookup::newest(read::whole_entry(t, x.key)[0].versions, ts) == Some(x.version),
        read::tree_lookup(t, x.key, ts) == Some(x.version),
{
    broadcast use bytes::group_lex;

    let key = x.key;
    let own = read::own_entry(t, key);
    let way = read::on_way(t, key);
    let mine = |m: MessageView| m.key == key;
    let ms = read::only_of(way, key);
    let es = read::whole_entry(t, key);
    carry::filtered(way, mine);
    assert(ms == way.filter(mine));
    on_way_or_in_entry(t, h, key, x);
    assert forall|k: int| 0 <= k < ms.len() && carry::same_slot(#[trigger] ms[k], x) implies ms[k]
        == x by {
        assert(ms.contains(ms[k]));
        way_waits(t, key, ms[k]);
    }
    if way.contains(x) {
        assert(ms.contains(x));
        let j = choose|j: int| 0 <= j < ms.len() && ms[j] == x;
        assert(last_at(ms, x, j));
        last_is_applied(own, ms, x);
    } else {
        let w = Set::new(|m: MessageView| ms.contains(m));
        assert(carry::all_in(w, ms)) by {
            assert forall|k: int| 0 <= k < ms.len() implies w.contains(#[trigger] ms[k]) by {
                assert(ms.contains(ms[k]));
            }
        }
        assert(carry::unrivalled(w, x)) by {
            assert forall|y: MessageView| #[trigger] w.contains(y) && carry::same_slot(
                y,
                x,
            ) implies y == x by {
                let k = choose|k: int| 0 <= k < ms.len() && ms[k] == y;
                assert(ms[k] == x);
            }
        }
        carry::all_applied_keep(own, ms, w, x);
    }
    assert forall|k: int| 0 <= k < ms.len() implies (#[trigger] ms[k]).key == key by {
        assert(ms.contains(ms[k]));
    }
    read::inside_root_fence(own, ms);
    shape::apply_messages_refine(own, ms, node::root_fence());
    read::same_key_stays(own, ms, key);
    let k = choose|k: int|
        #![trigger es[k]]
        0 <= k < es.len() && es[k].key == x.key && es[k].versions.contains(x.version);
    if k > 0 {
        assert(bytes::lex_lt(es[0].key, es[k].key));
    }
    let vs = es[0].versions;
    assert(node::sorted_versions(vs));
    lookup::newest_is_newest(vs, ts);
    let v = lookup::newest(vs, ts);
    assert(v == Some(x.version)) by {
        let y = MessageView { key, version: v->0 };
        assert(node::entries_have(es, y.key, y.version));
        assert(shape::entry_recs(es).contains(y));
        let all = shape::entry_recs(own).union(shape::message_recs(ms));
        assert(all.contains(y));
        on_way_or_in_entry(t, h, key, y);
        if ms.contains(y) {
            way_waits(t, key, y);
            waiting_is_held(t, y);
        }
        assert(shape::has_rec(t, y));
        let p = choose|p: int| 0 <= p < vs.len() && vs[p] == x.version;
        let q = choose|q: int| 0 <= q < vs.len() && vs[q] == v->0;
        if p < q {
            assert(vs[p].commit_ts > vs[q].commit_ts);
        }
        if q < p {
            assert(vs[q].commit_ts > vs[p].commit_ts);
        }
    }
    carry::unrivalled_comes_first(t, h, x);
    carry::first_on_the_way_is_seen(t, h, x, ts);
}

proof fn waiting_is_held(t: TreeView, y: MessageView)
    requires
        carry::waits(t, y),
    ensures
        shape::has_rec(t, y),
    decreases t,
{
    if t is Node && !t->buffer.contains(y) {
        let kids = t->kids;
        let i = choose|i: int| 0 <= i < kids.len() && carry::waits(#[trigger] kids[i], y);
        waiting_is_held(kids[i], y);
        assert(shape::has_rec(kids[i], y));
    }
}

} // verus!
