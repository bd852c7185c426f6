//! Trees as mathematics: the shape of a tree of pages, what it holds, and the
//! order that routing relies on.
use vstd::prelude::*;

use crate::betree::layout;
use crate::betree::message::MessageView;
use crate::betree::node;
use crate::betree::node::{CowBeTreeError, EntryView, FenceView, NodeView};
use crate::bytes;

verus! {

/// A tree: the page id of its root page, what the page holds, and its subtrees.
pub enum TreeView {
    Leaf { pid: u64, fence: FenceView, entries: Seq<EntryView> },
    Node {
        pid: u64,
        fence: FenceView,
        separators: Seq<Seq<u8>>,
        buffer: Seq<MessageView>,
        kids: Seq<TreeView>,
    },
}

pub open spec fn pid_of(t: TreeView) -> u64 {
    match t {
        TreeView::Leaf { pid, .. } => pid,
        TreeView::Node { pid, .. } => pid,
    }
}

pub open spec fn fence_of(t: TreeView) -> FenceView {
    match t {
        TreeView::Leaf { fence, .. } => fence,
        TreeView::Node { fence, .. } => fence,
    }
}

pub open spec fn pids_of(kids: Seq<TreeView>) -> Seq<u64> {
    Seq::new(kids.len(), |i: int| pid_of(kids[i]))
}

/// What the root page of a tree holds.
pub open spec fn node_of(t: TreeView) -> NodeView {
    match t {
        TreeView::Leaf { fence, entries, .. } => NodeView::Leaf { fence, entries },
        TreeView::Node { fence, separators, buffer, kids, .. } => NodeView::Internal {
            fence,
            children: pids_of(kids),
            separators,
            buffer,
        },
    }
}

/// Page `p` belongs to the tree.
pub open spec fn has_pid(t: TreeView, p: u64) -> bool
    decreases t,
{
    pid_of(t) == p || match t {
        TreeView::Leaf { .. } => false,
        TreeView::Node { kids, .. } => exists|i: int|
            0 <= i < kids.len() && has_pid(#[trigger] kids[i], p),
    }
}


/// Page `p` belongs to one of the trees.
pub open spec fn some_has_pid(kids: Seq<TreeView>, p: u64) -> bool {
    exists|i: int| 0 <= i < kids.len() && has_pid(#[trigger] kids[i], p)
}

pub open spec fn tree_pids(t: TreeView) -> Set<u64> {
    Set::new(|p: u64| has_pid(t, p))
}

pub open spec fn forest_pids(kids: Seq<TreeView>) -> Set<u64> {
    Set::new(|p: u64| some_has_pid(kids, p))
}

/// The tree holds the record `m`: in a leaf, or in a buffer.
pub open spec fn has_rec(t: TreeView, m: MessageView) -> bool
    decreases t,
{
    match t {
        TreeView::Leaf { entries, .. } => node::entries_have(entries, m.key, m.version),
        TreeView::Node { buffer, kids, .. } => buffer.contains(m) || exists|i: int|
            0 <= i < kids.len() && has_rec(#[trigger] kids[i], m),
    }
}

pub open spec fn some_has_rec(kids: Seq<TreeView>, m: MessageView) -> bool {
    exists|i: int| 0 <= i < kids.len() && has_rec(#[trigger] kids[i], m)
}

/// The records of a tree: versions of keys, deletions among them.
pub open spec fn tree_recs(t: TreeView) -> Set<MessageView> {
    Set::new(|m: MessageView| has_rec(t, m))
}

pub open spec fn forest_recs(kids: Seq<TreeView>) -> Set<MessageView> {
    Set::new(|m: MessageView| some_has_rec(kids, m))
}

pub open spec fn message_recs(ms: Seq<MessageView>) -> Set<MessageView> {
    Set::new(|m: MessageView| ms.contains(m))
}

pub open spec fn entry_recs(es: Seq<EntryView>) -> Set<MessageView> {
    Set::new(|m: MessageView| node::entries_have(es, m.key, m.version))
}

// ---------------------------------------------------------------------------
// Well-formed trees.

/// The fence of child `i` of a node.
pub open spec fn child_fence(fence: FenceView, separators: Seq<Seq<u8>>, i: int) -> FenceView {
    FenceView {
        lower: if i <= 0 {
            fence.lower
        } else {
            separators[i - 1]
        },
        upper: if i >= separators.len() {
            fence.upper
        } else {
            Some(separators[i])
        },
    }
}

/// The separators lie strictly inside the fence.
pub open spec fn separators_inside(fence: FenceView, separators: Seq<Seq<u8>>) -> bool {
    forall|i: int|
        #![trigger separators[i]]
        0 <= i < separators.len() ==> bytes::lex_lt(fence.lower, separators[i]) && (
        fence.upper matches Some(u) ==> bytes::lex_lt(separators[i], u))
}

/// All keys of the entries lie in the fence.
pub open spec fn entries_inside(fence: FenceView, entries: Seq<EntryView>) -> bool {
    forall|i: int| 0 <= i < entries.len() ==> node::in_fence(fence, (#[trigger] entries[i]).key)
}

/// All keys of the messages lie in the fence.
pub open spec fn messages_inside(fence: FenceView, ms: Seq<MessageView>) -> bool {
    forall|i: int| 0 <= i < ms.len() ==> node::in_fence(fence, (#[trigger] ms[i]).key)
}

pub open spec fn disjoint_pids(a: TreeView, b: TreeView) -> bool {
    forall|p: u64| !(#[trigger] has_pid(a, p) && has_pid(b, p))
}

/// A well-formed tree of height `h`: all leaves are at the same depth, leaves
/// are sorted and every entry is newest first, each child is responsible for the
/// range between its separators, everything lies in its fence, and no page
/// occurs twice.
pub open spec fn wf(t: TreeView, h: nat) -> bool
    decreases t,
{
    match t {
        TreeView::Leaf { fence, entries, .. } => {
            &&& h == 0
            &&& node::sorted_entries(entries)
            &&& node::entries_newest_first(entries)
            &&& entries_inside(fence, entries)
        },
        TreeView::Node { pid, fence, separators, buffer, kids } => {
            &&& h > 0
            &&& kids.len() == separators.len() + 1
            &&& node::sorted_keys(separators)
            &&& separators_inside(fence, separators)
            &&& messages_inside(fence, buffer)
            &&& forall|i: int|
                0 <= i < kids.len() ==> wf(#[trigger] kids[i], (h - 1) as nat) && fence_of(kids[i])
                    == child_fence(fence, separators, i)
            &&& forall|i: int, j: int|
                #![trigger kids[i], kids[j]]
                0 <= i < j < kids.len() ==> disjoint_pids(kids[i], kids[j])
            &&& forall|i: int| 0 <= i < kids.len() ==> !has_pid(#[trigger] kids[i], pid)
        },
    }
}

/// Well-formed trees of height `h` side by side under one fence.
pub open spec fn forest(
    fence: FenceView,
    separators: Seq<Seq<u8>>,
    kids: Seq<TreeView>,
    h: nat,
) -> bool {
    &&& kids.len() == separators.len() + 1
    &&& node::sorted_keys(separators)
    &&& separators_inside(fence, separators)
    &&& forall|i: int|
        0 <= i < kids.len() ==> wf(#[trigger] kids[i], h) && fence_of(kids[i]) == child_fence(
            fence,
            separators,
            i,
        )
    &&& forall|i: int, j: int|
        #![trigger kids[i], kids[j]]
        0 <= i < j < kids.len() ==> disjoint_pids(kids[i], kids[j])
}

pub proof fn wf_node(t: TreeView, h: nat)
    requires
        t is Node,
    ensures
        wf(t, h) <==> h > 0 && forest(t->Node_fence, t->separators, t->kids, (h - 1) as nat)
            && messages_inside(t->Node_fence, t->buffer) && !some_has_pid(t->kids, t->Node_pid),
{
}

/// No node of the tree has a message in its buffer.
pub open spec fn unbuffered(t: TreeView) -> bool
    decreases t,
{
    match t {
        TreeView::Leaf { .. } => true,
        TreeView::Node { buffer, kids, .. } => buffer.len() == 0 && forall|i: int|
            0 <= i < kids.len() ==> unbuffered(#[trigger] kids[i]),
    }
}

pub open spec fn all_unbuffered(kids: Seq<TreeView>) -> bool {
    forall|i: int| 0 <= i < kids.len() ==> unbuffered(#[trigger] kids[i])
}

/// No message waits in a buffer, and no node has more than `max` children: there
/// is nothing to flush, and no node has to be split.
pub open spec fn settled(t: TreeView, max: usize) -> bool
    decreases t,
{
    match t {
        TreeView::Leaf { .. } => true,
        TreeView::Node { buffer, kids, .. } => buffer.len() == 0 && kids.len() <= max && forall|
            i: int,
        |
            0 <= i < kids.len() ==> settled(#[trigger] kids[i], max),
    }
}

pub open spec fn all_settled(kids: Seq<TreeView>, max: usize) -> bool {
    forall|i: int| 0 <= i < kids.len() ==> settled(#[trigger] kids[i], max)
}

/// A settled tree has nothing in its buffers.
pub proof fn settled_unbuffered(t: TreeView, max: usize)
    requires
        settled(t, max),
    ensures
        unbuffered(t),
    decreases t,
{
    if t is Node {
        assert forall|i: int| 0 <= i < t->kids.len() implies unbuffered(
            #[trigger] t->kids[i],
        ) by {
            settled_unbuffered(t->kids[i], max);
        }
    }
}

/// Trees that differ at most in the pages they stand on.
pub open spec fn alike(a: TreeView, b: TreeView) -> bool
    decreases a,
{
    match (a, b) {
        (
            TreeView::Leaf { fence: f1, entries: e1, .. },
            TreeView::Leaf { fence: f2, entries: e2, .. },
        ) => f1 == f2 && e1 == e2,
        (
            TreeView::Node { fence: f1, separators: s1, buffer: b1, kids: k1, .. },
            TreeView::Node { fence: f2, separators: s2, buffer: b2, kids: k2, .. },
        ) => {
            &&& f1 == f2
            &&& s1 == s2
            &&& b1 == b2
            &&& k1.len() == k2.len()
            &&& forall|i: int|
                #![trigger k1[i]]
                #![trigger k2[i]]
                0 <= i < k1.len() ==> alike(k1[i], k2[i])
        },
        _ => false,
    }
}

pub open spec fn all_alike(a: Seq<TreeView>, b: Seq<TreeView>) -> bool {
    &&& a.len() == b.len()
    &&& forall|i: int|
        #![trigger a[i]]
        #![trigger b[i]]
        0 <= i < a.len() ==> alike(a[i], b[i])
}

pub proof fn alike_refl(t: TreeView)
    ensures
        alike(t, t),
    decreases t,
{
    if t is Node {
        assert forall|i: int| 0 <= i < t->kids.len() implies alike(
            #[trigger] t->kids[i],
            t->kids[i],
        ) by {
            alike_refl(t->kids[i]);
        }
    }
}

pub proof fn alike_sym(a: TreeView, b: TreeView)
    requires
        alike(a, b),
    ensures
        alike(b, a),
    decreases a,
{
    if a is Node {
        assert forall|i: int|
            #![trigger b->kids[i]]
            #![trigger a->kids[i]]
            0 <= i < b->kids.len() implies alike(b->kids[i], a->kids[i]) by {
            assert(alike(a->kids[i], b->kids[i]));
            alike_sym(a->kids[i], b->kids[i]);
        }
    }
}

pub proof fn alike_trans(a: TreeView, b: TreeView, c: TreeView)
    requires
        alike(a, b),
        alike(b, c),
    ensures
        alike(a, c),
    decreases a,
{
    if a is Node {
        assert forall|i: int|
            #![trigger a->kids[i]]
            #![trigger c->kids[i]]
            0 <= i < a->kids.len() implies alike(a->kids[i], c->kids[i]) by {
            assert(alike(a->kids[i], b->kids[i]));
            assert(alike(b->kids[i], c->kids[i]));
            alike_trans(a->kids[i], b->kids[i], c->kids[i]);
        }
    }
}

// ---------------------------------------------------------------------------
// Trees in pages.

/// The pages hold the tree.
pub open spec fn rep(pages: Seq<Seq<u8>>, t: TreeView) -> bool
    decreases t,
{
    &&& 0 < pid_of(t) < pages.len()
    &&& layout::parse_page(pages[pid_of(t) as int]) == Ok::<_, CowBeTreeError>(node_of(t))
    &&& match t {
        TreeView::Leaf { .. } => true,
        TreeView::Node { kids, .. } => forall|i: int|
            0 <= i < kids.len() ==> rep(pages, #[trigger] kids[i]),
    }
}

pub open spec fn rep_all(pages: Seq<Seq<u8>>, kids: Seq<TreeView>) -> bool {
    forall|i: int| 0 <= i < kids.len() ==> rep(pages, #[trigger] kids[i])
}

/// Pages that keep what belongs to a tree still hold the tree.
pub proof fn rep_frame(p1: Seq<Seq<u8>>, p2: Seq<Seq<u8>>, t: TreeView)
    requires
        rep(p1, t),
        forall|p: u64| #[trigger]
            has_pid(t, p) && p < p1.len() ==> p < p2.len() && p2[p as int] == p1[p as int],
    ensures
        rep(p2, t),
    decreases t,
{
    assert(has_pid(t, pid_of(t)));
    match t {
        TreeView::Leaf { .. } => {},
        TreeView::Node { kids, .. } => {
            assert forall|i: int| 0 <= i < kids.len() implies rep(p2, #[trigger] kids[i]) by {
                assert forall|p: u64| #[trigger]
                    has_pid(kids[i], p) && p < p1.len() implies p < p2.len() && p2[p as int]
                    == p1[p as int] by {
                    assert(has_pid(t, p));
                }
                rep_frame(p1, p2, kids[i]);
            }
        },
    }
}

/// Every page of a tree in pages is a page.
pub proof fn rep_in_bounds(pages: Seq<Seq<u8>>, t: TreeView, p: u64)
    requires
        rep(pages, t),
        has_pid(t, p),
    ensures
        0 < p < pages.len(),
    decreases t,
{
    if pid_of(t) != p {
        match t {
            TreeView::Leaf { .. } => {},
            TreeView::Node { kids, .. } => {
                let i = choose|i: int| 0 <= i < kids.len() && has_pid(#[trigger] kids[i], p);
                rep_in_bounds(pages, kids[i], p);
            },
        }
    }
}

// ---------------------------------------------------------------------------
// Routing.

/// A key of a fence lies in the fence of the child it is routed to, and of no
/// other child.
pub proof fn route_to_child(fence: FenceView, separators: Seq<Seq<u8>>, key: Seq<u8>)
    requires
        node::sorted_keys(separators),
        node::in_fence(fence, key),
    ensures
        0 <= node::route(separators, key) <= separators.len(),
        node::in_fence(
            child_fence(fence, separators, node::route(separators, key) as int),
            key,
        ),
{
    node::route_splits(separators, key);
    let r = node::route(separators, key) as int;
    if r > 0 {
        assert(!bytes::lex_lt(key, separators[r - 1]));
    }
}

pub proof fn child_is_routed(fence: FenceView, separators: Seq<Seq<u8>>, key: Seq<u8>, i: int)
    requires
        node::sorted_keys(separators),
        separators_inside(fence, separators),
        0 <= i <= separators.len(),
        node::in_fence(child_fence(fence, separators, i), key),
    ensures
        node::route(separators, key) == i,
        node::in_fence(fence, key),
{
    broadcast use bytes::group_lex;

    assert forall|j: int| 0 <= j < i implies !bytes::lex_lt(key, #[trigger] separators[j]) by {
        if j < i - 1 {
            assert(bytes::lex_lt(separators[j], separators[i - 1]));
        }
    }
    node::route_is(separators, key, i);
    if i > 0 {
        assert(bytes::lex_lt(fence.lower, separators[i - 1]));
    }
    if i < separators.len() {
        assert(fence.upper matches Some(u) ==> bytes::lex_lt(separators[i], u));
    }
}

/// The keys of a tree lie in its fence.
pub proof fn recs_in_fence(t: TreeView, h: nat, m: MessageView)
    requires
        wf(t, h),
        has_rec(t, m),
    ensures
        node::in_fence(fence_of(t), m.key),
    decreases t,
{
    match t {
        TreeView::Leaf { entries, .. } => {
            let i = choose|i: int|
                #![trigger entries[i]]
                0 <= i < entries.len() && entries[i].key == m.key && entries[i].versions.contains(
                    m.version,
                );
            assert(node::in_fence(fence_of(t), entries[i].key));
        },
        TreeView::Node { fence, separators, buffer, kids, .. } => {
            if buffer.contains(m) {
                let i = choose|i: int| 0 <= i < buffer.len() && buffer[i] == m;
                assert(node::in_fence(fence, buffer[i].key));
            } else {
                let i = choose|i: int| 0 <= i < kids.len() && has_rec(#[trigger] kids[i], m);
                recs_in_fence(kids[i], (h - 1) as nat, m);
                child_is_routed(fence, separators, m.key, i);
            }
        },
    }
}

/// In a forest only the tree that a key is routed to holds its records.
pub proof fn recs_are_routed(
    fence: FenceView,
    separators: Seq<Seq<u8>>,
    kids: Seq<TreeView>,
    h: nat,
    m: MessageView,
)
    requires
        forest(fence, separators, kids, h),
        some_has_rec(kids, m),
    ensures
        node::in_fence(fence, m.key),
        node::route(separators, m.key) < kids.len(),
        has_rec(kids[node::route(separators, m.key) as int], m),
{
    let i = choose|i: int| 0 <= i < kids.len() && has_rec(#[trigger] kids[i], m);
    recs_in_fence(kids[i], h, m);
    child_is_routed(fence, separators, m.key, i);
}

// ---------------------------------------------------------------------------
// Records that replace each other.

/// The set has a record of the key with the timestamp.
pub open spec fn has_slot(s: Set<MessageView>, key: Seq<u8>, ts: u64) -> bool {
    exists|m: MessageView| #[trigger] s.contains(m) && m.key == key && m.version.commit_ts == ts
}

/// `n` is what is left of `o` when of several records with the same key and
/// timestamp some were dropped, but not all.
pub open spec fn refine(n: Set<MessageView>, o: Set<MessageView>) -> bool {
    &&& forall|m: MessageView| #[trigger] n.contains(m) ==> o.contains(m)
    &&& forall|m: MessageView| #[trigger]
        o.contains(m) ==> has_slot(n, m.key, m.version.commit_ts)
}

pub proof fn refine_refl(s: Set<MessageView>)
    ensures
        refine(s, s),
{
}

pub proof fn refine_trans(a: Set<MessageView>, b: Set<MessageView>, c: Set<MessageView>)
    requires
        refine(a, b),
        refine(b, c),
    ensures
        refine(a, c),
{
    assert forall|m: MessageView| #[trigger] c.contains(m) implies has_slot(
        a,
        m.key,
        m.version.commit_ts,
    ) by {
        let x = choose|x: MessageView| #[trigger]
            b.contains(x) && x.key == m.key && x.version.commit_ts == m.version.commit_ts;
        assert(has_slot(a, x.key, x.version.commit_ts));
    }
}

pub proof fn refine_union(
    n1: Set<MessageView>,
    o1: Set<MessageView>,
    n2: Set<MessageView>,
    o2: Set<MessageView>,
)
    requires
        refine(n1, o1),
        refine(n2, o2),
    ensures
        refine(n1.union(n2), o1.union(o2)),
{
    let n = n1.union(n2);
    let o = o1.union(o2);
    assert forall|m: MessageView| #[trigger] o.contains(m) implies has_slot(
        n,
        m.key,
        m.version.commit_ts,
    ) by {
        if o1.contains(m) {
            let x = choose|x: MessageView| #[trigger]
                n1.contains(x) && x.key == m.key && x.version.commit_ts == m.version.commit_ts;
            assert(n.contains(x));
        } else {
            let x = choose|x: MessageView| #[trigger]
                n2.contains(x) && x.key == m.key && x.version.commit_ts == m.version.commit_ts;
            assert(n.contains(x));
        }
    }
}

/// No two records of the set have the same key and timestamp.
pub open spec fn slots_unique(s: Set<MessageView>) -> bool {
    forall|a: MessageView, b: MessageView| #[trigger]
        s.contains(a) && #[trigger] s.contains(b) && a.key == b.key && a.version.commit_ts
            == b.version.commit_ts ==> a == b
}

/// Where no two records have the same key and timestamp, nothing was dropped.
pub proof fn refine_unique(n: Set<MessageView>, o: Set<MessageView>)
    requires
        refine(n, o),
        slots_unique(o),
    ensures
        n == o,
{
    assert forall|m: MessageView| o.contains(m) implies n.contains(m) by {
        let x = choose|x: MessageView| #[trigger]
            n.contains(x) && x.key == m.key && x.version.commit_ts == m.version.commit_ts;
        assert(o.contains(x));
    }
    assert(n =~= o);
}

/// Applying messages to entries keeps order and adds their records, which
/// replace those with the same key and timestamp.
pub proof fn apply_messages_refine(entries: Seq<EntryView>, ms: Seq<MessageView>, fence: FenceView)
    requires
        node::sorted_entries(entries),
        node::entries_newest_first(entries),
        entries_inside(fence, entries),
        messages_inside(fence, ms),
    ensures
        ({
            let r = node::apply_messages(entries, ms);
            &&& node::sorted_entries(r)
            &&& node::entries_newest_first(r)
            &&& entries_inside(fence, r)
            &&& refine(entry_recs(r), entry_recs(entries).union(message_recs(ms)))
            &&& entries.len() <= r.len()
        }),
    decreases ms.len(),
{
    let r = node::apply_messages(entries, ms);
    if ms.len() == 0 {
        assert(entry_recs(entries).union(message_recs(ms)) =~= entry_recs(entries));
        refine_refl(entry_recs(r));
    } else {
        let front = ms.drop_last();
        let m = ms.last();
        assert forall|i: int| 0 <= i < front.len() implies node::in_fence(
            fence,
            (#[trigger] front[i]).key,
        ) by {
            assert(node::in_fence(fence, ms[i].key));
        }
        assert(node::in_fence(fence, ms[ms.len() - 1].key));
        apply_messages_refine(entries, front, fence);
        let mid = node::apply_messages(entries, front);
        node::apply_message_keeps_order(mid, m);
        node::lower_bound_splits(mid, m.key);
        assert forall|i: int| 0 <= i < r.len() implies node::in_fence(
            fence,
            (#[trigger] r[i]).key,
        ) by {
            if r[i].key != m.key {
                let j = choose|j: int| 0 <= j < mid.len() && mid[j].key == r[i].key;
                assert(node::in_fence(fence, mid[j].key));
            }
        }
        let one = Set::<MessageView>::empty().insert(m);
        assert(refine(entry_recs(r), entry_recs(mid).union(one))) by {
            let n = entry_recs(r);
            let o = entry_recs(mid).union(one);
            assert forall|x: MessageView| #[trigger] n.contains(x) implies o.contains(x) by {
                assert(node::entries_have(r, x.key, x.version));
                if x.key == m.key && x.version == m.version {
                    assert(x == m);
                }
            }
            assert forall|x: MessageView| #[trigger] o.contains(x) implies has_slot(
                n,
                x.key,
                x.version.commit_ts,
            ) by {
                if x.key == m.key && x.version.commit_ts == m.version.commit_ts {
                    assert(node::entries_have(r, m.key, m.version));
                    assert(n.contains(m));
                } else {
                    assert(node::entries_have(r, x.key, x.version));
                    assert(n.contains(x));
                }
            }
        }
        refine_refl(one);
        refine_union(
            entry_recs(mid),
            entry_recs(entries).union(message_recs(front)),
            one,
            one,
        );
        refine_trans(
            entry_recs(r),
            entry_recs(mid).union(one),
            entry_recs(entries).union(message_recs(front)).union(one),
        );
        assert(entry_recs(entries).union(message_recs(front)).union(one) =~= entry_recs(
            entries,
        ).union(message_recs(ms))) by {
            assert forall|x: MessageView| #[trigger] message_recs(ms).contains(x) <==> (
            message_recs(front).contains(x) || one.contains(x)) by {
                if ms.contains(x) {
                    let i = choose|i: int| 0 <= i < ms.len() && ms[i] == x;
                    if i < front.len() {
                        assert(front[i] == x);
                    }
                }
                if front.contains(x) {
                    let i = choose|i: int| 0 <= i < front.len() && front[i] == x;
                    assert(ms[i] == x);
                }
                assert(ms[ms.len() - 1] == m);
            }
        }
    }
}

// ---------------------------------------------------------------------------
// Cutting forests and putting them together.

/// The fence of the trees `[a, b)` of a forest.
pub open spec fn range_fence(fence: FenceView, separators: Seq<Seq<u8>>, a: int, b: int) -> FenceView {
    FenceView {
        lower: child_fence(fence, separators, a).lower,
        upper: child_fence(fence, separators, b - 1).upper,
    }
}

pub proof fn sub_forest(
    fence: FenceView,
    separators: Seq<Seq<u8>>,
    kids: Seq<TreeView>,
    h: nat,
    a: int,
    b: int,
)
    requires
        forest(fence, separators, kids, h),
        0 <= a < b <= kids.len(),
    ensures
        forest(
            range_fence(fence, separators, a, b),
            separators.subrange(a, b - 1),
            kids.subrange(a, b),
            h,
        ),
{
    let f = range_fence(fence, separators, a, b);
    let ss = separators.subrange(a, b - 1);
    let ks = kids.subrange(a, b);
    assert forall|i: int, j: int|
        #![trigger ss[i], ss[j]]
        0 <= i < j < ss.len() implies bytes::lex_lt(ss[i], ss[j]) by {
        assert(bytes::lex_lt(separators[a + i], separators[a + j]));
    }
    assert forall|i: int|
        #![trigger ss[i]]
        0 <= i < ss.len() implies bytes::lex_lt(f.lower, ss[i]) && (f.upper matches Some(u)
        ==> bytes::lex_lt(ss[i], u)) by {
        assert(ss[i] == separators[a + i]);
        if a > 0 {
            assert(bytes::lex_lt(separators[a - 1], separators[a + i]));
        }
        if b - 1 < separators.len() {
            assert(bytes::lex_lt(separators[a + i], separators[b - 1]));
        }
    }
    assert forall|i: int| 0 <= i < ks.len() implies wf(#[trigger] ks[i], h) && fence_of(ks[i])
        == child_fence(f, ss, i) by {
        assert(wf(kids[a + i], h));
        assert(fence_of(kids[a + i]) == child_fence(fence, separators, a + i));
    }
    assert forall|i: int, j: int|
        #![trigger ks[i], ks[j]]
        0 <= i < j < ks.len() implies disjoint_pids(ks[i], ks[j]) by {
        assert(disjoint_pids(kids[a + i], kids[a + j]));
    }
}

/// The separators of two forests put side by side at `sep`.
pub open spec fn joined_separators(s1: Seq<Seq<u8>>, sep: Seq<u8>, s2: Seq<Seq<u8>>) -> Seq<
    Seq<u8>,
> {
    s1 + (seq![sep] + s2)
}

pub open spec fn disjoint_forests(k1: Seq<TreeView>, k2: Seq<TreeView>) -> bool {
    forall|i: int, j: int|
        #![trigger k1[i], k2[j]]
        0 <= i < k1.len() && 0 <= j < k2.len() ==> disjoint_pids(k1[i], k2[j])
}

/// Two forests that meet at `sep` make one.
pub proof fn join_forests(
    f1: FenceView,
    s1: Seq<Seq<u8>>,
    k1: Seq<TreeView>,
    f2: FenceView,
    s2: Seq<Seq<u8>>,
    k2: Seq<TreeView>,
    sep: Seq<u8>,
    h: nat,
)
    requires
        forest(f1, s1, k1, h),
        forest(f2, s2, k2, h),
        f1.upper == Some(sep),
        f2.lower == sep,
        bytes::lex_lt(f1.lower, sep),
        f2.upper matches Some(u) ==> bytes::lex_lt(sep, u),
        disjoint_forests(k1, k2),
    ensures
        forest(
            FenceView { lower: f1.lower, upper: f2.upper },
            joined_separators(s1, sep, s2),
            k1 + k2,
            h,
        ),
{
    broadcast use bytes::group_lex;

    let f = FenceView { lower: f1.lower, upper: f2.upper };
    let s = joined_separators(s1, sep, s2);
    let k = k1 + k2;
    let n1 = s1.len() as int;
    assert forall|i: int|
        #![trigger s[i]]
        0 <= i < s.len() implies bytes::lex_lt(f.lower, s[i]) && (f.upper matches Some(u)
        ==> bytes::lex_lt(s[i], u)) by {
        if i < n1 {
            assert(s[i] == s1[i]);
            assert(bytes::lex_lt(s1[i], sep));
        } else if i > n1 {
            assert(s[i] == s2[i - n1 - 1]);
            assert(bytes::lex_lt(sep, s2[i - n1 - 1]));
        }
    }
    assert forall|i: int, j: int|
        #![trigger s[i], s[j]]
        0 <= i < j < s.len() implies bytes::lex_lt(s[i], s[j]) by {
        if j < n1 {
            assert(bytes::lex_lt(s1[i], s1[j]));
        } else if i > n1 {
            assert(bytes::lex_lt(s2[i - n1 - 1], s2[j - n1 - 1]));
        } else {
            if i < n1 {
                assert(s[i] == s1[i]);
                assert(bytes::lex_lt(s1[i], sep));
            }
            if j > n1 {
                assert(s[j] == s2[j - n1 - 1]);
                assert(bytes::lex_lt(sep, s2[j - n1 - 1]));
            }
        }
    }
    assert forall|i: int| 0 <= i < k.len() implies wf(#[trigger] k[i], h) && fence_of(k[i])
        == child_fence(f, s, i) by {
        if i <= n1 {
            assert(k[i] == k1[i]);
            assert(fence_of(k1[i]) == child_fence(f1, s1, i));
        } else {
            let q = i - n1 - 1;
            assert(k[i] == k2[q]);
            assert(fence_of(k2[q]) == child_fence(f2, s2, q));
        }
    }
    assert forall|i: int, j: int|
        #![trigger k[i], k[j]]
        0 <= i < j < k.len() implies disjoint_pids(k[i], k[j]) by {
        if j <= n1 {
            assert(disjoint_pids(k1[i], k1[j]));
        } else if i > n1 {
            assert(disjoint_pids(k2[i - n1 - 1], k2[j - n1 - 1]));
        } else {
            assert(disjoint_pids(k1[i], k2[j - n1 - 1]));
        }
    }
}

/// The separators of a forest after its trees `[a, b)` were replaced.
pub open spec fn spliced_separators(
    separators: Seq<Seq<u8>>,
    a: int,
    b: int,
    s2: Seq<Seq<u8>>,
) -> Seq<Seq<u8>> {
    separators.take(a) + s2 + separators.skip(b - 1)
}

/// The trees of a forest after its trees `[a, b)` were replaced.
pub open spec fn spliced_kids(kids: Seq<TreeView>, a: int, b: int, k2: Seq<TreeView>) -> Seq<
    TreeView,
> {
    kids.take(a) + k2 + kids.skip(b)
}

/// Trees of a forest can be replaced by a forest under the fence they had.
pub proof fn splice_forest(
    fence: FenceView,
    separators: Seq<Seq<u8>>,
    kids: Seq<TreeView>,
    h: nat,
    a: int,
    b: int,
    s2: Seq<Seq<u8>>,
    k2: Seq<TreeView>,
)
    requires
        forest(fence, separators, kids, h),
        0 <= a < b <= kids.len(),
        forest(range_fence(fence, separators, a, b), s2, k2, h),
        disjoint_forests(kids.take(a), k2),
        disjoint_forests(k2, kids.skip(b)),
    ensures
        forest(
            fence,
            spliced_separators(separators, a, b, s2),
            spliced_kids(kids, a, b, k2),
            h,
        ),
{
    let f2 = range_fence(fence, separators, a, b);
    let n = kids.len() as int;
    // The part in front and the replacement.
    let mid_f = FenceView { lower: fence.lower, upper: f2.upper };
    let mid_s = separators.take(a) + s2;
    let mid_k = kids.take(a) + k2;
    if a == 0 {
        assert(mid_s =~= s2);
        assert(mid_k =~= k2);
        assert(mid_f == f2);
    } else {
        sub_forest(fence, separators, kids, h, 0, a);
        let f1 = range_fence(fence, separators, 0, a);
        let s1 = separators.subrange(0, a - 1);
        let k1 = kids.subrange(0, a);
        let sep = separators[a - 1];
        assert(k1 =~= kids.take(a));
        assert(bytes::lex_lt(fence.lower, sep));
        if f2.upper is Some {
            if b - 1 < separators.len() {
                assert(bytes::lex_lt(separators[a - 1], separators[b - 1]));
            } else {
                assert(bytes::lex_lt(separators[a - 1], fence.upper->0));
            }
        }
        join_forests(f1, s1, k1, f2, s2, k2, sep, h);
        assert(joined_separators(s1, sep, s2) =~= mid_s);
        assert(k1 + k2 =~= mid_k);
    }
    assert(forest(mid_f, mid_s, mid_k, h));
    if b == n {
        assert(spliced_separators(separators, a, b, s2) =~= mid_s);
        assert(spliced_kids(kids, a, b, k2) =~= mid_k);
        assert(mid_f == fence);
    } else {
        sub_forest(fence, separators, kids, h, b, n);
        let f3 = range_fence(fence, separators, b, n);
        let s3 = separators.subrange(b, n - 1);
        let k3 = kids.subrange(b, n);
        let sep = separators[b - 1];
        assert(k3 =~= kids.skip(b));
        assert(bytes::lex_lt(fence.lower, sep));
        assert(disjoint_forests(mid_k, k3)) by {
            assert forall|i: int, j: int|
                #![trigger mid_k[i], k3[j]]
                0 <= i < mid_k.len() && 0 <= j < k3.len() implies disjoint_pids(
                mid_k[i],
                k3[j],
            ) by {
                if i < a {
                    assert(mid_k[i] == kids[i]);
                    assert(k3[j] == kids[b + j]);
                    assert(disjoint_pids(kids[i], kids[b + j]));
                } else {
                    assert(mid_k[i] == k2[i - a]);
                    assert(k3[j] == kids.skip(b)[j]);
                }
            }
        }
        join_forests(mid_f, mid_s, mid_k, f3, s3, k3, sep, h);
        assert(joined_separators(mid_s, sep, s3) =~= spliced_separators(separators, a, b, s2));
        assert(mid_k + k3 =~= spliced_kids(kids, a, b, k2));
    }
}

/// The records and pages of trees put side by side.
pub proof fn forest_parts(k1: Seq<TreeView>, k2: Seq<TreeView>)
    ensures
        forest_recs(k1 + k2) == forest_recs(k1).union(forest_recs(k2)),
        forest_pids(k1 + k2) == forest_pids(k1).union(forest_pids(k2)),
{
    let k = k1 + k2;
    assert forall|m: MessageView| some_has_rec(k, m) <==> some_has_rec(k1, m) || some_has_rec(
        k2,
        m,
    ) by {
        if some_has_rec(k, m) {
            let i = choose|i: int| 0 <= i < k.len() && has_rec(#[trigger] k[i], m);
            if i < k1.len() {
                assert(has_rec(k1[i], m));
            } else {
                assert(has_rec(k2[i - k1.len()], m));
            }
        }
        if some_has_rec(k1, m) {
            let i = choose|i: int| 0 <= i < k1.len() && has_rec(#[trigger] k1[i], m);
            assert(has_rec(k[i], m));
        }
        if some_has_rec(k2, m) {
            let i = choose|i: int| 0 <= i < k2.len() && has_rec(#[trigger] k2[i], m);
            assert(has_rec(k[k1.len() + i], m));
        }
    }
    assert forall|p: u64| some_has_pid(k, p) <==> some_has_pid(k1, p) || some_has_pid(k2, p) by {
        if some_has_pid(k, p) {
            let i = choose|i: int| 0 <= i < k.len() && has_pid(#[trigger] k[i], p);
            if i < k1.len() {
                assert(has_pid(k1[i], p));
            } else {
                assert(has_pid(k2[i - k1.len()], p));
            }
        }
        if some_has_pid(k1, p) {
            let i = choose|i: int| 0 <= i < k1.len() && has_pid(#[trigger] k1[i], p);
            assert(has_pid(k[i], p));
        }
        if some_has_pid(k2, p) {
            let i = choose|i: int| 0 <= i < k2.len() && has_pid(#[trigger] k2[i], p);
            assert(has_pid(k[k1.len() + i], p));
        }
    }
    assert(forest_recs(k) =~= forest_recs(k1).union(forest_recs(k2)));
    assert(forest_pids(k) =~= forest_pids(k1).union(forest_pids(k2)));
}

/// The records and pages of one tree.
pub proof fn forest_of_one(t: TreeView)
    ensures
        forest_recs(seq![t]) == tree_recs(t),
        forest_pids(seq![t]) == tree_pids(t),
{
    let k = seq![t];
    assert forall|m: MessageView| some_has_rec(k, m) <==> has_rec(t, m) by {
        if has_rec(t, m) {
            assert(has_rec(k[0], m));
        }
    }
    assert forall|p: u64| some_has_pid(k, p) <==> has_pid(t, p) by {
        if has_pid(t, p) {
            assert(has_pid(k[0], p));
        }
    }
    assert(forest_recs(k) =~= tree_recs(t));
    assert(forest_pids(k) =~= tree_pids(t));
}

/// The records and pages of a tree: those of its root page and of its subtrees.
pub proof fn tree_parts(t: TreeView)
    ensures
        t is Leaf ==> tree_recs(t) == entry_recs(t->entries) && tree_pids(t) == Set::<
            u64,
        >::empty().insert(pid_of(t)),
        t is Node ==> tree_recs(t) == message_recs(t->buffer).union(forest_recs(t->kids))
            && tree_pids(t) == forest_pids(t->kids).insert(pid_of(t)),
{
    match t {
        TreeView::Leaf { entries, .. } => {
            assert(tree_recs(t) =~= entry_recs(entries));
            assert(tree_pids(t) =~= Set::<u64>::empty().insert(pid_of(t)));
        },
        TreeView::Node { buffer, kids, .. } => {
            assert(tree_recs(t) =~= message_recs(buffer).union(forest_recs(kids)));
            assert(tree_pids(t) =~= forest_pids(kids).insert(pid_of(t)));
        },
    }
}

/// The messages of two buffers side by side.
pub proof fn message_recs_add(a: Seq<MessageView>, b: Seq<MessageView>)
    ensures
        message_recs(a + b) == message_recs(a).union(message_recs(b)),
{
    let s = a + b;
    assert forall|m: MessageView| s.contains(m) <==> a.contains(m) || b.contains(m) by {
        if s.contains(m) {
            let i = choose|i: int| 0 <= i < s.len() && s[i] == m;
            if i < a.len() {
                assert(a[i] == m);
            } else {
                assert(b[i - a.len()] == m);
            }
        }
        if a.contains(m) {
            let i = choose|i: int| 0 <= i < a.len() && a[i] == m;
            assert(s[i] == m);
        }
        if b.contains(m) {
            let i = choose|i: int| 0 <= i < b.len() && b[i] == m;
            assert(s[a.len() + i] == m);
        }
    }
    assert(message_recs(s) =~= message_recs(a).union(message_recs(b)));
}

/// Forests without a common page.
pub proof fn disjoint_by_pids(k1: Seq<TreeView>, k2: Seq<TreeView>)
    ensures
        disjoint_forests(k1, k2) <==> forest_pids(k1).disjoint(forest_pids(k2)),
{
    if disjoint_forests(k1, k2) {
        assert forall|p: u64| !(forest_pids(k1).contains(p) && forest_pids(k2).contains(p)) by {
            if some_has_pid(k1, p) && some_has_pid(k2, p) {
                let i = choose|i: int| 0 <= i < k1.len() && has_pid(#[trigger] k1[i], p);
                let j = choose|j: int| 0 <= j < k2.len() && has_pid(#[trigger] k2[j], p);
                assert(disjoint_pids(k1[i], k2[j]));
            }
        }
    }
    if forest_pids(k1).disjoint(forest_pids(k2)) {
        assert forall|i: int, j: int|
            #![trigger k1[i], k2[j]]
            0 <= i < k1.len() && 0 <= j < k2.len() implies disjoint_pids(k1[i], k2[j]) by {
            assert forall|p: u64| !(#[trigger] has_pid(k1[i], p) && has_pid(k2[j], p)) by {
                if has_pid(k1[i], p) && has_pid(k2[j], p) {
                    assert(forest_pids(k1).contains(p));
                    assert(forest_pids(k2).contains(p));
                }
            }
        }
    }
}

/// The parts of a forest before, at and behind a range of its trees have no page
/// in common.
pub proof fn forest_ranges(
    fence: FenceView,
    separators: Seq<Seq<u8>>,
    kids: Seq<TreeView>,
    h: nat,
    a: int,
    b: int,
)
    requires
        forest(fence, separators, kids, h),
        0 <= a <= b <= kids.len(),
    ensures
        forest_pids(kids) == forest_pids(kids.take(a)).union(
            forest_pids(kids.subrange(a, b)),
        ).union(forest_pids(kids.skip(b))),
        forest_recs(kids) == forest_recs(kids.take(a)).union(
            forest_recs(kids.subrange(a, b)),
        ).union(forest_recs(kids.skip(b))),
        forest_pids(kids.take(a)).disjoint(forest_pids(kids.subrange(a, b))),
        forest_pids(kids.take(a)).disjoint(forest_pids(kids.skip(b))),
        forest_pids(kids.subrange(a, b)).disjoint(forest_pids(kids.skip(b))),
{
    let k1 = kids.take(a);
    let k2 = kids.subrange(a, b);
    let k3 = kids.skip(b);
    assert(kids =~= k1 + k2 + k3);
    forest_parts(k1, k2);
    forest_parts(k1 + k2, k3);
    assert(disjoint_forests(k1, k2)) by {
        assert forall|i: int, j: int|
            #![trigger k1[i], k2[j]]
            0 <= i < k1.len() && 0 <= j < k2.len() implies disjoint_pids(k1[i], k2[j]) by {
            assert(disjoint_pids(kids[i], kids[a + j]));
        }
    }
    assert(disjoint_forests(k1, k3)) by {
        assert forall|i: int, j: int|
            #![trigger k1[i], k3[j]]
            0 <= i < k1.len() && 0 <= j < k3.len() implies disjoint_pids(k1[i], k3[j]) by {
            assert(disjoint_pids(kids[i], kids[b + j]));
        }
    }
    assert(disjoint_forests(k2, k3)) by {
        assert forall|i: int, j: int|
            #![trigger k2[i], k3[j]]
            0 <= i < k2.len() && 0 <= j < k3.len() implies disjoint_pids(k2[i], k3[j]) by {
            assert(disjoint_pids(kids[a + i], kids[b + j]));
        }
    }
    disjoint_by_pids(k1, k2);
    disjoint_by_pids(k1, k3);
    disjoint_by_pids(k2, k3);
}

} // verus!
