//! What the counts of a tree say of it.
use vstd::prelude::*;

use crate::betree::carry;
use crate::betree::message::MessageView;
use crate::betree::node;
use crate::betree::node::PageKindDebug;
use crate::betree::pool::PagePool;
use crate::betree::shape;
use crate::betree::shape::TreeView;
use crate::betree::tree::CowBeTree;
use crate::betree::walk;
use crate::betree::walk::CowBeTreeDebugState;
use crate::bytes;

verus! {

/// A node, and the trees before `n`.
spec fn first_pids(kids: Seq<TreeView>, n: nat) -> Set<u64> {
    Set::new(|p: u64| exists|i: int| 0 <= i < n && shape::has_pid(#[trigger] kids[i], p))
}

proof fn pages_of_tree(t: TreeView, h: nat)
    requires
        shape::wf(t, h),
    ensures
        shape::tree_pids(t).finite(),
        shape::tree_pids(t).len() == walk::tree_counts(t).leaf_pages + walk::tree_counts(
            t,
        ).internal_pages,
    decreases t, 0nat,
{
    let all = shape::tree_pids(t);
    let root = shape::pid_of(t);
    match t {
        TreeView::Leaf { .. } => {
            assert(all =~= Set::<u64>::empty().insert(root));
        },
        TreeView::Node { kids, .. } => {
            pages_of_trees(kids, (h - 1) as nat, kids.len());
            let below = first_pids(kids, kids.len());
            assert(all =~= below.insert(root));
            assert(!below.contains(root)) by {
                if below.contains(root) {
                    let i = choose|i: int|
                        0 <= i < kids.len() && shape::has_pid(#[trigger] kids[i], root);
                    assert(!shape::has_pid(kids[i], root));
                }
            }
        },
    }
}

proof fn pages_of_trees(kids: Seq<TreeView>, h: nat, n: nat)
    requires
        n <= kids.len(),
        forall|i: int| 0 <= i < kids.len() ==> shape::wf(#[trigger] kids[i], h),
        forall|i: int, j: int|
            #![trigger kids[i], kids[j]]
            0 <= i < j < kids.len() ==> shape::disjoint_pids(kids[i], kids[j]),
    ensures
        first_pids(kids, n).finite(),
        first_pids(kids, n).len() == walk::forest_counts(kids, n).leaf_pages + walk::forest_counts(
            kids,
            n,
        ).internal_pages,
    decreases kids, n,
{
    let all = first_pids(kids, n);
    if n == 0 {
        assert(all =~= Set::<u64>::empty());
    } else {
        let m = (n - 1) as nat;
        pages_of_trees(kids, h, m);
        assert(shape::wf(kids[m as int], h));
        pages_of_tree(kids[m as int], h);
        let a = first_pids(kids, m);
        let b = shape::tree_pids(kids[m as int]);
        assert(all =~= a.union(b)) by {
            assert forall|p: u64| #[trigger] all.contains(p) <==> a.union(b).contains(p) by {
                if all.contains(p) {
                    let i = choose|i: int| 0 <= i < n && shape::has_pid(#[trigger] kids[i], p);
                    if i < m {
                        assert(a.contains(p));
                    }
                }
                if a.contains(p) {
                    let i = choose|i: int| 0 <= i < m && shape::has_pid(#[trigger] kids[i], p);
                    assert(shape::has_pid(kids[i], p));
                }
                if b.contains(p) {
                    assert(shape::has_pid(kids[m as int], p));
                }
            }
        }
        assert(a.disjoint(b)) by {
            assert forall|p: u64| !(#[trigger] a.contains(p) && b.contains(p)) by {
                if a.contains(p) && b.contains(p) {
                    let i = choose|i: int| 0 <= i < m && shape::has_pid(#[trigger] kids[i], p);
                    assert(shape::disjoint_pids(kids[i], kids[m as int]));
                }
            }
        }
        vstd::set_lib::lemma_set_disjoint_lens(a, b);
    }
}

/// Every page of a tree is counted once, as a leaf or as a node.
pub proof fn every_page_is_counted(t: TreeView, h: nat)
    requires
        shape::wf(t, h),
    ensures
        shape::tree_pids(t).finite(),
        walk::tree_counts(t).leaf_pages + walk::tree_counts(t).internal_pages == shape::tree_pids(
            t,
        ).len(),
{
    pages_of_tree(t, h);
}

/// A page of the tree with the buffer.
pub open spec fn has_buffer(t: TreeView, b: Seq<MessageView>) -> bool
    decreases t,
{
    match t {
        TreeView::Leaf { .. } => false,
        TreeView::Node { buffer, kids, .. } => buffer == b || exists|i: int|
            0 <= i < kids.len() && has_buffer(#[trigger] kids[i], b),
    }
}

/// No buffer of a tree is longer than its counts say, one is as long, and together
/// they hold as many messages as counted: none if and only if no message waits.
#[verifier::rlimit(40)]
#[verifier::spinoff_prover]
pub proof fn waiting_messages_are_counted(t: TreeView)
    ensures
        ({
            let c = walk::tree_counts(t);
            &&& 0 <= c.max_buffered <= c.buffered_messages
            &&& forall|b: Seq<MessageView>| #[trigger] has_buffer(t, b) ==> b.len()
                <= c.max_buffered
            &&& t is Node ==> exists|b: Seq<MessageView>| #[trigger]
                has_buffer(t, b) && b.len() == c.max_buffered
            &&& c.buffered_messages == 0 <==> forall|x: MessageView| !#[trigger] carry::waits(t, x)
        }),
    decreases t, 0nat,
{
    if t is Node {
        let (buffer, kids) = (t->buffer, t->kids);
        waiting_in_trees_are_counted(kids, kids.len());
        let c = walk::tree_counts(t);
        let f = walk::forest_counts(kids, kids.len());
        assert forall|b: Seq<MessageView>| #[trigger] has_buffer(t, b) implies b.len()
            <= c.max_buffered by {
            if buffer != b {
                let i = choose|i: int| 0 <= i < kids.len() && has_buffer(#[trigger] kids[i], b);
                assert(has_buffer(kids[i], b));
            }
        }
        if f.max_buffered > buffer.len() {
            let (i, b) = choose|i: int, b: Seq<MessageView>|
                0 <= i < kids.len() && #[trigger] has_buffer(kids[i], b) && b.len()
                    == f.max_buffered;
            assert(has_buffer(t, b));
        } else {
            assert(has_buffer(t, buffer));
        }
        if c.buffered_messages == 0 {
            assert forall|x: MessageView| !#[trigger] carry::waits(t, x) by {
                if carry::waits(t, x) && !buffer.contains(x) {
                    let i = choose|i: int| 0 <= i < kids.len() && carry::waits(#[trigger] kids[i], x);
                    assert(carry::waits(kids[i], x));
                }
            }
        } else if buffer.len() > 0 {
            assert(buffer.contains(buffer[0]));
            assert(carry::waits(t, buffer[0]));
        } else {
            let (i, x) = choose|i: int, x: MessageView|
                0 <= i < kids.len() && #[trigger] carry::waits(kids[i], x);
            assert(carry::waits(kids[i], x));
            assert(carry::waits(t, x));
        }
    }
}

#[verifier::rlimit(40)]
#[verifier::spinoff_prover]
proof fn waiting_in_trees_are_counted(kids: Seq<TreeView>, n: nat)
    requires
        n <= kids.len(),
    ensures
        ({
            let c = walk::forest_counts(kids, n);
            &&& 0 <= c.max_buffered <= c.buffered_messages
            &&& forall|i: int, b: Seq<MessageView>|
                0 <= i < n && #[trigger] has_buffer(kids[i], b) ==> b.len() <= c.max_buffered
            &&& c.max_buffered > 0 ==> exists|i: int, b: Seq<MessageView>|
                0 <= i < n && #[trigger] has_buffer(kids[i], b) && b.len() == c.max_buffered
            &&& c.buffered_messages == 0 ==> forall|i: int, x: MessageView|
                0 <= i < n ==> !#[trigger] carry::waits(kids[i], x)
            &&& c.buffered_messages > 0 ==> exists|i: int, x: MessageView|
                0 <= i < n && #[trigger] carry::waits(kids[i], x)
        }),
    decreases kids, n,
{
    if n > 0 {
        let m = (n - 1) as nat;
        let k = kids[m as int];
        waiting_in_trees_are_counted(kids, m);
        waiting_messages_are_counted(k);
        let (a, b) = (walk::forest_counts(kids, m), walk::tree_counts(k));
        let c = walk::forest_counts(kids, n);
        if c.max_buffered > 0 {
            if a.max_buffered >= b.max_buffered {
                let (i, x) = choose|i: int, x: Seq<MessageView>|
                    0 <= i < m && #[trigger] has_buffer(kids[i], x) && x.len() == a.max_buffered;
                assert(has_buffer(kids[i], x));
            } else {
                let x = choose|x: Seq<MessageView>| #[trigger]
                    has_buffer(k, x) && x.len() == b.max_buffered;
                assert(has_buffer(kids[m as int], x));
            }
        }
        if a.buffered_messages > 0 {
            let (i, x) = choose|i: int, x: MessageView|
                0 <= i < m && #[trigger] carry::waits(kids[i], x);
            assert(carry::waits(kids[i], x));
        } else if b.buffered_messages > 0 {
            let x = choose|x: MessageView| #[trigger] carry::waits(k, x);
            assert(carry::waits(kids[m as int], x));
        }
    }
}

proof fn heights_and_nodes(t: TreeView, h: nat)
    requires
        shape::wf(t, h),
    ensures
        t is Leaf <==> h == 0,
        t is Leaf <==> walk::tree_counts(t).internal_pages == 0,
        walk::tree_counts(t).internal_pages >= h,
        walk::tree_counts(t).leaf_pages >= 1,
    decreases t, 0nat,
{
    if t is Node {
        let kids = t->kids;
        nodes_of_trees(kids, (h - 1) as nat, kids.len());
    }
}

proof fn nodes_of_trees(kids: Seq<TreeView>, h: nat, n: nat)
    requires
        n <= kids.len(),
        forall|i: int| 0 <= i < kids.len() ==> shape::wf(#[trigger] kids[i], h),
    ensures
        walk::forest_counts(kids, n).internal_pages >= 0,
        walk::forest_counts(kids, n).leaf_pages >= n,
        n > 0 ==> walk::forest_counts(kids, n).internal_pages >= h,
    decreases kids, n,
{
    if n > 0 {
        let m = (n - 1) as nat;
        nodes_of_trees(kids, h, m);
        assert(shape::wf(kids[m as int], h));
        heights_and_nodes(kids[m as int], h);
    }
}

// ---------------------------------------------------------------------------
// Keys.

/// A leaf of the tree has an entry with the key.
pub open spec fn has_entry(t: TreeView, key: Seq<u8>) -> bool
    decreases t,
{
    match t {
        TreeView::Leaf { entries, .. } => exists|i: int|
            0 <= i < entries.len() && (#[trigger] entries[i]).key == key,
        TreeView::Node { kids, .. } => exists|i: int|
            0 <= i < kids.len() && has_entry(#[trigger] kids[i], key),
    }
}

/// The keys that the leaves of a tree have entries of.
pub open spec fn leaf_keys(t: TreeView) -> Set<Seq<u8>> {
    Set::new(|key: Seq<u8>| has_entry(t, key))
}

spec fn first_keys(kids: Seq<TreeView>, n: nat) -> Set<Seq<u8>> {
    Set::new(|key: Seq<u8>| exists|i: int| 0 <= i < n && has_entry(#[trigger] kids[i], key))
}

proof fn entry_in_fence(t: TreeView, h: nat, key: Seq<u8>)
    requires
        shape::wf(t, h),
        has_entry(t, key),
    ensures
        node::in_fence(shape::fence_of(t), key),
    decreases t,
{
    match t {
        TreeView::Leaf { entries, .. } => {
            let i = choose|i: int| 0 <= i < entries.len() && (#[trigger] entries[i]).key == key;
            assert(node::in_fence(shape::fence_of(t), entries[i].key));
        },
        TreeView::Node { fence, separators, kids, .. } => {
            let i = choose|i: int| 0 <= i < kids.len() && has_entry(#[trigger] kids[i], key);
            shape::wf_node(t, h);
            assert(shape::wf(kids[i], (h - 1) as nat));
            assert(shape::fence_of(kids[i]) == shape::child_fence(fence, separators, i));
            entry_in_fence(kids[i], (h - 1) as nat, key);
            shape::child_is_routed(fence, separators, key, i);
        },
    }
}

proof fn keys_of_tree(t: TreeView, h: nat)
    requires
        shape::wf(t, h),
    ensures
        leaf_keys(t).finite(),
        leaf_keys(t).len() == walk::tree_counts(t).leaf_entries,
    decreases t, 0nat,
{
    broadcast use bytes::group_lex;

    let all = leaf_keys(t);
    match t {
        TreeView::Leaf { entries, .. } => {
            let keys = Seq::new(entries.len(), |i: int| entries[i].key);
            assert(keys.no_duplicates()) by {
                assert forall|i: int, j: int|
                    0 <= i < keys.len() && 0 <= j < keys.len() && i != j implies keys[i]
                    != keys[j] by {
                    if i < j {
                        assert(bytes::lex_lt(entries[i].key, entries[j].key));
                    } else {
                        assert(bytes::lex_lt(entries[j].key, entries[i].key));
                    }
                }
            }
            keys.unique_seq_to_set();
            vstd::seq_lib::seq_to_set_is_finite(keys);
            assert(all =~= keys.to_set()) by {
                assert forall|key: Seq<u8>| #[trigger] all.contains(key) <==> keys.to_set().contains(
                    key,
                ) by {
                    if all.contains(key) {
                        let i = choose|i: int|
                            0 <= i < entries.len() && (#[trigger] entries[i]).key == key;
                        assert(keys[i] == key);
                    }
                    if keys.contains(key) {
                        let i = choose|i: int| 0 <= i < keys.len() && keys[i] == key;
                        assert(entries[i].key == key);
                    }
                }
            }
        },
        TreeView::Node { kids, .. } => {
            keys_of_trees(t, h, kids.len());
            assert(all =~= first_keys(kids, kids.len()));
        },
    }
}

proof fn keys_of_trees(t: TreeView, h: nat, n: nat)
    requires
        t is Node,
        shape::wf(t, h),
        n <= t->kids.len(),
    ensures
        first_keys(t->kids, n).finite(),
        first_keys(t->kids, n).len() == walk::forest_counts(t->kids, n).leaf_entries,
    decreases t->kids, n,
{
    let (fence, separators, kids) = (t->Node_fence, t->separators, t->kids);
    let hk = (h - 1) as nat;
    shape::wf_node(t, h);
    let all = first_keys(kids, n);
    if n == 0 {
        assert(all =~= Set::<Seq<u8>>::empty());
    } else {
        let m = (n - 1) as nat;
        let last = kids[m as int];
        keys_of_trees(t, h, m);
        assert(shape::wf(last, hk));
        assert(shape::fence_of(last) == shape::child_fence(fence, separators, m as int));
        keys_of_tree(last, hk);
        let a = first_keys(kids, m);
        let b = leaf_keys(last);
        assert(all =~= a.union(b)) by {
            assert forall|key: Seq<u8>| #[trigger] all.contains(key) <==> a.union(b).contains(
                key,
            ) by {
                if all.contains(key) {
                    let i = choose|i: int| 0 <= i < n && has_entry(#[trigger] kids[i], key);
                    if i < m {
                        assert(a.contains(key));
                    }
                }
                if a.contains(key) {
                    let i = choose|i: int| 0 <= i < m && has_entry(#[trigger] kids[i], key);
                    assert(has_entry(kids[i], key));
                }
                if b.contains(key) {
                    assert(has_entry(kids[m as int], key));
                }
            }
        }
        assert(a.disjoint(b)) by {
            assert forall|key: Seq<u8>| !(#[trigger] a.contains(key) && b.contains(key)) by {
                if a.contains(key) && b.contains(key) {
                    let i = choose|i: int| 0 <= i < m && has_entry(#[trigger] kids[i], key);
                    assert(shape::wf(kids[i], hk));
                    assert(shape::fence_of(kids[i]) == shape::child_fence(fence, separators, i));
                    entry_in_fence(kids[i], hk, key);
                    entry_in_fence(last, hk, key);
                    shape::child_is_routed(fence, separators, key, i);
                    shape::child_is_routed(fence, separators, key, m as int);
                }
            }
        }
        vstd::set_lib::lemma_set_disjoint_lens(a, b);
    }
}

/// What a snapshot of a tree says: every page is counted once, and every key of the
/// leaves; the root is a leaf if
/// and only if the tree has no node and no level above the leaves; there are as many
/// nodes as levels, or more; the longest buffer is not longer than all together, and
/// nothing is counted in buffers if and only if no message waits.
#[verifier::rlimit(40)]
#[verifier::spinoff_prover]
pub proof fn snapshot_tells_of_the_tree(t: &CowBeTree, pool: &PagePool, r: CowBeTreeDebugState)
    requires
        t.wf(pool.view()),
        call_ensures(CowBeTree::debug_snapshot, (t, pool), r),
        t.pids().len() <= u32::MAX,
        leaf_keys(t.tree()).len() <= u32::MAX,
    ensures
        r.leaf_entries == leaf_keys(t.tree()).len(),
        r.leaf_pages + r.internal_pages == t.pids().len(),
        r.leaf_pages >= 1,
        r.root_kind == Some(PageKindDebug::Leaf) <==> t.tree() is Leaf,
        r.root_kind == Some(PageKindDebug::Internal) <==> t.tree() is Node,
        r.height == 0 <==> t.tree() is Leaf,
        r.internal_pages == 0 <==> t.tree() is Leaf,
        r.internal_pages >= r.height,
        r.height == t.depth(),
        r.max_buffered_messages_on_page <= r.buffered_messages,
        r.buffered_messages == 0 <==> forall|x: MessageView| !#[trigger] carry::waits(t.tree(), x),
        forall|b: Seq<MessageView>| #[trigger]
            has_buffer(t.tree(), b) && b.len() <= usize::MAX ==> b.len()
                <= r.max_buffered_messages_on_page,
{
    pages_of_tree(t.tree(), t.depth());
    keys_of_tree(t.tree(), t.depth());
    heights_and_nodes(t.tree(), t.depth());
    waiting_messages_are_counted(t.tree());
}

} // verus!
