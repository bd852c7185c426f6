//! Rewriting nodes: leaves with new records, nodes over new children, and what
//! is too large split in two.
use vstd::prelude::*;

use crate::betree::batch;
use crate::betree::config::CowBeTreeConfig;
use crate::betree::course;
use crate::betree::leaf_work;
use crate::betree::leaf_work::Rewrite;
use crate::betree::message;
use crate::betree::message::{BufferedMessage, MessageView};
use crate::betree::node;
use crate::betree::node::{CowBeTreeError, EntryView, Fence, FenceView, LeafEntry, NodeView};
use crate::betree::pool;
use crate::betree::pool::{PagePool, PoolView};
use crate::betree::shape;
use crate::betree::shape::TreeView;
use crate::betree::work;
use crate::betree::writer;
use crate::bytes;
use crate::page_id::PAGE_SIZE;

verus! {

// ---------------------------------------------------------------------------
// Limits.

/// A leaf has to be split: it has too many entries, or no place on a page.
pub open spec fn leaf_splits(max: usize, fence: FenceView, entries: Seq<EntryView>) -> bool {
    entries.len() > max || !work::fits_page(NodeView::Leaf { fence, entries })
}

/// The halves that a leaf is split into have a place on a page each.
pub open spec fn halves_fit(fence: FenceView, entries: Seq<EntryView>) -> bool {
    let mid = entries.len() as int / 2;
    let separator = entries[mid].key;
    &&& entries.len() >= 2
    &&& work::fits_page(
        NodeView::Leaf {
            fence: FenceView { lower: fence.lower, upper: Some(separator) },
            entries: entries.take(mid),
        },
    )
    &&& work::fits_page(
        NodeView::Leaf {
            fence: FenceView { lower: separator, upper: fence.upper },
            entries: entries.skip(mid),
        },
    )
}

/// An internal node has to be split: it has too many children, or no place on a
/// page.
pub open spec fn internal_splits(
    max: usize,
    fence: FenceView,
    children: Seq<u64>,
    separators: Seq<Seq<u8>>,
    buffer: Seq<MessageView>,
) -> bool {
    children.len() > max || !work::fits_page(
        NodeView::Internal { fence, children, separators, buffer },
    )
}

/// A buffer has to be flushed: it has too many messages, or too many bytes.
pub open spec fn buffer_flushes(config: CowBeTreeConfig, buffer: Seq<MessageView>) -> bool {
    buffer.len() >= config.flush_threshold_messages || message::clamp_usize(
        message::messages_len(buffer),
    ) >= config.flush_threshold_bytes
}

impl CowBeTreeConfig {
    pub fn leaf_should_split(&self, fence: &Fence, entries: &[LeafEntry]) -> (r: bool)
        ensures
            r == leaf_splits(self.max_leaf_entries, fence@, node::entries_view(entries@)),
    {
        if entries.len() > self.max_leaf_entries {
            return true;
        }
        writer::leaf_page_len(fence, entries, PAGE_SIZE).is_err()
    }

    pub fn internal_should_split(
        &self,
        fence: &Fence,
        children: &[u64],
        separators: &[Vec<u8>],
        buffer: &[BufferedMessage],
    ) -> (r: bool)
        ensures
            r == internal_splits(
                self.max_internal_children,
                fence@,
                children@,
                node::keys_view(separators@),
                message::messages_view(buffer@),
            ),
    {
        if children.len() > self.max_internal_children {
            return true;
        }
        writer::internal_page_len(fence, children, separators, buffer, PAGE_SIZE).is_err()
    }

    pub fn should_flush_buffer(&self, buffer: &[BufferedMessage]) -> (r: bool)
        ensures
            r == buffer_flushes(*self, message::messages_view(buffer@)),
    {
        buffer.len() >= self.flush_threshold_messages || node::buffer_encoded_len(buffer)
            >= self.flush_threshold_bytes
    }
}

pub fn leaf_fits_page(fence: &Fence, entries: &[LeafEntry]) -> (r: bool)
    ensures
        r == work::fits_page(
            NodeView::Leaf { fence: fence@, entries: node::entries_view(entries@) },
        ),
{
    writer::leaf_page_len(fence, entries, PAGE_SIZE).is_ok()
}

pub fn internal_fits_page(
    fence: &Fence,
    children: &[u64],
    separators: &[Vec<u8>],
    buffer: &[BufferedMessage],
) -> (r: bool)
    ensures
        r == work::fits_page(
            NodeView::Internal {
                fence: fence@,
                children: children@,
                separators: node::keys_view(separators@),
                buffer: message::messages_view(buffer@),
            },
        ),
{
    writer::internal_page_len(fence, children, separators, buffer, PAGE_SIZE).is_ok()
}

// ---------------------------------------------------------------------------
// What is kept.

/// While there is one tree and leaves may have entries, no page is given up, and
/// the page for the next append is one of the pages.
pub open spec fn kept(
    s: PoolView,
    max: usize,
    hint1: u64,
    hint2: u64,
    before: Set<u64>,
    after: Set<u64>,
) -> bool {
    s.active_roots <= 1 && max > 0 ==> before.subset_of(after) && leaf_work::hint_follows(
        hint1,
        hint2,
        after,
    )
}

/// Work failed: only pages of the tree and new pages were touched.
pub open spec fn failed(s1: PoolView, s2: PoolView, before: Set<u64>) -> bool {
    pool::step(s1, s2, before, Set::<u64>::empty())
}

pub proof fn failed_if(s1: PoolView, s2: PoolView, before: Set<u64>, after: Set<u64>)
    requires
        pool::step(s1, s2, before, after),
    ensures
        failed(s1, s2, before),
{
    pool::step_drop(s1, s2, before, after, after);
    assert(after.difference(after) =~= Set::<u64>::empty());
}

/// Work after work.
pub proof fn outcome_after(
    s1: PoolView,
    s2: PoolView,
    s3: PoolView,
    rw: Rewrite,
    fence: FenceView,
    h: nat,
    before: Set<u64>,
    mid: Set<u64>,
    recs: Set<MessageView>,
    mid_recs: Set<MessageView>,
)
    requires
        pool::step(s1, s2, before, mid),
        leaf_work::outcome(s2, s3, rw, fence, h, mid, mid_recs),
        shape::refine(mid_recs, recs),
    ensures
        leaf_work::outcome(s1, s3, rw, fence, h, before, recs),
{
    let after = shape::forest_pids(leaf_work::kids_of(rw));
    pool::step_trans(s1, s2, s3, before, mid, after);
    shape::refine_trans(shape::forest_recs(leaf_work::kids_of(rw)), mid_recs, recs);
}

// ---------------------------------------------------------------------------
// Leaves.

pub proof fn halves(entries: Seq<EntryView>, fence: FenceView, mid: int)
    requires
        node::sorted_entries(entries),
        node::entries_newest_first(entries),
        shape::entries_inside(fence, entries),
        0 < mid < entries.len(),
    ensures
        ({
            let l = entries.subrange(0, mid);
            let r = entries.subrange(mid, entries.len() as int);
            let sep = entries[mid].key;
            &&& node::sorted_entries(l)
            &&& node::sorted_entries(r)
            &&& node::entries_newest_first(l)
            &&& node::entries_newest_first(r)
            &&& shape::entries_inside(FenceView { lower: fence.lower, upper: Some(sep) }, l)
            &&& shape::entries_inside(FenceView { lower: sep, upper: fence.upper }, r)
            &&& shape::entry_recs(l).union(shape::entry_recs(r)) == shape::entry_recs(entries)
            &&& bytes::lex_lt(fence.lower, sep)
            &&& (fence.upper matches Some(u) ==> bytes::lex_lt(sep, u))
        }),
{
    broadcast use bytes::group_lex;

    let l = entries.subrange(0, mid);
    let r = entries.subrange(mid, entries.len() as int);
    let sep = entries[mid].key;
    assert(node::in_fence(fence, entries[mid].key));
    assert(node::in_fence(fence, entries[0].key));
    assert(bytes::lex_lt(entries[0].key, entries[mid].key));
    assert forall|i: int| 0 <= i < l.len() implies node::in_fence(
        FenceView { lower: fence.lower, upper: Some(sep) },
        (#[trigger] l[i]).key,
    ) by {
        assert(node::in_fence(fence, entries[i].key));
        assert(bytes::lex_lt(entries[i].key, entries[mid].key));
    }
    assert forall|i: int| 0 <= i < r.len() implies node::in_fence(
        FenceView { lower: sep, upper: fence.upper },
        (#[trigger] r[i]).key,
    ) by {
        assert(node::in_fence(fence, entries[mid + i].key));
        if i > 0 {
            assert(bytes::lex_lt(entries[mid].key, entries[mid + i].key));
        }
    }
    assert forall|m: MessageView| #[trigger] shape::entry_recs(entries).contains(m) <==> (
    shape::entry_recs(l).contains(m) || shape::entry_recs(r).contains(m)) by {
        if node::entries_have(entries, m.key, m.version) {
            let i = choose|i: int|
                #![trigger entries[i]]
                0 <= i < entries.len() && entries[i].key == m.key && entries[i].versions.contains(
                    m.version,
                );
            if i < mid {
                assert(l[i] == entries[i]);
            } else {
                assert(r[i - mid] == entries[i]);
            }
        }
        if node::entries_have(l, m.key, m.version) {
            let i = choose|i: int|
                #![trigger l[i]]
                0 <= i < l.len() && l[i].key == m.key && l[i].versions.contains(m.version);
            assert(entries[i] == l[i]);
        }
        if node::entries_have(r, m.key, m.version) {
            let i = choose|i: int|
                #![trigger r[i]]
                0 <= i < r.len() && r[i].key == m.key && r[i].versions.contains(m.version);
            assert(entries[mid + i] == r[i]);
        }
    }
    assert(shape::entry_recs(l).union(shape::entry_recs(r)) =~= shape::entry_recs(entries));
}

/// Two leaves were written, one in place and one on a new page.
proof fn leaf_was_split(
    s1: PoolView,
    s2: PoolView,
    s3: PoolView,
    pid: u64,
    fence: FenceView,
    entries: Seq<EntryView>,
    mid: int,
    rw: Rewrite,
)
    requires
        pool::pool_ok(s1),
        pool::pool_ok(s3),
        0 < pid < s1.pages.len(),
        !pool::is_shared(s1, pid),
        node::sorted_entries(entries),
        node::entries_newest_first(entries),
        shape::entries_inside(fence, entries),
        0 < mid < entries.len(),
        rw is Split,
        rw->separator@ == entries[mid].key,
        ({
            let lf = FenceView { lower: fence.lower, upper: Some(entries[mid].key) };
            let rf = FenceView { lower: entries[mid].key, upper: fence.upper };
            let l = NodeView::Leaf { fence: lf, entries: entries.subrange(0, mid) };
            let r = NodeView::Leaf {
                fence: rf,
                entries: entries.subrange(mid, entries.len() as int),
            };
            &&& work::fits_page(l)
            &&& work::fits_page(r)
            &&& s2 == work::written(s1, pid, l)
            &&& s3 == work::allocated(s2, r)
            &&& rw->left_pid == pid
            &&& rw->right_pid == s2.pages.len()
            &&& rw->left@ == (TreeView::Leaf { pid, fence: lf, entries: entries.subrange(0, mid) })
            &&& rw->right@ == (TreeView::Leaf {
                pid: s2.pages.len() as u64,
                fence: rf,
                entries: entries.subrange(mid, entries.len() as int),
            })
        }),
    ensures
        leaf_work::outcome(s1, s3, rw, fence, 0, work::one(pid), shape::entry_recs(entries)),
        work::one(pid).subset_of(shape::forest_pids(leaf_work::kids_of(rw))),
        shape::forest_pids(leaf_work::kids_of(rw)).contains(rw->right_pid),
{
    halves(entries, fence, mid);
    let l = entries.subrange(0, mid);
    let r = entries.subrange(mid, entries.len() as int);
    let lf = FenceView { lower: fence.lower, upper: Some(entries[mid].key) };
    let rf = FenceView { lower: entries[mid].key, upper: fence.upper };
    let new_pid = s2.pages.len() as u64;
    work::leaf_written(s1, pid, lf, l);
    work::leaf_allocated(s2, rf, r);
    assert(shape::rep_all(s2.pages, seq![rw->left@]));
    shape::forest_of_one(rw->left@);
    work::rep_others(s2, s3, seq![rw->left@], Set::<u64>::empty(), work::one(new_pid));
    assert(shape::rep(s3.pages, seq![rw->left@][0]));
    pool::step_widen(s2, s3, Set::<u64>::empty(), work::one(new_pid), work::one(pid));
    assert(Set::<u64>::empty().union(work::one(pid)) =~= work::one(pid));
    let after = work::one(pid).union(work::one(new_pid));
    assert(work::one(new_pid).union(work::one(pid)) =~= after);
    pool::step_trans(s1, s2, s3, work::one(pid), work::one(pid), after);
    shape::refine_refl(shape::entry_recs(entries));
    leaf_work::outcome_split(
        s1,
        s3,
        rw,
        fence,
        0,
        work::one(pid),
        shape::entry_recs(entries),
    );
}

/// Split a leaf that is too large: the first half of the entries stays on the
/// page, the others go to a new page, which the next append goes to. A leaf with
/// fewer than two entries is moved to a new page as it is.
pub fn split_leaf(
    pool: &mut PagePool,
    config: &CowBeTreeConfig,
    pid: u64,
    fence: &Fence,
    entries: &[LeafEntry],
    hint: &mut u64,
) -> (r: Result<Rewrite, CowBeTreeError>)
    requires
        old(pool).wf(),
        0 < pid < old(pool).view().pages.len(),
        !pool::is_shared(old(pool).view(), pid),
        node::sorted_entries(node::entries_view(entries@)),
        node::entries_newest_first(node::entries_view(entries@)),
        shape::entries_inside(fence@, node::entries_view(entries@)),
        leaf_splits(config.max_leaf_entries, fence@, node::entries_view(entries@)),
    ensures
        final(pool).wf(),
        match r {
            Ok(rw) => {
                &&& leaf_work::outcome(
                    old(pool).view(),
                    final(pool).view(),
                    rw,
                    fence@,
                    0,
                    work::one(pid),
                    shape::entry_recs(node::entries_view(entries@)),
                )
                &&& kept(
                    old(pool).view(),
                    config.max_leaf_entries,
                    *old(hint),
                    *final(hint),
                    work::one(pid),
                    shape::forest_pids(leaf_work::kids_of(rw)),
                )
                &&& rw is Split <==> entries@.len() >= 2
                &&& rw is Split ==> rw->left_pid == pid && rw->separator@
                    == entries@[entries@.len() as int / 2].key@
            },
            Err(_) => failed(old(pool).view(), final(pool).view(), work::one(pid)) && *final(hint)
                == *old(hint),
        },
        course::came_out(
            r,
            course::leaf_written(*config, fence@, node::entries_view(entries@)),
        ),
{
    let ghost s1 = pool.view();
    let ghost es = node::entries_view(entries@);
    proof {
        pool::step_refl(s1, work::one(pid));
        failed_if(s1, s1, work::one(pid), work::one(pid));
    }
    if entries.len() < 2 {
        let new_pid: u64 = work::allocate_leaf(pool, fence, entries)?;
        let rw = Rewrite::One {
            pid: new_pid,
            tree: Ghost(TreeView::Leaf { pid: new_pid, fence: fence@, entries: es }),
        };
        proof {
            let s2 = pool.view();
            work::leaf_allocated(s1, fence@, es);
            pool::step_widen(
                s1,
                s2,
                Set::<u64>::empty(),
                work::one(new_pid),
                work::one(pid),
            );
            let a = Set::<u64>::empty().union(work::one(pid));
            assert(a =~= work::one(pid));
            let b = work::one(new_pid).union(work::one(pid));
            pool::step_drop(s1, s2, a, b, work::one(pid));
            assert(b.difference(work::one(pid)) =~= work::one(new_pid));
            shape::refine_refl(shape::entry_recs(es));
            leaf_work::outcome_one(s1, s2, rw, 0, work::one(pid), shape::entry_recs(es));
            course::out_trees(rw);
        }
        return Ok(rw);
    }
    let mid: usize = entries.len() / 2;
    let separator = bytes::copy_bytes(entries[mid].key.as_slice());
    let left_fence = fence.left_of(bytes::copy_bytes(entries[mid].key.as_slice()));
    let right_fence = fence.right_of(bytes::copy_bytes(entries[mid].key.as_slice()));
    let left = vstd::slice::slice_subrange(entries, 0, mid);
    let right = vstd::slice::slice_subrange(entries, mid, entries.len());
    proof {
        assert(node::entries_view(left@) =~= es.subrange(0, mid as int));
        assert(node::entries_view(right@) =~= es.subrange(mid as int, es.len() as int));
        assert(separator@ == es[mid as int].key);
        halves(es, fence@, mid as int);
        assert(es.take(mid as int) =~= es.subrange(0, mid as int));
        assert(es.skip(mid as int) =~= es.subrange(mid as int, es.len() as int));
    }
    let left_pid: u64 = if leaf_fits_page(&left_fence, left) {
        work::write_leaf_at(pool, pid, &left_fence, left)?;
        pid
    } else {
        work::allocate_leaf(pool, &left_fence, left)?
    };
    let ghost s2 = pool.view();
    let ghost lf = left_fence@;
    proof {
        work::leaf_written(s1, pid, lf, es.subrange(0, mid as int));
        failed_if(s1, s2, work::one(pid), work::one(pid));
    }
    let right_pid: u64 = work::allocate_leaf(pool, &right_fence, right)?;
    let rw = Rewrite::Split {
        left_pid,
        right_pid,
        separator,
        left: Ghost(
            TreeView::Leaf { pid, fence: lf, entries: es.subrange(0, mid as int) },
        ),
        right: Ghost(
            TreeView::Leaf {
                pid: right_pid,
                fence: right_fence@,
                entries: es.subrange(mid as int, es.len() as int),
            },
        ),
    };
    proof {
        leaf_was_split(s1, s2, pool.view(), pid, fence@, es, mid as int, rw);
        course::out_trees(rw);
    }
    *hint = right_pid;
    Ok(rw)
}

/// Apply messages to entries one after another.
pub fn apply_all(entries: &mut Vec<LeafEntry>, batch: &[BufferedMessage])
    requires
        node::sorted_entries(node::entries_view(old(entries)@)),
    ensures
        node::entries_view(final(entries)@) == node::apply_messages(
            node::entries_view(old(entries)@),
            message::messages_view(batch@),
        ),
        node::sorted_entries(node::entries_view(final(entries)@)),
{
    let ghost es = node::entries_view(entries@);
    let ghost ms = message::messages_view(batch@);
    let mut i: usize = 0;
    assert(ms.take(0) =~= Seq::<MessageView>::empty());
    while i < batch.len()
        invariant
            i <= batch@.len(),
            ms == message::messages_view(batch@),
            node::entries_view(entries@) == node::apply_messages(es, ms.take(i as int)),
            node::sorted_entries(node::entries_view(entries@)),
        decreases batch@.len() - i,
    {
        proof {
            let t = ms.take(i + 1);
            assert(t.drop_last() =~= ms.take(i as int));
            assert(t.last() == batch@[i as int]@);
        }
        node::apply_message_to_entries(entries, &batch[i]);
        i += 1;
    }
    assert(ms.take(i as int) =~= ms);
}

/// Apply a batch to a leaf on a page of one's own, and split it if it becomes
/// too large.
pub fn rewrite_leaf_batch(
    pool: &mut PagePool,
    config: &CowBeTreeConfig,
    pid: u64,
    fence: &Fence,
    entries: Vec<LeafEntry>,
    batch: &[BufferedMessage],
    hint: &mut u64,
    Ghost(t): Ghost<TreeView>,
) -> (r: Result<Rewrite, CowBeTreeError>)
    requires
        old(pool).wf(),
        shape::rep(old(pool).view().pages, t),
        shape::wf(t, 0),
        pid == shape::pid_of(t),
        work::own_root(old(pool).view(), t),
        fence@ == shape::fence_of(t),
        t is Leaf,
        node::entries_view(entries@) == t->entries,
        shape::messages_inside(fence@, message::messages_view(batch@)),
    ensures
        final(pool).wf(),
        match r {
            Ok(rw) => {
                &&& leaf_work::outcome(
                    old(pool).view(),
                    final(pool).view(),
                    rw,
                    shape::fence_of(t),
                    0,
                    shape::tree_pids(t),
                    shape::tree_recs(t).union(
                        shape::message_recs(message::messages_view(batch@)),
                    ),
                )
                &&& kept(
                    old(pool).view(),
                    config.max_leaf_entries,
                    *old(hint),
                    *final(hint),
                    shape::tree_pids(t),
                    shape::forest_pids(leaf_work::kids_of(rw)),
                )
                &&& rw is Split ==> rw->left_pid == pid
            },
            Err(_) => failed(old(pool).view(), final(pool).view(), shape::tree_pids(t)),
        },
        course::came_out(
            r,
            course::leaf_written(
                *config,
                fence@,
                node::apply_messages(t->entries, message::messages_view(batch@)),
            ),
        ),
{
    let ghost s1 = pool.view();
    let ghost ms = message::messages_view(batch@);
    let ghost recs = shape::tree_recs(t).union(shape::message_recs(ms));
    let mut entries = entries;
    apply_all(&mut entries, batch);
    let ghost es = node::entries_view(entries@);
    proof {
        shape::apply_messages_refine(t->entries, ms, fence@);
        shape::tree_parts(t);
        assert(shape::tree_pids(t) =~= work::one(pid));
        pool::step_refl(s1, work::one(pid));
        failed_if(s1, s1, work::one(pid), work::one(pid));
    }
    if !config.leaf_should_split(fence, entries.as_slice()) {
        work::write_leaf_at(pool, pid, fence, entries.as_slice())?;
        let rw = Rewrite::One {
            pid,
            tree: Ghost(TreeView::Leaf { pid, fence: fence@, entries: es }),
        };
        proof {
            work::leaf_written(s1, pid, fence@, es);
            leaf_work::outcome_one(s1, pool.view(), rw, 0, work::one(pid), recs);
            course::out_trees(rw);
        }
        return Ok(rw);
    }
    let rw = split_leaf(pool, config, pid, fence, entries.as_slice(), hint)?;
    proof {
        outcome_after(
            s1,
            s1,
            pool.view(),
            rw,
            fence@,
            0,
            work::one(pid),
            work::one(pid),
            recs,
            shape::entry_recs(es),
        );
    }
    Ok(rw)
}

// ---------------------------------------------------------------------------
// Internal nodes.

/// The pages of a node over a forest.
pub open spec fn node_pids(pid: u64, kids: Seq<TreeView>) -> Set<u64> {
    shape::forest_pids(kids).insert(pid)
}

/// The records of a node over a forest.
pub open spec fn node_recs(buffer: Seq<MessageView>, kids: Seq<TreeView>) -> Set<MessageView> {
    shape::message_recs(buffer).union(shape::forest_recs(kids))
}

/// A page of one's own over a forest that stands in the pool.
pub open spec fn over(
    s: PoolView,
    pid: u64,
    fence: FenceView,
    separators: Seq<Seq<u8>>,
    buffer: Seq<MessageView>,
    kids: Seq<TreeView>,
    h: nat,
) -> bool {
    &&& 0 < pid < s.pages.len()
    &&& !pool::is_shared(s, pid)
    &&& shape::forest(fence, separators, kids, h)
    &&& shape::rep_all(s.pages, kids)
    &&& shape::messages_inside(fence, buffer)
    &&& !shape::forest_pids(kids).contains(pid)
}

/// Write a node over a forest; this works if it has a place on the page.
pub fn write_over(
    pool: &mut PagePool,
    pid: u64,
    fence: &Fence,
    children: &[u64],
    separators: &[Vec<u8>],
    buffer: &[BufferedMessage],
    Ghost(kids): Ghost<Seq<TreeView>>,
    Ghost(h): Ghost<nat>,
) -> (r: Result<Rewrite, CowBeTreeError>)
    requires
        old(pool).wf(),
        children@ == shape::pids_of(kids),
        over(
            old(pool).view(),
            pid,
            fence@,
            node::keys_view(separators@),
            message::messages_view(buffer@),
            kids,
            h,
        ),
    ensures
        final(pool).wf(),
        r is Ok <==> work::fits_page(
            NodeView::Internal {
                fence: fence@,
                children: children@,
                separators: node::keys_view(separators@),
                buffer: message::messages_view(buffer@),
            },
        ),
        course::came_out(
            r,
            course::inner_written(
                fence@,
                node::keys_view(separators@),
                message::messages_view(buffer@),
                course::bare_all(kids),
            ),
        ),
        match r {
            Ok(rw) => {
                &&& leaf_work::outcome(
                    old(pool).view(),
                    final(pool).view(),
                    rw,
                    fence@,
                    h + 1,
                    node_pids(pid, kids),
                    node_recs(message::messages_view(buffer@), kids),
                )
                &&& rw is One
                &&& rw->pid == pid
                &&& rw->tree@ == (TreeView::Node {
                    pid,
                    fence: fence@,
                    separators: node::keys_view(separators@),
                    buffer: message::messages_view(buffer@),
                    kids,
                })
                &&& node_pids(pid, kids).subset_of(shape::forest_pids(leaf_work::kids_of(rw)))
                &&& buffer@.len() == 0 && shape::all_unbuffered(kids) ==> shape::all_unbuffered(
                    leaf_work::kids_of(rw),
                )
            },
            Err(_) => final(pool).view() == old(pool).view() && failed(
                old(pool).view(),
                final(pool).view(),
                node_pids(pid, kids),
            ),
        },
{
    let ghost s1 = pool.view();
    let ghost seps = node::keys_view(separators@);
    let ghost ms = message::messages_view(buffer@);
    proof {
        pool::step_refl(s1, node_pids(pid, kids));
        failed_if(s1, s1, node_pids(pid, kids), node_pids(pid, kids));
        course::bare_fits(fence@, seps, ms, kids);
    }
    work::write_internal_at(pool, pid, fence, children, separators, buffer)?;
    let rw = Rewrite::One {
        pid,
        tree: Ghost(
            TreeView::Node { pid, fence: fence@, separators: seps, buffer: ms, kids },
        ),
    };
    proof {
        work::node_written(s1, pid, fence@, seps, ms, kids, h);
        shape::refine_refl(node_recs(ms, kids));
        leaf_work::outcome_one(
            s1,
            pool.view(),
            rw,
            h + 1,
            node_pids(pid, kids),
            node_recs(ms, kids),
        );
        if buffer@.len() == 0 && shape::all_unbuffered(kids) {
            assert(shape::unbuffered(rw->tree@));
        }
        course::out_trees(rw);
        course::bare_node(rw->tree@);
    }
    Ok(rw)
}

/// The messages below a separator, and the others.
proof fn buffer_halves(buffer: Seq<MessageView>, fence: FenceView, sep: Seq<u8>)
    requires
        shape::messages_inside(fence, buffer),
    ensures
        ({
            let l = buffer.filter(|m: MessageView| bytes::lex_lt(m.key, sep));
            let r = buffer.filter(|m: MessageView| !bytes::lex_lt(m.key, sep));
            &&& shape::messages_inside(FenceView { lower: fence.lower, upper: Some(sep) }, l)
            &&& shape::messages_inside(FenceView { lower: sep, upper: fence.upper }, r)
            &&& shape::message_recs(l).union(shape::message_recs(r)) == shape::message_recs(buffer)
        }),
{
    let p = |m: MessageView| bytes::lex_lt(m.key, sep);
    let q = |m: MessageView| !bytes::lex_lt(m.key, sep);
    let l = buffer.filter(p);
    let r = buffer.filter(q);
    batch::filter_has(buffer, p);
    batch::filter_has(buffer, q);
    assert forall|i: int| 0 <= i < l.len() implies node::in_fence(
        FenceView { lower: fence.lower, upper: Some(sep) },
        (#[trigger] l[i]).key,
    ) by {
        assert(l.contains(l[i]));
        let j = choose|j: int| 0 <= j < buffer.len() && buffer[j] == l[i];
        assert(node::in_fence(fence, buffer[j].key));
    }
    assert forall|i: int| 0 <= i < r.len() implies node::in_fence(
        FenceView { lower: sep, upper: fence.upper },
        (#[trigger] r[i]).key,
    ) by {
        assert(r.contains(r[i]));
        let j = choose|j: int| 0 <= j < buffer.len() && buffer[j] == r[i];
        assert(node::in_fence(fence, buffer[j].key));
    }
    assert forall|m: MessageView| #[trigger] shape::message_recs(buffer).contains(m) <==> (
    shape::message_recs(l).contains(m) || shape::message_recs(r).contains(m)) by {
        assert(l.contains(m) <==> buffer.contains(m) && p(m));
        assert(r.contains(m) <==> buffer.contains(m) && q(m));
    }
    assert(shape::message_recs(l).union(shape::message_recs(r)) =~= shape::message_recs(buffer));
}

/// The two halves of a forest, each under its own fence.
proof fn forest_halves(
    fence: FenceView,
    separators: Seq<Seq<u8>>,
    kids: Seq<TreeView>,
    h: nat,
    mid: int,
)
    requires
        shape::forest(fence, separators, kids, h),
        0 < mid < kids.len(),
    ensures
        ({
            let sep = separators[mid - 1];
            let n = kids.len() as int;
            &&& shape::forest(
                FenceView { lower: fence.lower, upper: Some(sep) },
                separators.subrange(0, mid - 1),
                kids.subrange(0, mid),
                h,
            )
            &&& shape::forest(
                FenceView { lower: sep, upper: fence.upper },
                separators.subrange(mid, separators.len() as int),
                kids.subrange(mid, n),
                h,
            )
            &&& shape::forest_pids(kids.subrange(0, mid)).disjoint(
                shape::forest_pids(kids.subrange(mid, n)),
            )
            &&& shape::forest_pids(kids) == shape::forest_pids(kids.subrange(0, mid)).union(
                shape::forest_pids(kids.subrange(mid, n)),
            )
            &&& shape::forest_recs(kids) == shape::forest_recs(kids.subrange(0, mid)).union(
                shape::forest_recs(kids.subrange(mid, n)),
            )
            &&& bytes::lex_lt(fence.lower, sep)
            &&& (fence.upper matches Some(u) ==> bytes::lex_lt(sep, u))
        }),
{
    let n = kids.len() as int;
    let l = kids.subrange(0, mid);
    let r = kids.subrange(mid, n);
    shape::sub_forest(fence, separators, kids, h, 0, mid);
    shape::sub_forest(fence, separators, kids, h, mid, n);
    assert(shape::range_fence(fence, separators, 0, mid) =~= (FenceView {
        lower: fence.lower,
        upper: Some(separators[mid - 1]),
    }));
    assert(shape::range_fence(fence, separators, mid, n) =~= (FenceView {
        lower: separators[mid - 1],
        upper: fence.upper,
    }));
    assert(separators.len() == n - 1);
    assert(l + r =~= kids);
    shape::forest_parts(l, r);
    assert(shape::disjoint_forests(l, r)) by {
        assert forall|i: int, j: int|
            #![trigger l[i], r[j]]
            0 <= i < l.len() && 0 <= j < r.len() implies shape::disjoint_pids(l[i], r[j]) by {
            assert(shape::disjoint_pids(kids[i], kids[mid + j]));
        }
    }
    shape::disjoint_by_pids(l, r);
}

/// Two nodes were written over the halves of a forest, one in place and one on a
/// new page.
proof fn node_was_split(
    s1: PoolView,
    s2: PoolView,
    s3: PoolView,
    pid: u64,
    fence: FenceView,
    separators: Seq<Seq<u8>>,
    buffer: Seq<MessageView>,
    kids: Seq<TreeView>,
    h: nat,
    mid: int,
    rw: Rewrite,
)
    requires
        pool::pool_ok(s1),
        pool::pool_ok(s3),
        over(s1, pid, fence, separators, buffer, kids, h),
        0 < mid < kids.len(),
        rw is Split,
        rw->separator@ == separators[mid - 1],
        ({
            let sep = separators[mid - 1];
            let n = kids.len() as int;
            let lf = FenceView { lower: fence.lower, upper: Some(sep) };
            let rf = FenceView { lower: sep, upper: fence.upper };
            let lb = buffer.filter(|m: MessageView| bytes::lex_lt(m.key, sep));
            let rb = buffer.filter(|m: MessageView| !bytes::lex_lt(m.key, sep));
            let lk = kids.subrange(0, mid);
            let rk = kids.subrange(mid, n);
            let ls = separators.subrange(0, mid - 1);
            let rs = separators.subrange(mid, separators.len() as int);
            let l = NodeView::Internal {
                fence: lf,
                children: shape::pids_of(lk),
                separators: ls,
                buffer: lb,
            };
            let r = NodeView::Internal {
                fence: rf,
                children: shape::pids_of(rk),
                separators: rs,
                buffer: rb,
            };
            &&& work::fits_page(l)
            &&& work::fits_page(r)
            &&& s2 == work::written(s1, pid, l)
            &&& s3 == work::allocated(s2, r)
            &&& rw->left_pid == pid
            &&& rw->right_pid == s2.pages.len()
            &&& rw->left@ == (TreeView::Node {
                pid,
                fence: lf,
                separators: ls,
                buffer: lb,
                kids: lk,
            })
            &&& rw->right@ == (TreeView::Node {
                pid: s2.pages.len() as u64,
                fence: rf,
                separators: rs,
                buffer: rb,
                kids: rk,
            })
        }),
    ensures
        leaf_work::outcome(
            s1,
            s3,
            rw,
            fence,
            h + 1,
            node_pids(pid, kids),
            node_recs(buffer, kids),
        ),
        node_pids(pid, kids).subset_of(shape::forest_pids(leaf_work::kids_of(rw))),
{
    let sep = separators[mid - 1];
    let n = kids.len() as int;
    let lf = FenceView { lower: fence.lower, upper: Some(sep) };
    let rf = FenceView { lower: sep, upper: fence.upper };
    let lb = buffer.filter(|m: MessageView| bytes::lex_lt(m.key, sep));
    let rb = buffer.filter(|m: MessageView| !bytes::lex_lt(m.key, sep));
    let lk = kids.subrange(0, mid);
    let rk = kids.subrange(mid, n);
    let ls = separators.subrange(0, mid - 1);
    let rs = separators.subrange(mid, separators.len() as int);
    let new_pid = s2.pages.len() as u64;
    buffer_halves(buffer, fence, sep);
    forest_halves(fence, separators, kids, h, mid);
    let lp = shape::forest_pids(lk);
    let rp = shape::forest_pids(rk);
    let all = node_pids(pid, kids);
    assert forall|i: int| 0 <= i < lk.len() implies shape::rep(s1.pages, #[trigger] lk[i]) by {
        assert(shape::rep(s1.pages, kids[i]));
    }
    assert forall|i: int| 0 <= i < rk.len() implies shape::rep(s1.pages, #[trigger] rk[i]) by {
        assert(shape::rep(s1.pages, kids[mid + i]));
    }
    work::node_written(s1, pid, lf, ls, lb, lk, h);
    let lt = shape::tree_pids(rw->left@);
    assert(lt =~= lp.insert(pid));
    assert(lt.disjoint(rp));
    work::rep_others(s1, s2, rk, lt, lt);
    work::node_allocated(s2, rf, rs, rb, rk, h);
    let rt = shape::tree_pids(rw->right@);
    assert(rt =~= rp.insert(new_pid));
    assert forall|p: u64| #[trigger] lt.contains(p) implies p < s2.pages.len() by {
        if lp.contains(p) {
            work::pid_in_bounds(s1.pages, lk, p);
        }
    }
    assert(lt.disjoint(rt));
    shape::forest_of_one(rw->left@);
    assert(shape::rep_all(s2.pages, seq![rw->left@]));
    work::rep_others(s2, s3, seq![rw->left@], rp, rt);
    assert(shape::rep(s3.pages, seq![rw->left@][0]));
    pool::step_widen(s1, s2, lt, lt, rp);
    assert(lt.union(rp) =~= all);
    pool::step_widen(s2, s3, rp, rt, lt);
    assert(rp.union(lt) =~= all);
    assert(rt.union(lt) =~= lt.union(rt));
    pool::step_trans(s1, s2, s3, all, all, lt.union(rt));
    let recs = node_recs(buffer, kids);
    assert(shape::tree_recs(rw->left@).union(shape::tree_recs(rw->right@)) =~= recs);
    shape::refine_refl(recs);
    leaf_work::outcome_split(s1, s3, rw, fence, h + 1, all, recs);
    assert(all.subset_of(lt.union(rt)));
}

proof fn split_unbuffered(kids: Seq<TreeView>, mid: int, l: TreeView, r: TreeView)
    requires
        shape::all_unbuffered(kids),
        0 <= mid <= kids.len(),
        l is Node,
        r is Node,
        l->buffer.len() == 0,
        r->buffer.len() == 0,
        l->kids == kids.subrange(0, mid),
        r->kids == kids.subrange(mid, kids.len() as int),
    ensures
        shape::unbuffered(l),
        shape::unbuffered(r),
{
    let lk = l->kids;
    let rk = r->kids;
    assert forall|i: int| 0 <= i < lk.len() implies shape::unbuffered(#[trigger] lk[i]) by {
        assert(shape::unbuffered(kids[i]));
    }
    assert forall|i: int| 0 <= i < rk.len() implies shape::unbuffered(#[trigger] rk[i]) by {
        assert(shape::unbuffered(kids[mid + i]));
    }
}

/// Split a node over a forest: the first half of the children stays under the
/// page, the others go under a new page, and the buffer is dealt out.
pub fn split_internal(
    pool: &mut PagePool,
    pid: u64,
    fence: &Fence,
    children: &[u64],
    separators: &[Vec<u8>],
    buffer: &[BufferedMessage],
    Ghost(kids): Ghost<Seq<TreeView>>,
    Ghost(h): Ghost<nat>,
) -> (r: Result<Rewrite, CowBeTreeError>)
    requires
        old(pool).wf(),
        children@ == shape::pids_of(kids),
        over(
            old(pool).view(),
            pid,
            fence@,
            node::keys_view(separators@),
            message::messages_view(buffer@),
            kids,
            h,
        ),
    ensures
        final(pool).wf(),
        children@.len() < 2 ==> r is Err && r->Err_0 == CowBeTreeError::EmptyInternalPage
            && final(pool).view() == old(pool).view(),
        match r {
            Ok(rw) => {
                &&& leaf_work::outcome(
                    old(pool).view(),
                    final(pool).view(),
                    rw,
                    fence@,
                    h + 1,
                    node_pids(pid, kids),
                    node_recs(message::messages_view(buffer@), kids),
                )
                &&& rw is Split
                &&& rw->left_pid == pid
                &&& rw->separator@ == separators@[children@.len() as int / 2 - 1]@
                &&& node_pids(pid, kids).subset_of(shape::forest_pids(leaf_work::kids_of(rw)))
                &&& rw->left@ is Node
                &&& rw->right@ is Node
                &&& rw->left@->kids == kids.subrange(0, kids.len() as int / 2)
                &&& rw->right@->kids == kids.subrange(kids.len() as int / 2, kids.len() as int)
                &&& buffer@.len() == 0 ==> rw->left@->buffer.len() == 0
                    && rw->right@->buffer.len() == 0
            },
            Err(_) => failed(old(pool).view(), final(pool).view(), node_pids(pid, kids)),
        },
        course::came_out(
            r,
            course::inner_split(
                fence@,
                node::keys_view(separators@),
                message::messages_view(buffer@),
                course::bare_all(kids),
            ),
        ),
{
    let ghost s1 = pool.view();
    let ghost seps = node::keys_view(separators@);
    let ghost ms = message::messages_view(buffer@);
    let ghost all = node_pids(pid, kids);
    proof {
        pool::step_refl(s1, all);
        failed_if(s1, s1, all, all);
    }
    if children.len() < 2 {
        return Err(CowBeTreeError::EmptyInternalPage);
    }
    let mid: usize = children.len() / 2;
    let sep = bytes::copy_bytes(separators[mid - 1].as_slice());
    let left_fence = fence.left_of(bytes::copy_bytes(separators[mid - 1].as_slice()));
    let right_fence = fence.right_of(bytes::copy_bytes(separators[mid - 1].as_slice()));
    let (left_buffer, right_buffer) = batch::partition_messages(buffer, sep.as_slice());
    let ghost lb = message::messages_view(left_buffer@);
    let ghost rb = message::messages_view(right_buffer@);
    assert(ms.len() == 0 ==> lb.len() == 0 && rb.len() == 0) by {
        batch::filter_has(ms, |m: MessageView| bytes::lex_lt(m.key, sep@));
        batch::filter_has(ms, |m: MessageView| !bytes::lex_lt(m.key, sep@));
    }
    let ghost lk = kids.subrange(0, mid as int);
    let ghost rk = kids.subrange(mid as int, kids.len() as int);
    let left_children = vstd::slice::slice_subrange(children, 0, mid);
    let right_children = vstd::slice::slice_subrange(children, mid, children.len());
    let left_separators = vstd::slice::slice_subrange(separators, 0, mid - 1);
    let right_separators = vstd::slice::slice_subrange(separators, mid, separators.len());
    let ghost ls = seps.subrange(0, mid - 1);
    let ghost rs = seps.subrange(mid as int, seps.len() as int);
    proof {
        assert(left_children@ =~= shape::pids_of(lk));
        assert(right_children@ =~= shape::pids_of(rk));
        assert(node::keys_view(left_separators@) =~= ls);
        assert(node::keys_view(right_separators@) =~= rs);
        assert(sep@ == seps[mid - 1]);
        buffer_halves(ms, fence@, sep@);
        let bk = course::bare_all(kids);
        assert(course::bare_all(lk) =~= bk.subrange(0, mid as int));
        assert(course::bare_all(rk) =~= bk.subrange(mid as int, bk.len() as int));
        course::bare_fits(left_fence@, ls, lb, lk);
        course::bare_fits(right_fence@, rs, rb, rk);
        forest_halves(fence@, seps, kids, h, mid as int);
        assert forall|i: int| 0 <= i < lk.len() implies shape::rep(s1.pages, #[trigger] lk[i]) by {
            assert(shape::rep(s1.pages, kids[i]));
        }
    }
    work::write_internal_at(
        pool,
        pid,
        &left_fence,
        left_children,
        left_separators,
        left_buffer.as_slice(),
    )?;
    let ghost s2 = pool.view();
    proof {
        work::node_written(s1, pid, left_fence@, ls, lb, lk, h);
        let lt = shape::forest_pids(lk).insert(pid);
        pool::step_widen(s1, s2, lt, lt, shape::forest_pids(rk));
        assert(lt.union(shape::forest_pids(rk)) =~= all);
        failed_if(s1, s2, all, all);
    }
    let right_pid: u64 = work::allocate_internal(
        pool,
        &right_fence,
        right_children,
        right_separators,
        right_buffer.as_slice(),
    )?;
    let rw = Rewrite::Split {
        left_pid: pid,
        right_pid,
        separator: sep,
        left: Ghost(
            TreeView::Node { pid, fence: left_fence@, separators: ls, buffer: lb, kids: lk },
        ),
        right: Ghost(
            TreeView::Node {
                pid: right_pid,
                fence: right_fence@,
                separators: rs,
                buffer: rb,
                kids: rk,
            },
        ),
    };
    proof {
        node_was_split(s1, s2, pool.view(), pid, fence@, seps, ms, kids, h, mid as int, rw);
        course::out_trees(rw);
        course::bare_node(rw->left@);
        course::bare_node(rw->right@);
    }
    Ok(rw)
}

/// Write a node over a forest, and split it if it is too large.
#[verifier::rlimit(60)]
#[verifier::spinoff_prover]
pub fn rewrite_internal_preserving_buffer(
    pool: &mut PagePool,
    config: &CowBeTreeConfig,
    pid: u64,
    fence: &Fence,
    children: &[u64],
    separators: &[Vec<u8>],
    buffer: &[BufferedMessage],
    Ghost(kids): Ghost<Seq<TreeView>>,
    Ghost(h): Ghost<nat>,
) -> (r: Result<Rewrite, CowBeTreeError>)
    requires
        old(pool).wf(),
        children@ == shape::pids_of(kids),
        over(
            old(pool).view(),
            pid,
            fence@,
            node::keys_view(separators@),
            message::messages_view(buffer@),
            kids,
            h,
        ),
    ensures
        final(pool).wf(),
        ({
            let splits = internal_splits(
                config.max_internal_children,
                fence@,
                children@,
                node::keys_view(separators@),
                message::messages_view(buffer@),
            );
            match r {
                Ok(rw) => {
                    &&& leaf_work::outcome(
                        old(pool).view(),
                        final(pool).view(),
                        rw,
                        fence@,
                        h + 1,
                        node_pids(pid, kids),
                        node_recs(message::messages_view(buffer@), kids),
                    )
                    &&& splits <==> rw is Split
                    &&& rw is Split ==> rw->left_pid == pid
                    &&& rw matches Rewrite::One { pid: p, tree } ==> p == pid && tree@ == (
                    TreeView::Node {
                        pid,
                        fence: fence@,
                        separators: node::keys_view(separators@),
                        buffer: message::messages_view(buffer@),
                        kids,
                    })
                    &&& node_pids(pid, kids).subset_of(shape::forest_pids(leaf_work::kids_of(rw)))
                    &&& buffer@.len() == 0 && shape::all_unbuffered(kids) ==> shape::all_unbuffered(
                        leaf_work::kids_of(rw),
                    )
                },
                Err(_) => splits && failed(
                    old(pool).view(),
                    final(pool).view(),
                    node_pids(pid, kids),
                ),
            }
        }),
        course::came_out(
            r,
            course::inner_rewritten(
                *config,
                fence@,
                node::keys_view(separators@),
                message::messages_view(buffer@),
                course::bare_all(kids),
            ),
        ),
{
    proof {
        course::bare_fits(
            fence@,
            node::keys_view(separators@),
            message::messages_view(buffer@),
            kids,
        );
    }
    if config.internal_should_split(fence, children, separators, buffer) {
        let rw = split_internal(
            pool,
            pid,
            fence,
            children,
            separators,
            buffer,
            Ghost(kids),
            Ghost(h),
        )?;
        proof {
            if buffer@.len() == 0 && shape::all_unbuffered(kids) {
                split_unbuffered(kids, kids.len() as int / 2, rw->left@, rw->right@);
            }
        }
        return Ok(rw);
    }
    write_over(pool, pid, fence, children, separators, buffer, Ghost(kids), Ghost(h))
}

/// Write a node with an empty buffer over a forest, and split it if it is too
/// large.
pub fn rewrite_internal_empty_buffer(
    pool: &mut PagePool,
    config: &CowBeTreeConfig,
    pid: u64,
    fence: &Fence,
    children: &[u64],
    separators: &[Vec<u8>],
    Ghost(kids): Ghost<Seq<TreeView>>,
    Ghost(h): Ghost<nat>,
) -> (r: Result<Rewrite, CowBeTreeError>)
    requires
        old(pool).wf(),
        children@ == shape::pids_of(kids),
        over(
            old(pool).view(),
            pid,
            fence@,
            node::keys_view(separators@),
            Seq::empty(),
            kids,
            h,
        ),
    ensures
        final(pool).wf(),
        ({
            let splits = internal_splits(
                config.max_internal_children,
                fence@,
                children@,
                node::keys_view(separators@),
                Seq::empty(),
            );
            match r {
                Ok(rw) => {
                    &&& leaf_work::outcome(
                        old(pool).view(),
                        final(pool).view(),
                        rw,
                        fence@,
                        h + 1,
                        node_pids(pid, kids),
                        shape::forest_recs(kids),
                    )
                    &&& splits <==> rw is Split
                    &&& rw is Split ==> rw->left_pid == pid
                    &&& rw matches Rewrite::One { pid: p, tree } ==> p == pid && tree@ == (
                    TreeView::Node {
                        pid,
                        fence: fence@,
                        separators: node::keys_view(separators@),
                        buffer: Seq::empty(),
                        kids,
                    })
                    &&& node_pids(pid, kids).subset_of(shape::forest_pids(leaf_work::kids_of(rw)))
                    &&& shape::all_unbuffered(kids) ==> shape::all_unbuffered(
                        leaf_work::kids_of(rw),
                    )
                },
                Err(_) => splits && failed(
                    old(pool).view(),
                    final(pool).view(),
                    node_pids(pid, kids),
                ),
            }
        }),
        course::came_out(
            r,
            course::inner_rewritten(
                *config,
                fence@,
                node::keys_view(separators@),
                Seq::empty(),
                course::bare_all(kids),
            ),
        ),
{
    let buffer: Vec<BufferedMessage> = Vec::new();
    proof {
        assert(message::messages_view(buffer@) =~= Seq::<MessageView>::empty());
        assert(node_recs(Seq::empty(), kids) =~= shape::forest_recs(kids));
    }
    rewrite_internal_preserving_buffer(
        pool,
        config,
        pid,
        fence,
        children,
        separators,
        buffer.as_slice(),
        Ghost(kids),
        Ghost(h),
    )
}

} // verus!
