//! Flushing: messages move from the buffer of a node to its children.
use vstd::prelude::*;

use crate::betree::append;
use crate::betree::batch;
use crate::betree::config::CowBeTreeConfig;
use crate::betree::course;
use crate::betree::layout;
use crate::betree::leaf_append;
use crate::betree::leaf_work;
use crate::betree::leaf_work::Rewrite;
use crate::betree::message;
use crate::betree::message::{BufferedMessage, MessageView};
use crate::betree::node;
use crate::betree::node::{CowBeTreeError, Fence, FenceView, NodePage};
use crate::betree::pool;
use crate::betree::pool::{PagePool, PoolView};
use crate::betree::rewrite;
use crate::betree::shape;
use crate::betree::shape::TreeView;
use crate::betree::takes;
use crate::betree::work;
use crate::bytes;
use crate::page_id::PAGE_SIZE;

verus! {

// ---------------------------------------------------------------------------
// Work on the children of a node.

/// Work on the trees `kids1` of a forest came out well: they became `kids2`, and
/// hold `recs`, up to records with the same key and timestamp.
pub open spec fn forest_done(
    s1: PoolView,
    s2: PoolView,
    fence: FenceView,
    h: nat,
    kids1: Seq<TreeView>,
    seps2: Seq<Seq<u8>>,
    kids2: Seq<TreeView>,
    recs: Set<MessageView>,
) -> bool {
    &&& shape::forest(fence, seps2, kids2, h)
    &&& shape::rep_all(s2.pages, kids2)
    &&& pool::step(s1, s2, shape::forest_pids(kids1), shape::forest_pids(kids2))
    &&& shape::refine(shape::forest_recs(kids2), recs)
}

pub proof fn forest_start(
    s: PoolView,
    fence: FenceView,
    h: nat,
    separators: Seq<Seq<u8>>,
    kids: Seq<TreeView>,
)
    requires
        pool::pool_ok(s),
        shape::forest(fence, separators, kids, h),
        shape::rep_all(s.pages, kids),
    ensures
        forest_done(s, s, fence, h, kids, separators, kids, shape::forest_recs(kids)),
{
    pool::step_refl(s, shape::forest_pids(kids));
    shape::refine_refl(shape::forest_recs(kids));
}

/// Work on one more tree of a forest came out well.
pub proof fn forest_more(
    s0: PoolView,
    s1: PoolView,
    s2: PoolView,
    fence: FenceView,
    h: nat,
    kids0: Seq<TreeView>,
    separators: Seq<Seq<u8>>,
    kids: Seq<TreeView>,
    recs: Set<MessageView>,
    i: int,
    rw: Rewrite,
    more: Set<MessageView>,
)
    requires
        forest_done(s0, s1, fence, h, kids0, separators, kids, recs),
        0 <= i < kids.len(),
        leaf_work::outcome(
            s1,
            s2,
            rw,
            shape::fence_of(kids[i]),
            h,
            shape::tree_pids(kids[i]),
            shape::tree_recs(kids[i]).union(more),
        ),
    ensures
        ({
            let seps2 = shape::spliced_separators(
                separators,
                i,
                i + 1,
                leaf_work::separators_of(rw),
            );
            let kids2 = shape::spliced_kids(kids, i, i + 1, leaf_work::kids_of(rw));
            let after = shape::forest_pids(leaf_work::kids_of(rw));
            &&& forest_done(s0, s2, fence, h, kids0, seps2, kids2, recs.union(more))
            &&& after.subset_of(shape::forest_pids(kids2))
            &&& (shape::tree_pids(kids[i]).subset_of(after) ==> shape::forest_pids(
                kids,
            ).subset_of(shape::forest_pids(kids2)))
            &&& shape::pids_of(kids2) == shape::pids_of(kids).take(i) + rewrite_pids(rw)
                + shape::pids_of(kids).skip(i + 1)
        }),
{
    let kids2 = shape::spliced_kids(kids, i, i + 1, leaf_work::kids_of(rw));
    leaf_work::replace_child(s1, s2, fence, separators, kids, h, i, rw, more);
    pool::step_trans(
        s0,
        s1,
        s2,
        shape::forest_pids(kids0),
        shape::forest_pids(kids),
        shape::forest_pids(kids2),
    );
    shape::refine_refl(more);
    shape::refine_union(shape::forest_recs(kids), recs, more, more);
    shape::refine_trans(
        shape::forest_recs(kids2),
        shape::forest_recs(kids).union(more),
        recs.union(more),
    );
    assert(shape::pids_of(kids2) =~= shape::pids_of(kids).take(i) + rewrite_pids(rw)
        + shape::pids_of(kids).skip(i + 1));
}

/// Work on one more tree of a forest failed.
pub proof fn forest_fails(
    s0: PoolView,
    s1: PoolView,
    s2: PoolView,
    fence: FenceView,
    h: nat,
    kids0: Seq<TreeView>,
    separators: Seq<Seq<u8>>,
    kids: Seq<TreeView>,
    recs: Set<MessageView>,
    i: int,
)
    requires
        forest_done(s0, s1, fence, h, kids0, separators, kids, recs),
        0 <= i < kids.len(),
        rewrite::failed(s1, s2, shape::tree_pids(kids[i])),
    ensures
        rewrite::failed(s0, s2, shape::forest_pids(kids0)),
{
    let all = shape::forest_pids(kids);
    let a = shape::tree_pids(kids[i]);
    let none = Set::<u64>::empty();
    pool::step_drop(s1, s2, a, none, all);
    assert(a.union(all) =~= all) by {
        assert forall|p: u64| #[trigger] a.contains(p) implies all.contains(p) by {
            assert(shape::has_pid(kids[i], p));
        }
    }
    assert(none.difference(all) =~= none);
    pool::step_trans(s0, s1, s2, shape::forest_pids(kids0), all, none);
}

/// The page ids that stand for a rewrite among the children of a node.
pub open spec fn rewrite_pids(rw: Rewrite) -> Seq<u64> {
    match rw {
        Rewrite::One { pid, .. } => seq![pid],
        Rewrite::Split { left_pid, right_pid, .. } => seq![left_pid, right_pid],
    }
}

/// Put what became of a child in its place among the children of a node; how
/// many children were added.
pub fn install_child_rewrite(
    children: &mut Vec<u64>,
    separators: &mut Vec<Vec<u8>>,
    child_idx: usize,
    rw: Rewrite,
) -> (r: Result<usize, CowBeTreeError>)
    requires
        old(children)@.len() == old(separators)@.len() + 1,
    ensures
        final(children)@.len() == final(separators)@.len() + 1,
        if child_idx >= old(children)@.len() {
            &&& r is Err
            &&& r->Err_0 == CowBeTreeError::CorruptPage("child index out of bounds")
            &&& final(children)@ == old(children)@
            &&& final(separators)@ == old(separators)@
        } else {
            &&& r is Ok
            &&& r->Ok_0 == rewrite_pids(rw).len() - 1
            &&& final(children)@ == old(children)@.take(child_idx as int) + rewrite_pids(rw)
                + old(children)@.skip(child_idx + 1)
            &&& node::keys_view(final(separators)@) == shape::spliced_separators(
                node::keys_view(old(separators)@),
                child_idx as int,
                child_idx + 1,
                leaf_work::separators_of(rw),
            )
        },
{
    if child_idx >= children.len() {
        return Err(CowBeTreeError::CorruptPage("child index out of bounds"));
    }
    let ghost c0 = children@;
    let ghost s0 = node::keys_view(separators@);
    match rw {
        Rewrite::One { pid, .. } => {
            children.set(child_idx, pid);
            assert(children@ =~= c0.take(child_idx as int) + seq![pid] + c0.skip(child_idx + 1));
            assert(node::keys_view(separators@) =~= s0.take(child_idx as int) + Seq::<
                Seq<u8>,
            >::empty() + s0.skip(child_idx as int));
            Ok(0)
        },
        Rewrite::Split { left_pid, right_pid, separator, .. } => {
            let ghost sep = separator@;
            children.set(child_idx, left_pid);
            children.insert(child_idx + 1, right_pid);
            separators.insert(child_idx, separator);
            assert(children@ =~= c0.take(child_idx as int) + seq![left_pid, right_pid] + c0.skip(
                child_idx + 1,
            ));
            assert(node::keys_view(separators@) =~= s0.take(child_idx as int) + seq![sep]
                + s0.skip(child_idx as int));
            Ok(1)
        },
    }
}

/// A tree as it is.
pub proof fn outcome_same(s: PoolView, rw: Rewrite, h: nat)
    requires
        pool::pool_ok(s),
        rw is One,
        rw->pid == shape::pid_of(rw->tree@),
        shape::wf(rw->tree@, h),
        shape::rep(s.pages, rw->tree@),
    ensures
        leaf_work::outcome(
            s,
            s,
            rw,
            shape::fence_of(rw->tree@),
            h,
            shape::tree_pids(rw->tree@),
            shape::tree_recs(rw->tree@),
        ),
        shape::forest_pids(leaf_work::kids_of(rw)) == shape::tree_pids(rw->tree@),
{
    let t = rw->tree@;
    pool::step_refl(s, shape::tree_pids(t));
    shape::refine_refl(shape::tree_recs(t));
    leaf_work::outcome_one(s, s, rw, h, shape::tree_pids(t), shape::tree_recs(t));
}

/// A page beside a forest is still beside it after work on the forest.
pub proof fn still_over(
    s1: PoolView,
    s2: PoolView,
    pid: u64,
    fence: FenceView,
    h: nat,
    kids1: Seq<TreeView>,
    seps2: Seq<Seq<u8>>,
    kids2: Seq<TreeView>,
    recs: Set<MessageView>,
    buffer: Seq<MessageView>,
)
    requires
        forest_done(s1, s2, fence, h, kids1, seps2, kids2, recs),
        0 < pid < s1.pages.len(),
        !shape::forest_pids(kids1).contains(pid),
        shape::messages_inside(fence, buffer),
    ensures
        !pool::is_shared(s1, pid) ==> rewrite::over(s2, pid, fence, seps2, buffer, kids2, h),
        !shape::forest_pids(kids2).contains(pid),
        s2.pages[pid as int] == s1.pages[pid as int],
        pool::step(
            s1,
            s2,
            rewrite::node_pids(pid, kids1),
            rewrite::node_pids(pid, kids2),
        ),
{
    let a = shape::forest_pids(kids1);
    let b = shape::forest_pids(kids2);
    assert(pool::owners(s2, pid) == pool::owners(s1, pid));
    pool::step_widen(s1, s2, a, b, work::one(pid));
    assert(a.union(work::one(pid)) =~= rewrite::node_pids(pid, kids1));
    assert(b.union(work::one(pid)) =~= rewrite::node_pids(pid, kids2));
}

/// Work on a node over a forest is work on the tree they are.
pub proof fn node_is_tree(t: TreeView)
    requires
        t is Node,
    ensures
        shape::tree_pids(t) == rewrite::node_pids(shape::pid_of(t), t->kids),
        shape::tree_recs(t) == rewrite::node_recs(t->buffer, t->kids),
{
    shape::tree_parts(t);
}

/// The keys of the messages do not descend.
pub open spec fn keys_ascend(ms: Seq<MessageView>) -> bool {
    forall|i: int, j: int|
        #![trigger ms[i], ms[j]]
        0 <= i <= j < ms.len() ==> !bytes::lex_lt(ms[j].key, ms[i].key)
}

/// Ascending keys whose ends are routed to one child are all routed to it.
proof fn routed_together(fence: FenceView, separators: Seq<Seq<u8>>, ms: Seq<MessageView>)
    requires
        node::sorted_keys(separators),
        shape::messages_inside(fence, ms),
        keys_ascend(ms),
        ms.len() > 0,
        node::route(separators, ms[0].key) == node::route(separators, ms[ms.len() - 1].key),
    ensures
        shape::messages_inside(
            shape::child_fence(fence, separators, node::route(separators, ms[0].key) as int),
            ms,
        ),
{
    broadcast use bytes::group_lex;

    let r = node::route(separators, ms[0].key) as int;
    let n = ms.len() - 1;
    shape::route_to_child(fence, separators, ms[0].key);
    assert(node::in_fence(fence, ms[0].key));
    assert(node::in_fence(fence, ms[n].key));
    shape::route_to_child(fence, separators, ms[n].key);
    let f = shape::child_fence(fence, separators, r);
    assert forall|i: int| 0 <= i < ms.len() implies node::in_fence(f, (#[trigger] ms[i]).key) by {
        assert(!bytes::lex_lt(ms[i].key, ms[0].key));
        assert(!bytes::lex_lt(ms[n].key, ms[i].key));
        assert(node::in_fence(fence, ms[i].key));
    }
}

// ---------------------------------------------------------------------------
// Flushing a batch past buffers.

/// Apply a batch, in order of keys, to the one leaf that all of it belongs to;
/// nothing is done if it belongs to several.
pub fn try_flush_batch_direct_to_leaf(
    pool: &mut PagePool,
    config: &CowBeTreeConfig,
    pid: u64,
    batch: &[BufferedMessage],
    hint: &mut u64,
    Ghost(t): Ghost<TreeView>,
    Ghost(h): Ghost<nat>,
) -> (r: Result<Option<Rewrite>, CowBeTreeError>)
    requires
        old(pool).wf(),
        shape::rep(old(pool).view().pages, t),
        shape::wf(t, h),
        pid == shape::pid_of(t),
        shape::messages_inside(shape::fence_of(t), message::messages_view(batch@)),
        keys_ascend(message::messages_view(batch@)),
    ensures
        final(pool).wf(),
        ({
            let s1 = old(pool).view();
            let s2 = final(pool).view();
            match r {
                Ok(Some(rw)) => {
                    &&& leaf_work::outcome(
                        s1,
                        s2,
                        rw,
                        shape::fence_of(t),
                        h,
                        shape::tree_pids(t),
                        shape::tree_recs(t).union(
                            shape::message_recs(message::messages_view(batch@)),
                        ),
                    )
                    &&& rewrite::kept(
                        s1,
                        config.max_leaf_entries,
                        *old(hint),
                        *final(hint),
                        shape::tree_pids(t),
                        shape::forest_pids(leaf_work::kids_of(rw)),
                    )
                },
                Ok(None) => s2 == s1 && *final(hint) == *old(hint) && t is Node,
                Err(_) => rewrite::failed(s1, s2, shape::tree_pids(t)),
            }
        }),
        match course::direct(*config, course::bare(t), message::messages_view(batch@)) {
            Ok(Some(o)) => r is Ok && r->Ok_0 is Some && course::out_of(r->Ok_0->0) == o,
            Ok(None) => r is Ok && r->Ok_0 is None,
            Err(e) => r is Err && r->Err_0 == e,
        },
    decreases h,
{
    proof {
        course::bare_node(t);
    }
    let ghost s1 = pool.view();
    let ghost ms = message::messages_view(batch@);
    let ghost all = shape::tree_pids(t);
    let ghost recs = shape::tree_recs(t).union(shape::message_recs(ms));
    if batch.len() == 0 {
        let rw = Rewrite::One { pid, tree: Ghost(t) };
        proof {
            outcome_same(s1, rw, h);
            assert(shape::message_recs(ms) =~= Set::<MessageView>::empty());
            assert(recs =~= shape::tree_recs(t));
            course::out_trees(rw);
        }
        return Ok(Some(rw));
    }
    proof {
        pool::step_refl(s1, all);
        rewrite::failed_if(s1, s1, all, all);
    }
    let count: usize = batch.len();
    match pool.read_node(pid)? {
        NodePage::Leaf { fence, entries } => {
            let own: u64 = work::ensure_mutable(pool, pid, Ghost(t), Ghost(h))?;
            let ghost s2 = pool.view();
            let ghost t2 = work::with_pid(t, own);
            let result = rewrite::rewrite_leaf_batch(
                pool,
                config,
                own,
                &fence,
                entries,
                batch,
                hint,
                Ghost(t2),
            );
            match result {
                Ok(rw) => {
                    proof {
                        shape::refine_refl(recs);
                        rewrite::outcome_after(
                            s1,
                            s2,
                            pool.view(),
                            rw,
                            shape::fence_of(t),
                            h,
                            all,
                            shape::tree_pids(t2),
                            recs,
                            recs,
                        );
                    }
                    Ok(Some(rw))
                },
                Err(e) => {
                    proof {
                        pool::step_trans(
                            s1,
                            s2,
                            pool.view(),
                            all,
                            shape::tree_pids(t2),
                            Set::<u64>::empty(),
                        );
                    }
                    Err(e)
                },
            }
        },
        NodePage::Internal { fence, children, separators, buffer } => {
            let mut children = children;
            let mut separators = separators;
            let ghost kids = t->kids;
            let ghost seps = t->separators;
            let ghost buf = t->buffer;
            let ghost kh = (h - 1) as nat;
            let first_idx: usize = node::route_child(
                separators.as_slice(),
                batch[0].key.as_slice(),
            );
            let last_idx: usize = node::route_child(
                separators.as_slice(),
                batch[count - 1].key.as_slice(),
            );
            if first_idx != last_idx {
                return Ok(None);
            }
            if first_idx >= children.len() {
                return Err(CowBeTreeError::CorruptPage("direct flush routed outside child array"));
            }
            proof {
                shape::wf_node(t, h);
                node_is_tree(t);
                assert(ms[0] == batch@[0]@);
                assert(ms[count - 1] == batch@[count - 1]@);
                routed_together(fence@, seps, ms);
                assert(shape::rep(s1.pages, kids[first_idx as int]));
                forest_start(s1, fence@, kh, seps, kids);
                assert(children@[first_idx as int] == shape::pid_of(kids[first_idx as int]));
            }
            let result = try_flush_batch_direct_to_leaf(
                pool,
                config,
                children[first_idx],
                batch,
                hint,
                Ghost(kids[first_idx as int]),
                Ghost(kh),
            );
            let ghost s2 = pool.view();
            let child_rewrite = match result {
                Ok(Some(child_rewrite)) => child_rewrite,
                Ok(None) => {
                    return Ok(None);
                },
                Err(e) => {
                    proof {
                        forest_fails(
                            s1,
                            s1,
                            s2,
                            fence@,
                            kh,
                            kids,
                            seps,
                            kids,
                            shape::forest_recs(kids),
                            first_idx as int,
                        );
                        failed_child_fails_node(s1, s2, pid, kids);
                    }
                    return Err(e);
                },
            };
            let ghost kids2 = shape::spliced_kids(
                kids,
                first_idx as int,
                first_idx + 1,
                leaf_work::kids_of(child_rewrite),
            );
            let ghost seps2 = shape::spliced_separators(
                seps,
                first_idx as int,
                first_idx + 1,
                leaf_work::separators_of(child_rewrite),
            );
            let ghost recs2 = shape::forest_recs(kids).union(shape::message_recs(ms));
            proof {
                forest_more(
                    s1,
                    s1,
                    s2,
                    fence@,
                    kh,
                    kids,
                    seps,
                    kids,
                    shape::forest_recs(kids),
                    first_idx as int,
                    child_rewrite,
                    shape::message_recs(ms),
                );
                still_over(s1, s2, pid, fence@, kh, kids, seps2, kids2, recs2, buf);
                course::bare_spliced(seps, kids, first_idx as int, child_rewrite);
            }
            let own: u64 = work::ensure_mutable_page(pool, pid)?;
            let ghost s3 = pool.view();
            proof {
                moved_over(s1, s2, s3, pid, own, fence@, kh, kids, seps2, kids2, recs2, buf);
            }
            let _added: usize = install_child_rewrite(
                &mut children,
                &mut separators,
                first_idx,
                child_rewrite,
            )?;
            assert(children@ =~= shape::pids_of(kids2));
            let result = rewrite::rewrite_internal_preserving_buffer(
                pool,
                config,
                own,
                &fence,
                children.as_slice(),
                separators.as_slice(),
                buffer.as_slice(),
                Ghost(kids2),
                Ghost(kh),
            );
            match result {
                Ok(rw) => {
                    proof {
                        node_rewritten(
                            s1,
                            s3,
                            pool.view(),
                            rw,
                            fence@,
                            kh,
                            all,
                            rewrite::node_pids(own, kids2),
                            buf,
                            kids,
                            kids2,
                            shape::message_recs(ms),
                        );
                        assert(recs =~= rewrite::node_recs(buf, kids).union(
                            shape::message_recs(ms),
                        ));
                    }
                    Ok(Some(rw))
                },
                Err(e) => {
                    proof {
                        pool::step_trans(
                            s1,
                            s3,
                            pool.view(),
                            all,
                            rewrite::node_pids(own, kids2),
                            Set::<u64>::empty(),
                        );
                    }
                    Err(e)
                },
            }
        },
    }
}

/// Work on the children of a node failed, so it failed on the node.
pub proof fn failed_child_fails_node(s1: PoolView, s2: PoolView, pid: u64, kids: Seq<TreeView>)
    requires
        rewrite::failed(s1, s2, shape::forest_pids(kids)),
    ensures
        rewrite::failed(s1, s2, rewrite::node_pids(pid, kids)),
{
    let a = shape::forest_pids(kids);
    let none = Set::<u64>::empty();
    pool::step_drop(s1, s2, a, none, work::one(pid));
    assert(a.union(work::one(pid)) =~= rewrite::node_pids(pid, kids));
    assert(none.difference(work::one(pid)) =~= none);
}

/// The page of a node was made one's own after work on its children.
pub proof fn moved_over(
    s1: PoolView,
    s2: PoolView,
    s3: PoolView,
    pid: u64,
    own: u64,
    fence: FenceView,
    h: nat,
    kids1: Seq<TreeView>,
    seps2: Seq<Seq<u8>>,
    kids2: Seq<TreeView>,
    recs: Set<MessageView>,
    buffer: Seq<MessageView>,
)
    requires
        forest_done(s1, s2, fence, h, kids1, seps2, kids2, recs),
        0 < pid < s1.pages.len(),
        !shape::forest_pids(kids1).contains(pid),
        shape::messages_inside(fence, buffer),
        pool::step(s2, s3, work::one(pid), work::one(own)),
        !pool::is_shared(s3, own),
        0 < own < s3.pages.len(),
        own == pid || own >= s2.pages.len(),
    ensures
        rewrite::over(s3, own, fence, seps2, buffer, kids2, h),
        pool::step(
            s1,
            s3,
            rewrite::node_pids(pid, kids1),
            rewrite::node_pids(own, kids2),
        ),
{
    still_over(s1, s2, pid, fence, h, kids1, seps2, kids2, recs, buffer);
    let b = shape::forest_pids(kids2);
    work::rep_others(s2, s3, kids2, work::one(pid), work::one(own));
    if b.contains(own) {
        work::pid_in_bounds(s2.pages, kids2, own);
    }
    pool::step_widen(s2, s3, work::one(pid), work::one(own), b);
    assert(work::one(pid).union(b) =~= rewrite::node_pids(pid, kids2));
    assert(work::one(own).union(b) =~= rewrite::node_pids(own, kids2));
    pool::step_trans(
        s1,
        s2,
        s3,
        rewrite::node_pids(pid, kids1),
        rewrite::node_pids(pid, kids2),
        rewrite::node_pids(own, kids2),
    );
}

/// A node was rewritten over children that had become others.
pub proof fn node_rewritten(
    s1: PoolView,
    s2: PoolView,
    s3: PoolView,
    rw: Rewrite,
    fence: FenceView,
    h: nat,
    before: Set<u64>,
    mid: Set<u64>,
    buffer: Seq<MessageView>,
    kids1: Seq<TreeView>,
    kids2: Seq<TreeView>,
    more: Set<MessageView>,
)
    requires
        pool::step(s1, s2, before, mid),
        leaf_work::outcome(
            s2,
            s3,
            rw,
            fence,
            h + 1,
            mid,
            rewrite::node_recs(buffer, kids2),
        ),
        shape::refine(shape::forest_recs(kids2), shape::forest_recs(kids1).union(more)),
    ensures
        leaf_work::outcome(
            s1,
            s3,
            rw,
            fence,
            h + 1,
            before,
            rewrite::node_recs(buffer, kids1).union(more),
        ),
{
    let b = shape::message_recs(buffer);
    shape::refine_refl(b);
    shape::refine_union(
        b,
        b,
        shape::forest_recs(kids2),
        shape::forest_recs(kids1).union(more),
    );
    let recs = rewrite::node_recs(buffer, kids1).union(more);
    assert(b.union(shape::forest_recs(kids1).union(more)) =~= recs);
    rewrite::outcome_after(
        s1,
        s2,
        s3,
        rw,
        fence,
        h + 1,
        before,
        mid,
        recs,
        rewrite::node_recs(buffer, kids2),
    );
}

// ---------------------------------------------------------------------------
// Flushing the buffer of a node.

/// What a page takes in place is what is put into its tree, and it refuses what its
/// tree refuses.
pub proof fn single_is_put(
    page: Seq<u8>,
    t: TreeView,
    h: nat,
    config: CowBeTreeConfig,
    m: MessageView,
)
    requires
        layout::parse_page(page) == Ok::<_, CowBeTreeError>(shape::node_of(t)),
        page.len() == PAGE_SIZE,
        shape::wf(t, h),
        takes::is_sized(m),
    ensures
        ({
            let put = course::put(config, course::bare(t), seq![m], h);
            &&& match leaf_append::batch_plan(page, seq![m], config.max_leaf_entries as int) {
                Ok(Some(_)) => put == Ok::<_, CowBeTreeError>(
                    course::one(course::bare(leaf_work::appended_leaf(t, seq![m]))),
                ),
                Ok(None) => true,
                Err(e) => takes::refusal(shape::node_of(t), m) == Some(e),
            }
            &&& takes::refusal(shape::node_of(t), m) is Some ==> leaf_append::batch_plan(
                page,
                seq![m],
                config.max_leaf_entries as int,
            ) is Err
            &&& match append::buffer_append_plan(
                page,
                m,
                config.flush_threshold_messages as int,
                config.flush_threshold_bytes as int,
                config.max_internal_children as int,
                false,
            ) {
                Ok(Some(_)) => put == Ok::<_, CowBeTreeError>(
                    course::one(course::bare(leaf_work::appended_node(t, m))),
                ),
                Ok(None) => true,
                Err(_) => false,
            }
        }),
{
    takes::leaf_answers(page, m, config.max_leaf_entries as int);
    takes::buffer_answers(
        page,
        m,
        config.flush_threshold_messages as int,
        config.flush_threshold_bytes as int,
        config.max_internal_children as int,
    );
    leaf_append::leaf_layout_of_node(page, m.key);
    append::buffer_layout_of_node(page);
    course::bare_node(t);
    assert(seq![m].last() == m);
    if t is Leaf {
        if leaf_append::batch_plan(
            page,
            seq![m],
            config.max_leaf_entries as int,
        ) matches Ok(Some(_)) {
            course::appended_is_written(config, page, t, m);
        }
    } else {
        shape::wf_node(t, h);
        assert(t->buffer + seq![m] =~= t->buffer.push(m));
        if append::buffer_append_plan(
            page,
            m,
            config.flush_threshold_messages as int,
            config.flush_threshold_bytes as int,
            config.max_internal_children as int,
            false,
        )->Ok_0 is Some {
            course::buffered_is_written(config, page, t, m);
        }
    }
}

/// Put a batch into the root page of a tree: append it in place if it is one
/// message and there is room, else rewrite the leaf, or put it into the buffer
/// of the node, and flush that if it becomes too large.
#[verifier::rlimit(40)]
#[verifier::spinoff_prover]
pub fn apply_batch_to_page_with_raw_leaf(
    pool: &mut PagePool,
    config: &CowBeTreeConfig,
    pid: u64,
    batch: &[BufferedMessage],
    allow_raw_leaf: bool,
    hint: &mut u64,
    Ghost(t): Ghost<TreeView>,
    Ghost(h): Ghost<nat>,
) -> (r: Result<Rewrite, CowBeTreeError>)
    requires
        old(pool).wf(),
        shape::rep(old(pool).view().pages, t),
        shape::wf(t, h),
        pid == shape::pid_of(t),
        shape::messages_inside(shape::fence_of(t), message::messages_view(batch@)),
    ensures
        final(pool).wf(),
        match r {
            Ok(rw) => {
                &&& leaf_work::outcome(
                    old(pool).view(),
                    final(pool).view(),
                    rw,
                    shape::fence_of(t),
                    h,
                    shape::tree_pids(t),
                    shape::tree_recs(t).union(
                        shape::message_recs(message::messages_view(batch@)),
                    ),
                )
                &&& rewrite::kept(
                    old(pool).view(),
                    config.max_leaf_entries,
                    *old(hint),
                    *final(hint),
                    shape::tree_pids(t),
                    shape::forest_pids(leaf_work::kids_of(rw)),
                )
            },
            Err(_) => rewrite::failed(old(pool).view(), final(pool).view(), shape::tree_pids(t)),
        },
        course::all_sized(message::messages_view(batch@)) ==> course::came_out(
            r,
            course::put_or_refused(
                *config,
                course::bare(t),
                message::messages_view(batch@),
                allow_raw_leaf,
                h,
            ),
        ),
    decreases h, 3nat, 0nat,
{
    let ghost s1 = pool.view();
    let ghost ms = message::messages_view(batch@);
    let ghost all = shape::tree_pids(t);
    let ghost recs = shape::tree_recs(t).union(shape::message_recs(ms));
    let own: u64 = work::ensure_mutable(pool, pid, Ghost(t), Ghost(h))?;
    let ghost s2 = pool.view();
    let ghost t2 = work::with_pid(t, own);
    let ghost all2 = shape::tree_pids(t2);
    let ghost sized = course::all_sized(ms);
    proof {
        rewrite::failed_if(s1, s2, all, all2);
        shape::refine_refl(recs);
        course::bare_with_pid(t, own);
        course::bare_node(t2);
        if t is Node {
            course::buffered_are_sized(s2.pages[own as int], t2);
        }
    }
    if batch.len() == 1 {
        proof {
            assert(ms =~= seq![batch@[0]@]);
            assert(ms[0] == batch@[0]@);
            if sized {
                single_is_put(s2.pages[own as int], t2, h, *config, ms[0]);
            }
        }
        if allow_raw_leaf {
            let appended = leaf_work::try_append_leaf_message(
                pool,
                own,
                &batch[0],
                config.max_leaf_entries,
                hint,
                Ghost(t2),
                Ghost(h),
            )?;
            if appended {
                let ghost t3 = leaf_work::appended_leaf(t2, ms);
                let rw = Rewrite::One { pid: own, tree: Ghost(t3) };
                proof {
                    leaf_work::outcome_one(s2, pool.view(), rw, h, all2, recs);
                    rewrite::outcome_after(
                        s1,
                        s2,
                        pool.view(),
                        rw,
                        shape::fence_of(t),
                        h,
                        all,
                        all2,
                        recs,
                        recs,
                    );
                    assert(shape::has_pid(t3, own));
                    assert(shape::tree_pids(t3).contains(own));
                    course::out_trees(rw);
                }
                return Ok(rw);
            }
        }
        let appended = leaf_work::try_append_buffer_message(
            pool,
            own,
            &batch[0],
            config,
            Ghost(t2),
            Ghost(h),
        )?;
        if appended {
            let ghost t3 = leaf_work::appended_node(t2, batch@[0]@);
            let rw = Rewrite::One { pid: own, tree: Ghost(t3) };
            proof {
                leaf_work::outcome_one(s2, pool.view(), rw, h, all2, recs);
                rewrite::outcome_after(
                    s1,
                    s2,
                    pool.view(),
                    rw,
                    shape::fence_of(t),
                    h,
                    all,
                    all2,
                    recs,
                    recs,
                );
                course::out_trees(rw);
            }
            return Ok(rw);
        }
    }
    let result = match pool.read_node(own)? {
        NodePage::Leaf { fence, entries } => rewrite::rewrite_leaf_batch(
            pool,
            config,
            own,
            &fence,
            entries,
            batch,
            hint,
            Ghost(t2),
        ),
        NodePage::Internal { fence, children, separators, buffer } => {
            let ghost buf = t->buffer;
            let ghost kids = t->kids;
            let mut buffer = buffer;
            let mut more = message::copy_messages(batch, 0, batch.len());
            let ghost more0 = more@;
            let ghost buffer0 = buffer@;
            buffer.append(&mut more);
            proof {
                let buf2 = message::messages_view(buffer@);
                assert(buf2 =~= message::messages_view(buffer0) + message::messages_view(more0));
                assert(message::messages_view(more0) =~= ms);
                assert(buf2 == buf + ms);
                shape::wf_node(t2, h);
                node_is_tree(t2);
                assert forall|i: int| 0 <= i < buf2.len() implies node::in_fence(
                    fence@,
                    (#[trigger] buf2[i]).key,
                ) by {
                    if i < buf.len() {
                        assert(node::in_fence(fence@, buf[i].key));
                    } else {
                        assert(node::in_fence(fence@, ms[i - buf.len()].key));
                    }
                }
                shape::message_recs_add(buf, ms);
                assert(rewrite::node_recs(buf2, kids) =~= recs);
                if sized {
                    assert forall|i: int| 0 <= i < buf2.len() implies takes::is_sized(
                        #[trigger] buf2[i],
                    ) by {
                        if i < buf.len() {
                            assert(takes::is_sized(buf[i]));
                        } else {
                            assert(takes::is_sized(ms[i - buf.len()]));
                        }
                    }
                }
                course::bare_fits(fence@, t->separators, buf2, kids);
                assert(rewrite::over(
                    s2,
                    own,
                    fence@,
                    t->separators,
                    buf2,
                    kids,
                    (h - 1) as nat,
                ));
            }
            if config.should_flush_buffer(buffer.as_slice()) || config.internal_should_split(
                &fence,
                children.as_slice(),
                separators.as_slice(),
                buffer.as_slice(),
            ) {
                flush_internal(
                    pool,
                    config,
                    own,
                    &fence,
                    children,
                    separators,
                    buffer,
                    hint,
                    Ghost(kids),
                    Ghost((h - 1) as nat),
                )
            } else {
                rewrite::write_over(
                    pool,
                    own,
                    &fence,
                    children.as_slice(),
                    separators.as_slice(),
                    buffer.as_slice(),
                    Ghost(kids),
                    Ghost((h - 1) as nat),
                )
            }
        },
    };
    match result {
        Ok(rw) => {
            proof {
                rewrite::outcome_after(
                    s1,
                    s2,
                    pool.view(),
                    rw,
                    shape::fence_of(t),
                    h,
                    all,
                    all2,
                    recs,
                    recs,
                );
            }
            Ok(rw)
        },
        Err(e) => {
            proof {
                pool::step_trans(s1, s2, pool.view(), all, all2, Set::<u64>::empty());
            }
            Err(e)
        },
    }
}

/// Flush the messages of the child that has most of them, and write the node
/// with the others; flush again if it has no place on its page.
pub fn flush_internal(
    pool: &mut PagePool,
    config: &CowBeTreeConfig,
    pid: u64,
    fence: &Fence,
    children: Vec<u64>,
    separators: Vec<Vec<u8>>,
    buffer: Vec<BufferedMessage>,
    hint: &mut u64,
    Ghost(kids): Ghost<Seq<TreeView>>,
    Ghost(h): Ghost<nat>,
) -> (r: Result<Rewrite, CowBeTreeError>)
    requires
        old(pool).wf(),
        children@ == shape::pids_of(kids),
        rewrite::over(
            old(pool).view(),
            pid,
            fence@,
            node::keys_view(separators@),
            message::messages_view(buffer@),
            kids,
            h,
        ),
    ensures
        final(pool).wf(),
        match r {
            Ok(rw) => {
                &&& leaf_work::outcome(
                    old(pool).view(),
                    final(pool).view(),
                    rw,
                    fence@,
                    h + 1,
                    rewrite::node_pids(pid, kids),
                    rewrite::node_recs(message::messages_view(buffer@), kids),
                )
                &&& rewrite::kept(
                    old(pool).view(),
                    config.max_leaf_entries,
                    *old(hint),
                    *final(hint),
                    rewrite::node_pids(pid, kids),
                    shape::forest_pids(leaf_work::kids_of(rw)),
                )
                &&& rw is Split ==> rw->left_pid == pid
                &&& rw matches Rewrite::One { pid: p, tree } ==> {
                    &&& p == pid
                    &&& tree@ is Node
                    &&& (buffer@.len() > 0 ==> tree@->buffer.len() < buffer@.len())
                    &&& (buffer@.len() == 0 ==> tree@->buffer.len() == 0)
                }
                &&& buffer@.len() == 0 && shape::all_unbuffered(kids) ==> shape::all_unbuffered(
                    leaf_work::kids_of(rw),
                )
            },
            Err(_) => rewrite::failed(
                old(pool).view(),
                final(pool).view(),
                rewrite::node_pids(pid, kids),
            ),
        },
        buffer@.len() == 0 && !rewrite::internal_splits(
            config.max_internal_children,
            fence@,
            children@,
            node::keys_view(separators@),
            Seq::empty(),
        ) ==> r is Ok && r->Ok_0 is One && r->Ok_0->tree@ == (TreeView::Node {
            pid,
            fence: fence@,
            separators: node::keys_view(separators@),
            buffer: Seq::empty(),
            kids,
        }),
        course::all_sized(message::messages_view(buffer@)) ==> course::came_out(
            r,
            course::flushed(
                *config,
                fence@,
                node::keys_view(separators@),
                message::messages_view(buffer@),
                course::bare_all(kids),
                h,
            ),
        ),
    decreases h, 5nat, buffer@.len(),
{
    let ghost s1 = pool.view();
    let ghost seps = node::keys_view(separators@);
    let ghost ms = message::messages_view(buffer@);
    let ghost all = rewrite::node_pids(pid, kids);
    if buffer.len() == 0 {
        proof {
            assert(ms =~= Seq::<MessageView>::empty());
            assert(rewrite::node_recs(ms, kids) =~= shape::forest_recs(kids));
        }
        return rewrite::rewrite_internal_empty_buffer(
            pool,
            config,
            pid,
            fence,
            children.as_slice(),
            separators.as_slice(),
            Ghost(kids),
            Ghost(h),
        );
    }
    proof {
        pool::step_refl(s1, all);
        rewrite::failed_if(s1, s1, all, all);
        assert forall|k: int| 0 <= k < ms.len() implies node::route(
            seps,
            (#[trigger] ms[k]).key,
        ) < children@.len() by {
            assert(node::in_fence(fence@, ms[k].key));
            shape::route_to_child(fence@, seps, ms[k].key);
        }
        assert(!batch::some_routed_outside(seps, ms, children@.len() as int));
    }
    let (child_idx, batch, remaining) = batch::largest_child_batch(
        children.as_slice(),
        separators.as_slice(),
        buffer.as_slice(),
    )?;
    let ghost bs = message::messages_view(batch@);
    let ghost rest = message::messages_view(remaining@);
    proof {
        batch::batch_parts(seps, ms, child_idx as int);
        message::in_buffer_order_sorts(batch::routed_to(seps, ms, child_idx as int));
        batch_is_ready(fence@, seps, ms, bs, rest, child_idx as int);
        course::flush_child_is(seps, ms, kids.len() as int, child_idx as int);
        if course::all_sized(ms) {
            parts_are_sized(ms, bs);
            parts_are_sized(ms, rest);
        }
    }
    let mut children = children;
    let mut separators = separators;
    let result = apply_child_flush_batch(
        pool,
        config,
        &mut children,
        &mut separators,
        child_idx,
        batch,
        hint,
        Ghost(fence@),
        Ghost(kids),
        Ghost(h),
    );
    let ghost s2 = pool.view();
    let Ghost(kids2) = match result {
        Ok(kids2) => kids2,
        Err(e) => {
            proof {
                failed_child_fails_node(s1, s2, pid, kids);
            }
            return Err(e);
        },
    };
    let ghost seps2 = node::keys_view(separators@);
    let ghost recs2 = shape::forest_recs(kids).union(shape::message_recs(bs));
    proof {
        still_over(s1, s2, pid, fence@, h, kids, seps2, kids2, recs2, rest);
        course::bare_fits(fence@, seps2, rest, kids2);
    }
    let result = if children.len() > config.max_internal_children {
        rewrite::split_internal(
            pool,
            pid,
            fence,
            children.as_slice(),
            separators.as_slice(),
            remaining.as_slice(),
            Ghost(kids2),
            Ghost(h),
        )
    } else if !rewrite::internal_fits_page(
        fence,
        children.as_slice(),
        separators.as_slice(),
        remaining.as_slice(),
    ) {
        flush_internal(
            pool,
            config,
            pid,
            fence,
            children,
            separators,
            remaining,
            hint,
            Ghost(kids2),
            Ghost(h),
        )
    } else {
        rewrite::write_over(
            pool,
            pid,
            fence,
            children.as_slice(),
            separators.as_slice(),
            remaining.as_slice(),
            Ghost(kids2),
            Ghost(h),
        )
    };
    match result {
        Ok(rw) => {
            proof {
                node_rewritten(
                    s1,
                    s2,
                    pool.view(),
                    rw,
                    fence@,
                    h,
                    all,
                    rewrite::node_pids(pid, kids2),
                    rest,
                    kids,
                    kids2,
                    shape::message_recs(bs),
                );
                assert(rewrite::node_recs(rest, kids).union(shape::message_recs(bs))
                    =~= rewrite::node_recs(ms, kids));
            }
            Ok(rw)
        },
        Err(e) => {
            proof {
                pool::step_trans(
                    s1,
                    s2,
                    pool.view(),
                    all,
                    rewrite::node_pids(pid, kids2),
                    Set::<u64>::empty(),
                );
            }
            Err(e)
        },
    }
}

/// Some of the messages whose lengths are machine words.
proof fn parts_are_sized(ms: Seq<MessageView>, part: Seq<MessageView>)
    requires
        course::all_sized(ms),
        forall|k: int| 0 <= k < part.len() ==> ms.contains(#[trigger] part[k]),
    ensures
        course::all_sized(part),
{
    assert forall|k: int| 0 <= k < part.len() implies takes::is_sized(#[trigger] part[k]) by {
        let j = choose|j: int| 0 <= j < ms.len() && ms[j] == part[k];
        assert(takes::is_sized(ms[j]));
    }
}

/// A batch picked for a child lies in the fence of the child, and ascends.
proof fn batch_is_ready(
    fence: FenceView,
    separators: Seq<Seq<u8>>,
    ms: Seq<MessageView>,
    bs: Seq<MessageView>,
    rest: Seq<MessageView>,
    i: int,
)
    requires
        node::sorted_keys(separators),
        shape::messages_inside(fence, ms),
        bs == message::in_buffer_order(batch::routed_to(separators, ms, i)),
        forall|k: int|
            0 <= k < bs.len() ==> node::route(separators, (#[trigger] bs[k]).key) == i
                && ms.contains(bs[k]),
        forall|k: int| 0 <= k < rest.len() ==> ms.contains(#[trigger] rest[k]),
    ensures
        shape::messages_inside(shape::child_fence(fence, separators, i), bs),
        keys_ascend(bs),
        shape::messages_inside(fence, rest),
        shape::messages_inside(fence, bs),
{
    assert forall|k: int| 0 <= k < bs.len() implies node::in_fence(
        shape::child_fence(fence, separators, i),
        (#[trigger] bs[k]).key,
    ) && node::in_fence(fence, bs[k].key) by {
        let j = choose|j: int| 0 <= j < ms.len() && ms[j] == bs[k];
        assert(node::in_fence(fence, ms[j].key));
        shape::route_to_child(fence, separators, bs[k].key);
    }
    assert forall|k: int| 0 <= k < rest.len() implies node::in_fence(
        fence,
        (#[trigger] rest[k]).key,
    ) by {
        let j = choose|j: int| 0 <= j < ms.len() && ms[j] == rest[k];
        assert(node::in_fence(fence, ms[j].key));
    }
    message::in_buffer_order_sorts(batch::routed_to(separators, ms, i));
    assert forall|a: int, b: int|
        #![trigger bs[a], bs[b]]
        0 <= a <= b < bs.len() implies !bytes::lex_lt(bs[b].key, bs[a].key) by {
        bytes::lex_lt_irreflexive(bs[a].key);
        if a < b {
            assert(!message::buffer_before(bs[b], bs[a]));
        }
    }
}

/// Append to a child of a forest, on a page of one's own, what can be appended of
/// a batch; how many messages that were, and the child then.
fn append_front(
    pool: &mut PagePool,
    config: &CowBeTreeConfig,
    children: &mut Vec<u64>,
    child_idx: usize,
    batch: &[BufferedMessage],
    hint: &mut u64,
    Ghost(fence): Ghost<FenceView>,
    Ghost(seps): Ghost<Seq<Seq<u8>>>,
    Ghost(kids): Ghost<Seq<TreeView>>,
    Ghost(h): Ghost<nat>,
) -> (r: Result<(usize, Ghost<TreeView>), CowBeTreeError>)
    requires
        old(pool).wf(),
        old(children)@ == shape::pids_of(kids),
        shape::forest(fence, seps, kids, h),
        shape::rep_all(old(pool).view().pages, kids),
        child_idx < kids.len(),
    ensures
        final(pool).wf(),
        ({
            let i = child_idx as int;
            let ms = message::messages_view(batch@);
            match r {
                Ok((k, t2)) => {
                    let kids2 = kids.update(i, t2@);
                    &&& k <= ms.len()
                    &&& final(children)@ == shape::pids_of(kids2)
                    &&& forest_done(
                        old(pool).view(),
                        final(pool).view(),
                        fence,
                        h,
                        kids,
                        seps,
                        kids2,
                        shape::forest_recs(kids).union(shape::message_recs(ms.take(k as int))),
                    )
                    &&& rewrite::kept(
                        old(pool).view(),
                        config.max_leaf_entries,
                        *old(hint),
                        *final(hint),
                        shape::forest_pids(kids),
                        shape::forest_pids(kids2),
                    )
                    &&& course::bare_all(kids2) == course::bare_all(kids).update(
                        i,
                        if k > 0 {
                            course::with_front(course::bare(kids[i]), ms.take(k as int))
                        } else {
                            course::bare(kids[i])
                        },
                    )
                },
                Err(_) => rewrite::failed(
                    old(pool).view(),
                    final(pool).view(),
                    shape::forest_pids(kids),
                ),
            }
        }),
        match course::front_len(
            course::bare(kids[child_idx as int]),
            message::messages_view(batch@),
            config.max_leaf_entries as int,
        ) {
            Ok(k) => r is Ok && r->Ok_0.0 == k,
            Err(e) => r is Err && r->Err_0 == e,
        },
{
    let ghost s0 = pool.view();
    let ghost ms = message::messages_view(batch@);
    let ghost i = child_idx as int;
    let ghost t = kids[i];
    let ghost none = Set::<MessageView>::empty();
    let ghost recs0 = shape::forest_recs(kids);
    proof {
        forest_start(s0, fence, h, seps, kids);
        assert(children@[i] == shape::pid_of(kids[i]));
        assert(shape::rep(s0.pages, kids[i]));
        assert(shape::fence_of(kids[i]) == shape::child_fence(fence, seps, i));
    }
    let child_pid: u64 = work::ensure_mutable(pool, children[child_idx], Ghost(t), Ghost(h))?;
    let ghost s1 = pool.view();
    let ghost t1 = work::with_pid(t, child_pid);
    let ghost kids1 = kids.update(i, t1);
    let ghost rw1 = Rewrite::One { pid: child_pid, tree: Ghost(t1) };
    children.set(child_idx, child_pid);
    proof {
        shape::refine_refl(shape::tree_recs(t));
        assert(shape::tree_recs(t).union(none) =~= shape::tree_recs(t));
        leaf_work::outcome_one(s0, s1, rw1, h, shape::tree_pids(t), shape::tree_recs(t));
        forest_more(s0, s0, s1, fence, h, kids, seps, kids, recs0, i, rw1, none);
        spliced_same(seps, kids, i, t1);
        assert(recs0.union(none) =~= recs0);
        assert(children@ =~= shape::pids_of(kids1));
        assert(shape::rep(s1.pages, kids1[i]));
    }
    let appended = leaf_work::try_append_leaf_prefix(
        pool,
        child_pid,
        batch,
        config.max_leaf_entries,
        hint,
        Ghost(t1),
        Ghost(h),
    );
    let appended: usize = match appended {
        Ok(appended) => appended,
        Err(e) => {
            proof {
                rewrite::failed_if(
                    s0,
                    s1,
                    shape::forest_pids(kids),
                    shape::forest_pids(kids1),
                );
            }
            return Err(e);
        },
    };
    let ghost s2 = pool.view();
    let ghost front = ms.take(appended as int);
    let ghost t2 = if appended > 0 {
        leaf_work::appended_leaf(t1, front)
    } else {
        t1
    };
    let ghost kids2 = kids1.update(i, t2);
    let ghost recs2 = recs0.union(shape::message_recs(front));
    proof {
        let rw2 = Rewrite::One { pid: child_pid, tree: Ghost(t2) };
        if appended > 0 {
            let r2 = shape::tree_recs(t1).union(shape::message_recs(front));
            shape::refine_refl(r2);
            leaf_work::outcome_one(s1, s2, rw2, h, shape::tree_pids(t1), r2);
            assert(shape::has_pid(t2, child_pid));
            assert(shape::tree_pids(t2).contains(child_pid));
        } else {
            outcome_same(s1, rw2, h);
            assert(front =~= Seq::<MessageView>::empty());
            assert(shape::message_recs(front) =~= none);
            assert(shape::tree_recs(t1).union(none) =~= shape::tree_recs(t1));
        }
        forest_more(
            s0,
            s1,
            s2,
            fence,
            h,
            kids,
            seps,
            kids1,
            recs0,
            i,
            rw2,
            shape::message_recs(front),
        );
        spliced_same(seps, kids1, i, t2);
        assert(children@ =~= shape::pids_of(kids2));
        assert(kids2[i] == t2);
        assert(shape::rep(s2.pages, kids2[i]));
        course::bare_with_pid(t, child_pid);
        course::bare_node(t);
        course::bare_node(t1);
        course::bare_node(t2);
        assert(course::bare_all(kids2) =~= course::bare_all(kids).update(i, course::bare(t2)));
        assert(kids2 =~= kids.update(i, t2));
        assert(shape::forest_pids(kids1).subset_of(shape::forest_pids(kids2)));
    }
    Ok((appended, Ghost(t2)))
}

/// Put a batch into a child: append what can be appended in place, else apply
/// the rest to its leaf, else put it message by message into the child it
/// belongs to.
#[verifier::rlimit(60)]
#[verifier::spinoff_prover]
pub fn apply_child_flush_batch(
    pool: &mut PagePool,
    config: &CowBeTreeConfig,
    children: &mut Vec<u64>,
    separators: &mut Vec<Vec<u8>>,
    child_idx: usize,
    batch: Vec<BufferedMessage>,
    hint: &mut u64,
    Ghost(fence): Ghost<FenceView>,
    Ghost(kids): Ghost<Seq<TreeView>>,
    Ghost(h): Ghost<nat>,
) -> (r: Result<Ghost<Seq<TreeView>>, CowBeTreeError>)
    requires
        old(pool).wf(),
        old(children)@ == shape::pids_of(kids),
        shape::forest(fence, node::keys_view(old(separators)@), kids, h),
        shape::rep_all(old(pool).view().pages, kids),
        child_idx < kids.len(),
        shape::messages_inside(
            shape::child_fence(fence, node::keys_view(old(separators)@), child_idx as int),
            message::messages_view(batch@),
        ),
        shape::messages_inside(fence, message::messages_view(batch@)),
        keys_ascend(message::messages_view(batch@)),
    ensures
        final(pool).wf(),
        match r {
            Ok(g) => {
                let kids2 = g@;
                &&& final(children)@ == shape::pids_of(kids2)
                &&& forest_done(
                    old(pool).view(),
                    final(pool).view(),
                    fence,
                    h,
                    kids,
                    node::keys_view(final(separators)@),
                    kids2,
                    shape::forest_recs(kids).union(
                        shape::message_recs(message::messages_view(batch@)),
                    ),
                )
                &&& rewrite::kept(
                    old(pool).view(),
                    config.max_leaf_entries,
                    *old(hint),
                    *final(hint),
                    shape::forest_pids(kids),
                    shape::forest_pids(kids2),
                )
            },
            Err(_) => rewrite::failed(
                old(pool).view(),
                final(pool).view(),
                shape::forest_pids(kids),
            ),
        },
        course::all_sized(message::messages_view(batch@)) ==> match course::child_put(
            *config,
            node::keys_view(old(separators)@),
            course::bare_all(kids),
            child_idx as int,
            message::messages_view(batch@),
            h,
        ) {
            Ok(o) => r is Ok && o == (course::Out {
                separators: node::keys_view(final(separators)@),
                kids: course::bare_all(r->Ok_0@),
            }),
            Err(e) => r is Err && r->Err_0 == e,
        },
    decreases h, 4nat, 0nat,
{
    let ghost s0 = pool.view();
    let ghost seps = node::keys_view(separators@);
    let ghost ms = message::messages_view(batch@);
    let ghost i = child_idx as int;
    let ghost recs0 = shape::forest_recs(kids);
    if child_idx >= children.len() {
        return Err(CowBeTreeError::CorruptPage("child index out of bounds"));
    }
    let (appended, Ghost(t2)) = append_front(
        pool,
        config,
        children,
        child_idx,
        batch.as_slice(),
        hint,
        Ghost(fence),
        Ghost(seps),
        Ghost(kids),
        Ghost(h),
    )?;
    let ghost s2 = pool.view();
    let ghost front = ms.take(appended as int);
    let ghost kids2 = kids.update(i, t2);
    let ghost recs2 = recs0.union(shape::message_recs(front));
    let child_pid: u64 = children[child_idx];
    proof {
        assert(kids2[i] == t2);
        assert(shape::rep(s2.pages, kids2[i]));
        assert(shape::wf(kids2[i], h));
        assert(shape::fence_of(kids2[i]) == shape::child_fence(fence, seps, i));
        assert(course::bare_all(kids2)[i] == course::bare(t2));
        assert(course::bare_all(kids)[i] == course::bare(kids[i]));
    }
    if appended == batch.len() {
        assert(front =~= ms);
        return Ok(Ghost(kids2));
    }
    let remaining = vstd::slice::slice_subrange(batch.as_slice(), appended, batch.len());
    let ghost back = ms.skip(appended as int);
    proof {
        assert(message::messages_view(remaining@) =~= back);
        assert(front + back =~= ms);
        shape::message_recs_add(front, back);
        assert(recs2.union(shape::message_recs(back)) =~= recs0.union(shape::message_recs(ms)));
        assert forall|k: int| 0 <= k < back.len() implies node::in_fence(
            shape::fence_of(t2),
            (#[trigger] back[k]).key,
        ) by {
            assert(back[k] == ms[appended + k]);
        }
        assert forall|a: int, b: int|
            #![trigger back[a], back[b]]
            0 <= a <= b < back.len() implies !bytes::lex_lt(back[b].key, back[a].key) by {
            assert(back[a] == ms[appended + a]);
            assert(back[b] == ms[appended + b]);
        }
    }
    if remaining.len() > 1 {
        let ghost hint2 = *hint;
        let result = try_flush_batch_direct_to_leaf(
            pool,
            config,
            child_pid,
            remaining,
            hint,
            Ghost(t2),
            Ghost(h),
        );
        let ghost s3 = pool.view();
        match result {
            Ok(Some(rw)) => {
                let ghost kids3 = shape::spliced_kids(kids2, i, i + 1, leaf_work::kids_of(rw));
                proof {
                    forest_more(
                        s0,
                        s2,
                        s3,
                        fence,
                        h,
                        kids,
                        seps,
                        kids2,
                        recs2,
                        i,
                        rw,
                        shape::message_recs(back),
                    );
                    course::bare_spliced(seps, kids2, i, rw);
                }
                let _added: usize = install_child_rewrite(children, separators, child_idx, rw)?;
                assert(children@ =~= shape::pids_of(kids3));
                return Ok(Ghost(kids3));
            },
            Ok(None) => {},
            Err(e) => {
                proof {
                    forest_fails(s0, s2, s3, fence, h, kids, seps, kids2, recs2, i);
                }
                return Err(e);
            },
        }
    }
    let mut skip_first_raw_leaf = true;
    let mut next: usize = appended;
    let ghost mut cur = kids2;
    let ghost mut recs = recs2;
    let ghost sized = course::all_sized(ms);
    let ghost goal = course::each_put(
        *config,
        seps,
        course::bare_all(kids2),
        ms,
        appended as int,
        false,
        h,
    );
    proof {
        assert(ms.take(appended as int) =~= front);
    }
    while next < batch.len()
        invariant
            sized == course::all_sized(ms),
            sized ==> goal == course::child_put(
                *config,
                node::keys_view(old(separators)@),
                course::bare_all(kids),
                child_idx as int,
                ms,
                h,
            ),
            sized ==> goal == course::each_put(
                *config,
                node::keys_view(separators@),
                course::bare_all(cur),
                ms,
                next as int,
                !skip_first_raw_leaf,
                h,
            ),
            next <= batch@.len(),
            s0 == old(pool).view(),
            recs0 == shape::forest_recs(kids),
            ms == message::messages_view(batch@),
            shape::messages_inside(fence, ms),
            pool.wf(),
            children@ == shape::pids_of(cur),
            forest_done(
                s0,
                pool.view(),
                fence,
                h,
                kids,
                node::keys_view(separators@),
                cur,
                recs,
            ),
            recs == recs0.union(shape::message_recs(ms.take(next as int))),
            rewrite::kept(
                s0,
                config.max_leaf_entries,
                *old(hint),
                *hint,
                shape::forest_pids(kids),
                shape::forest_pids(cur),
            ),
        decreases batch@.len() - next,
    {
        let ghost sa = pool.view();
        let ghost sp = node::keys_view(separators@);
        let idx: usize = node::route_child(separators.as_slice(), batch[next].key.as_slice());
        proof {
            assert(ms[next as int] == batch@[next as int]@);
            assert(node::in_fence(fence, ms[next as int].key));
            shape::route_to_child(fence, sp, ms[next as int].key);
            assert(cur.len() == sp.len() + 1);
        }
        if idx >= children.len() {
            return Err(CowBeTreeError::CorruptPage("child index out of bounds"));
        }
        let single = vstd::slice::slice_subrange(batch.as_slice(), next, next + 1);
        let ghost one = message::messages_view(single@);
        let ghost t3 = cur[idx as int];
        proof {
            assert(one =~= seq![ms[next as int]]);
            assert(shape::fence_of(t3) == shape::child_fence(fence, sp, idx as int));
            assert(shape::rep(sa.pages, t3));
            assert forall|k: int| 0 <= k < one.len() implies node::in_fence(
                shape::fence_of(t3),
                (#[trigger] one[k]).key,
            ) by {}
            assert(children@[idx as int] == shape::pid_of(cur[idx as int]));
            if sized {
                assert(takes::is_sized(ms[next as int]));
                assert(course::all_sized(one));
            }
        }
        let allow_raw_leaf = !skip_first_raw_leaf;
        skip_first_raw_leaf = false;
        let result = apply_batch_to_page_with_raw_leaf(
            pool,
            config,
            children[idx],
            single,
            allow_raw_leaf,
            hint,
            Ghost(t3),
            Ghost(h),
        );
        let ghost sb = pool.view();
        let rw = match result {
            Ok(rw) => rw,
            Err(e) => {
                proof {
                    forest_fails(s0, sa, sb, fence, h, kids, sp, cur, recs, idx as int);
                }
                return Err(e);
            },
        };
        let ghost cur2 = shape::spliced_kids(
            cur,
            idx as int,
            idx + 1,
            leaf_work::kids_of(rw),
        );
        proof {
            forest_more(
                s0,
                sa,
                sb,
                fence,
                h,
                kids,
                sp,
                cur,
                recs,
                idx as int,
                rw,
                shape::message_recs(one),
            );
            assert(ms.take(next + 1) =~= ms.take(next as int) + one);
            shape::message_recs_add(ms.take(next as int), one);
            assert(recs.union(shape::message_recs(one)) =~= recs0.union(
                shape::message_recs(ms.take(next + 1)),
            ));
            course::bare_spliced(sp, cur, idx as int, rw);
        }
        let _added: usize = install_child_rewrite(children, separators, idx, rw)?;
        proof {
            assert(children@ =~= shape::pids_of(cur2));
            cur = cur2;
            recs = recs0.union(shape::message_recs(ms.take(next + 1)));
        }
        next += 1;
    }
    assert(ms.take(next as int) =~= ms);
    Ok(Ghost(cur))
}

/// One tree of a forest in the place of another.
proof fn spliced_same(separators: Seq<Seq<u8>>, kids: Seq<TreeView>, i: int, t: TreeView)
    requires
        0 <= i < kids.len(),
        kids.len() == separators.len() + 1,
    ensures
        shape::spliced_kids(kids, i, i + 1, seq![t]) == kids.update(i, t),
        shape::spliced_separators(separators, i, i + 1, Seq::empty()) == separators,
{
    assert(shape::spliced_kids(kids, i, i + 1, seq![t]) =~= kids.update(i, t));
    assert(shape::spliced_separators(separators, i, i + 1, Seq::empty()) =~= separators);
}

} // verus!
