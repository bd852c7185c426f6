//! Reclaiming versions in a whole tree, at once or a few leaves at a time.
use vstd::prelude::*;

use crate::betree::compact;
use crate::betree::config::CowBeTreeConfig;
use crate::betree::course;
use crate::betree::drain;
use crate::betree::flush;
use crate::betree::gc;
use crate::betree::gc::CowBeTreeGcResult;
use crate::betree::leaf_work;
use crate::betree::leaf_work::Rewrite;
use crate::betree::message;
use crate::betree::message::MessageView;
use crate::betree::node;
use crate::betree::node::{CowBeTreeError, EntryView, Fence, FenceView, LeafEntry, NodePage};
use crate::betree::pool;
use crate::betree::pool::{PagePool, PoolView};
use crate::betree::reclaim;
use crate::betree::rewrite;
use crate::betree::shape;
use crate::betree::shape::TreeView;
use crate::betree::smaller;
use crate::betree::work;
use crate::bytes;

verus! {

/// All records of the trees are needed by readers at or above the watermark.
pub open spec fn only_needed(
    kids: Seq<TreeView>,
    recs: Set<MessageView>,
    watermark: u64,
) -> bool {
    shape::forest_recs(kids).subset_of(gc::needed(recs, watermark))
}

/// What pruning a leaf comes to.
pub open spec fn leaf_result(es: Seq<EntryView>, watermark: u64) -> CowBeTreeGcResult {
    let r = gc::entries_result(es, watermark);
    CowBeTreeGcResult {
        leaf_pages_visited: 1,
        leaf_pages_rewritten: if r.versions_pruned == 0 {
            0
        } else {
            1
        },
        ..r
    }
}

/// What pruning all leaves of a tree comes to, from the left.
pub open spec fn tree_result(t: TreeView, watermark: u64) -> CowBeTreeGcResult
    decreases t,
{
    match t {
        TreeView::Leaf { entries, .. } => leaf_result(entries, watermark),
        TreeView::Node { kids, .. } => forest_result(kids, watermark),
    }
}

pub open spec fn forest_result(kids: Seq<TreeView>, watermark: u64) -> CowBeTreeGcResult
    decreases kids,
{
    if kids.len() == 0 {
        gc::no_result()
    } else {
        gc::sum_results(
            forest_result(kids.drop_last(), watermark),
            tree_result(kids.last(), watermark),
        )
    }
}

/// Alike trees have alike results.
pub proof fn alike_result(a: TreeView, b: TreeView, watermark: u64)
    requires
        shape::alike(a, b),
    ensures
        tree_result(a, watermark) == tree_result(b, watermark),
    decreases a,
{
    if a is Node {
        alike_results(a->kids, b->kids, watermark);
    }
}

proof fn alike_results(a: Seq<TreeView>, b: Seq<TreeView>, watermark: u64)
    requires
        a.len() == b.len(),
        forall|i: int| 0 <= i < a.len() ==> shape::alike(#[trigger] a[i], b[i]),
    ensures
        forest_result(a, watermark) == forest_result(b, watermark),
    decreases a,
{
    if a.len() > 0 {
        assert(shape::alike(a[a.len() - 1], b[a.len() - 1]));
        alike_result(a.last(), b.last(), watermark);
        assert forall|i: int| 0 <= i < a.drop_last().len() implies shape::alike(
            #[trigger] a.drop_last()[i],
            b.drop_last()[i],
        ) by {
            assert(shape::alike(a[i], b[i]));
        }
        alike_results(a.drop_last(), b.drop_last(), watermark);
    }
}

/// What becomes of a tree without waiting messages when all its leaves are
/// pruned: in every node below which something was pruned, from the leaves up,
/// the children are merged.
pub open spec fn pruned_tree(config: CowBeTreeConfig, t: TreeView, watermark: u64) -> TreeView
    decreases t,
{
    if tree_result(t, watermark).versions_pruned == 0 {
        t
    } else {
        match t {
            TreeView::Leaf { pid, fence, entries } => TreeView::Leaf {
                pid,
                fence,
                entries: gc::pruned_entries(entries, watermark),
            },
            TreeView::Node { pid, fence, separators, buffer, kids } => {
                let m = compact::merges(
                    config,
                    pruned_all(config, kids, watermark),
                    separators,
                    0,
                );
                TreeView::Node { pid, fence, separators: m.1, buffer, kids: m.0 }
            },
        }
    }
}

pub open spec fn pruned_all(
    config: CowBeTreeConfig,
    kids: Seq<TreeView>,
    watermark: u64,
) -> Seq<TreeView>
    decreases kids,
{
    if kids.len() == 0 {
        Seq::empty()
    } else {
        pruned_all(config, kids.drop_last(), watermark).push(
            pruned_tree(config, kids.last(), watermark),
        )
    }
}

pub proof fn pruned_each(config: CowBeTreeConfig, kids: Seq<TreeView>, watermark: u64)
    ensures
        pruned_all(config, kids, watermark).len() == kids.len(),
        forall|i: int|
            0 <= i < kids.len() ==> #[trigger] pruned_all(config, kids, watermark)[i]
                == pruned_tree(config, kids[i], watermark),
    decreases kids.len(),
{
    if kids.len() > 0 {
        pruned_each(config, kids.drop_last(), watermark);
        assert forall|i: int| 0 <= i < kids.len() implies #[trigger] pruned_all(
            config,
            kids,
            watermark,
        )[i] == pruned_tree(config, kids[i], watermark) by {
            if i < kids.len() - 1 {
                assert(pruned_all(config, kids.drop_last(), watermark)[i] == pruned_tree(
                    config,
                    kids.drop_last()[i],
                    watermark,
                ));
            }
        }
    }
}

/// Alike trees are pruned alike.
pub proof fn alike_pruned(config: CowBeTreeConfig, a: TreeView, b: TreeView, watermark: u64)
    requires
        shape::alike(a, b),
    ensures
        shape::alike(pruned_tree(config, a, watermark), pruned_tree(config, b, watermark)),
    decreases a,
{
    alike_result(a, b, watermark);
    if a is Node && tree_result(a, watermark).versions_pruned != 0 {
        let x = pruned_all(config, a->kids, watermark);
        let y = pruned_all(config, b->kids, watermark);
        pruned_each(config, a->kids, watermark);
        pruned_each(config, b->kids, watermark);
        assert forall|i: int|
            #![trigger x[i]]
            #![trigger y[i]]
            0 <= i < x.len() implies shape::alike(x[i], y[i]) by {
            assert(shape::alike(a->kids[i], b->kids[i]));
            alike_pruned(config, a->kids[i], b->kids[i], watermark);
        }
        compact::alike_merges(config, x, y, a->separators, 0);
    }
}

proof fn sums_associate(a: CowBeTreeGcResult, b: CowBeTreeGcResult, c: CowBeTreeGcResult)
    ensures
        gc::sum_results(gc::sum_results(a, b), c) == gc::sum_results(a, gc::sum_results(b, c)),
        gc::sum_results(a, gc::no_result()) == a,
{
}

/// Prune all leaves of a tree, and merge what has become small. A node with
/// messages in its buffer is flushed instead. The second result says whether
/// anything changed.
#[verifier::rlimit(60)]
#[verifier::spinoff_prover]
pub fn prune_versions_page(
    pool: &mut PagePool,
    config: &CowBeTreeConfig,
    pid: u64,
    watermark: u64,
    result: &mut CowBeTreeGcResult,
    hint: &mut u64,
    Ghost(t): Ghost<TreeView>,
    Ghost(h): Ghost<nat>,
) -> (r: Result<(Rewrite, bool), CowBeTreeError>)
    requires
        old(pool).wf(),
        shape::rep(old(pool).view().pages, t),
        shape::wf(t, h),
        pid == shape::pid_of(t),
    ensures
        final(pool).wf(),
        final(result).versions_pruned >= old(result).versions_pruned,
        match r {
            Ok((rw, changed)) => {
                &&& gc::tree_pruned(old(pool).view(), final(pool).view(), rw, t, h, watermark)
                &&& !changed ==> final(pool).view() == old(pool).view() && rw is One
                    && rw->tree@ == t && rw->pid == pid
                &&& rw is Split ==> (rw->left_pid == pid <==> work::own_root(old(pool).view(), t))
                &&& rw is One && work::own_root(old(pool).view(), t) ==> rw->pid == pid
                &&& final(result).versions_pruned == 0 ==> shape::refine(
                    shape::forest_recs(leaf_work::kids_of(rw)),
                    shape::tree_recs(t),
                )
                &&& shape::unbuffered(t) ==> only_needed(
                    leaf_work::kids_of(rw),
                    shape::tree_recs(t),
                    watermark,
                )
                &&& shape::unbuffered(t) ==> *final(result) == gc::sum_results(
                    *old(result),
                    tree_result(t, watermark),
                )
            },
            Err(_) => rewrite::failed(old(pool).view(), final(pool).view(), shape::tree_pids(t)),
        },
        shape::settled(t, config.max_internal_children) ==> {
            &&& r is Ok
            &&& r->Ok_0.0 is One
            &&& shape::alike(r->Ok_0.0->tree@, pruned_tree(*config, t, watermark))
            &&& r->Ok_0.1 == (tree_result(t, watermark).versions_pruned != 0)
        },
        reclaim::came_out(
            r,
            *final(result),
            reclaim::pruned(*config, course::bare(t), h, watermark, *old(result)),
        ),
    decreases h,
{
    let ghost s0 = pool.view();
    let ghost all = shape::tree_pids(t);
    let ghost max = config.max_internal_children;
    let ghost calm = shape::settled(t, max);
    proof {
        pool::step_refl(s0, all);
        rewrite::failed_if(s0, s0, all, all);
        shape::alike_refl(t);
        course::bare_node(t);
    }
    let (fence, mut children, mut separators, buffer) = match pool.read_node(pid)? {
        NodePage::Leaf { fence, entries } => {
            let mut entries = entries;
            let mut page_result = gc::prune_entries(&mut entries, watermark);
            page_result.leaf_pages_visited = 1;
            proof {
                gc::pruned_leaf(t->entries, fence@, watermark);
                shape::tree_parts(t);
            }
            if page_result.versions_pruned == 0 {
                result.add_assign(page_result);
                let rw = Rewrite::One { pid, tree: Ghost(t) };
                proof {
                    gc::pruned_same(s0, rw, h, watermark);
                    course::out_trees(rw);
                }
                return Ok((rw, false));
            }
            let own: u64 = work::ensure_mutable(pool, pid, Ghost(t), Ghost(h))?;
            let ghost s1 = pool.view();
            let ghost t1 = work::with_pid(t, own);
            proof {
                rewrite::failed_if(s0, s1, all, shape::tree_pids(t1));
            }
            proof {
                work::read_node_fits(s0.pages[pid as int]);
                smaller::pruned_leaf_fits(fence@, t->entries, watermark);
            }
            work::write_leaf_at(pool, own, &fence, entries.as_slice())?;
            let rw = Rewrite::One {
                pid: own,
                tree: Ghost(
                    TreeView::Leaf {
                        pid: own,
                        fence: fence@,
                        entries: gc::pruned_entries(t->entries, watermark),
                    },
                ),
            };
            proof {
                gc::leaf_was_pruned(s0, s1, pool.view(), t, own, rw, watermark);
                course::out_trees(rw);
            }
            page_result.leaf_pages_rewritten = 1;
            result.add_assign(page_result);
            return Ok((rw, true));
        },
        NodePage::Internal { fence, children, separators, buffer } => (
            fence,
            children,
            separators,
            buffer,
        ),
    };
    let ghost kids = t->kids;
    let ghost kh = (h - 1) as nat;
    proof {
        shape::wf_node(t, h);
        flush::node_is_tree(t);
    }
    if buffer.len() > 0 {
        let r = flush_first(
            pool,
            config,
            pid,
            &fence,
            children,
            separators,
            buffer,
            hint,
            Ghost(t),
            Ghost(h),
            Ghost(watermark),
        );
        return match r {
            Ok(rw) => Ok((rw, true)),
            Err(e) => Err(e),
        };
    }
    proof {
        assert(t->buffer =~= Seq::<MessageView>::empty());
        assert(shape::message_recs(t->buffer) =~= Set::<MessageView>::empty());
        assert(shape::tree_recs(t) =~= shape::forest_recs(kids));
        pool::step_refl(s0, shape::forest_pids(kids));
        gc::keeps_needed_same(shape::forest_recs(kids), watermark);
        shape::refine_refl(shape::forest_recs(kids));
        assert(kids.take(0) =~= Seq::<TreeView>::empty());
        assert(shape::forest_recs(kids.take(0)) =~= Set::<MessageView>::empty());
        assert(kids.skip(0) =~= kids);
        sums_associate(*result, gc::no_result(), gc::no_result());
        if calm {
            compact::settled_stays_whole(s0, t, max);
            shape::settled_unbuffered(t, max);
        }
    }
    let mut changed = false;
    let mut idx: usize = 0;
    let ghost mut now = kids;
    let ghost mut done: int = 0;
    let ghost below = reclaim::each_pruned(
        *config,
        reclaim::stand(t->separators, kids, *result, false),
        0,
        kh,
        watermark,
    );
    while idx < children.len()
        invariant
            pool.wf(),
            h > 0,
            kh == h - 1,
            idx <= children@.len(),
            s0 == old(pool).view(),
            0 < pid < s0.pages.len(),
            t is Node,
            kids == t->kids,
            shape::forest(fence@, t->separators, kids, kh),
            all == shape::tree_pids(t),
            all == rewrite::node_pids(pid, kids),
            children@ == shape::pids_of(now),
            gc::forest_pruned(
                s0,
                pool.view(),
                fence@,
                kh,
                kids,
                node::keys_view(separators@),
                now,
                watermark,
            ),
            result.versions_pruned >= old(result).versions_pruned,
            result.versions_pruned == 0 ==> shape::refine(
                shape::forest_recs(now),
                shape::forest_recs(kids),
            ),
            0 <= done <= kids.len(),
            now.skip(idx as int) == kids.skip(done),
            shape::unbuffered(t) ==> only_needed(
                now.take(idx as int),
                shape::forest_recs(kids),
                watermark,
            ),
            !changed ==> now == kids && pool.view() == s0,
            shape::unbuffered(t) ==> *result == gc::sum_results(
                *old(result),
                forest_result(kids.take(done), watermark),
            ),
            max == config.max_internal_children,
            calm == shape::settled(t, max),
            calm ==> {
                &&& now.len() == kids.len() <= max
                &&& node::keys_view(separators@) == t->separators
                &&& forall|j: int| idx <= j < now.len() ==> shape::settled(#[trigger] now[j], max)
                &&& done == idx
                &&& changed == (forest_result(kids.take(done), watermark).versions_pruned != 0)
                &&& forall|j: int|
                    0 <= j < idx ==> shape::alike(
                        #[trigger] now[j],
                        pruned_tree(*config, kids[j], watermark),
                    )
            },
            calm ==> shape::unbuffered(t),
            below == reclaim::each_pruned(
                *config,
                reclaim::stand(node::keys_view(separators@), now, *result, changed),
                idx as int,
                kh,
                watermark,
            ),
            below matches Err(e) ==> reclaim::pruned(
                *config,
                course::bare(t),
                h,
                watermark,
                *old(result),
            ) == Err::<reclaim::Pruned, CowBeTreeError>(e),
        decreases children@.len() - idx,
    {
        let ghost sa = pool.view();
        let ghost sp = node::keys_view(separators@);
        let ghost i = idx as int;
        let old_pid: u64 = children[idx];
        proof {
            assert(children@[i] == shape::pid_of(now[i]));
            assert(shape::rep(sa.pages, now[i]));
            assert(shape::wf(now[i], kh));
            assert(now.skip(i).len() == kids.skip(done).len());
            assert(now[i] == now.skip(i)[0]);
            assert(kids[done] == kids.skip(done)[0]);
            assert(course::bare_all(now)[i] == course::bare(now[i]));
        }
        let r = prune_versions_page(
            pool,
            config,
            old_pid,
            watermark,
            result,
            hint,
            Ghost(now[i]),
            Ghost(kh),
        );
        let ghost sb = pool.view();
        let (rw, child_changed) = match r {
            Ok(pair) => pair,
            Err(e) => {
                proof {
                    gc::forest_pruned_fails(
                        s0,
                        sa,
                        sb,
                        pid,
                        fence@,
                        kh,
                        kids,
                        sp,
                        now,
                        i,
                        watermark,
                    );
                }
                return Err(e);
            },
        };
        if child_changed {
            changed = true;
        }
        match &rw {
            Rewrite::One { pid: p, .. } => {
                if *p != old_pid {
                    changed = true;
                }
            },
            Rewrite::Split { .. } => {
                changed = true;
            },
        }
        let ghost k2 = leaf_work::kids_of(rw);
        let ghost now2 = shape::spliced_kids(now, i, i + 1, k2);
        proof {
            gc::forest_pruned_more(s0, sa, sb, fence@, kh, kids, sp, now, i, rw, watermark);
            course::bare_spliced(sp, now, i, rw);
            if shape::unbuffered(t) {
                assert(shape::unbuffered(kids[done]));
                assert(kids.take(done + 1).drop_last() =~= kids.take(done));
                assert(kids.take(done + 1).last() == kids[done]);
                sums_associate(
                    *old(result),
                    forest_result(kids.take(done), watermark),
                    tree_result(kids[done], watermark),
                );
                needed_grows(
                    fence@,
                    t->separators,
                    kids,
                    kh,
                    done,
                    now.take(i),
                    k2,
                    watermark,
                );
            }
            if !changed {
                assert(now2 =~= now);
            }
            if calm {
                assert(shape::settled(now[i], max));
                compact::one_in_place(now, sp, i, rw);
                assert forall|j: int| 0 <= j < idx + 1 implies shape::alike(
                    #[trigger] now2[j],
                    pruned_tree(*config, kids[j], watermark),
                ) by {
                    if j < idx {
                        assert(shape::alike(now[j], pruned_tree(*config, kids[j], watermark)));
                    }
                }
            }
            assert(now2.skip(i + k2.len()) =~= kids.skip(done + 1)) by {
                assert(now.skip(i + 1) =~= now.skip(i).skip(1));
                assert(kids.skip(done + 1) =~= kids.skip(done).skip(1));
            }
        }
        let added: usize = flush::install_child_rewrite(
            &mut children,
            &mut separators,
            idx,
            rw,
        )?;
        proof {
            assert(children@ =~= shape::pids_of(now2));
            assert(added + 1 == k2.len());
            now = now2;
            done = done + 1;
        }
        let count: usize = children.len();
        assert(idx + 1 + added <= count);
        idx = idx + 1 + added;
    }
    proof {
        assert(now.take(idx as int) =~= now);
        assert(now.skip(idx as int).len() == 0);
        assert(kids.take(done) =~= kids);
    }
    if !changed {
        let rw = Rewrite::One { pid, tree: Ghost(t) };
        proof {
            gc::pruned_same(s0, rw, h, watermark);
            course::out_trees(rw);
        }
        return Ok((rw, false));
    }
    let ghost s2 = pool.view();
    let ghost seps2 = node::keys_view(separators@);
    proof {
        if calm {
            smaller::other_children_fit(
                fence@,
                shape::pids_of(kids),
                t->separators,
                children@,
            );
            pruned_each(*config, kids, watermark);
            let goals = pruned_all(*config, kids, watermark);
            assert forall|j: int|
                #![trigger now[j]]
                #![trigger goals[j]]
                0 <= j < now.len() implies shape::alike(now[j], goals[j]) by {
                assert(shape::alike(now[j], pruned_tree(*config, kids[j], watermark)));
            }
            compact::alike_merges(*config, now, goals, t->separators, 0);
        }
    }
    let Ghost(kids3) = compact::merge_siblings(
        pool,
        config,
        &mut children,
        &mut separators,
        Ghost(fence@),
        Ghost(now),
        Ghost(kh),
    )?;
    let ghost s3 = pool.view();
    let ghost seps3 = node::keys_view(separators@);
    proof {
        drain::bare_merges(*config, now, seps2, kids3);
        if calm {
            compact::all_alike_trans(
                kids3,
                compact::merges(*config, now, t->separators, 0).0,
                compact::merges(
                    *config,
                    pruned_all(*config, kids, watermark),
                    t->separators,
                    0,
                ).0,
            );
        }
        pool::step_trans(
            s0,
            s2,
            s3,
            shape::forest_pids(kids),
            shape::forest_pids(now),
            shape::forest_pids(kids3),
        );
        shape::refine_refl(shape::forest_recs(kids3));
        assert(flush::forest_done(
            s0,
            s3,
            fence@,
            kh,
            kids,
            seps3,
            kids3,
            shape::forest_recs(kids3),
        ));
        flush::still_over(
            s0,
            s3,
            pid,
            fence@,
            kh,
            kids,
            seps3,
            kids3,
            shape::forest_recs(kids3),
            Seq::empty(),
        );
    }
    let own: u64 = work::ensure_mutable_page(pool, pid)?;
    let ghost s4 = pool.view();
    proof {
        flush::moved_over(
            s0,
            s3,
            s4,
            pid,
            own,
            fence@,
            kh,
            kids,
            seps3,
            kids3,
            shape::forest_recs(kids3),
            Seq::empty(),
        );
    }
    let r = rewrite::rewrite_internal_empty_buffer(
        pool,
        config,
        own,
        &fence,
        children.as_slice(),
        separators.as_slice(),
        Ghost(kids3),
        Ghost(kh),
    );
    match r {
        Ok(rw) => {
            proof {
                gc::node_was_pruned(
                    s0,
                    s4,
                    pool.view(),
                    rw,
                    t,
                    h,
                    rewrite::node_pids(own, kids3),
                    kids3,
                    watermark,
                );
            }
            Ok((rw, true))
        },
        Err(e) => {
            proof {
                pool::step_trans(
                    s0,
                    s4,
                    pool.view(),
                    all,
                    rewrite::node_pids(own, kids3),
                    Set::<u64>::empty(),
                );
            }
            Err(e)
        },
    }
}

/// Trees that hold only what is needed, and the trees that one more became.
proof fn needed_grows(
    fence: FenceView,
    separators: Seq<Seq<u8>>,
    kids: Seq<TreeView>,
    h: nat,
    j: int,
    front: Seq<TreeView>,
    k2: Seq<TreeView>,
    watermark: u64,
)
    requires
        shape::forest(fence, separators, kids, h),
        0 <= j < kids.len(),
        only_needed(front, shape::forest_recs(kids), watermark),
        only_needed(k2, shape::tree_recs(kids[j]), watermark),
    ensures
        only_needed(front + k2, shape::forest_recs(kids), watermark),
{
    shape::forest_parts(front, k2);
    assert forall|m: MessageView| #[trigger]
        shape::forest_recs(front + k2).contains(m) implies gc::needed(
        shape::forest_recs(kids),
        watermark,
    ).contains(m) by {
        if shape::forest_recs(k2).contains(m) {
            gc::needed_of_kid(fence, separators, kids, h, j, m, watermark);
        }
    }
}

/// Flush the buffer of a node, on a page of one's own.
fn flush_first(
    pool: &mut PagePool,
    config: &CowBeTreeConfig,
    pid: u64,
    fence: &Fence,
    children: Vec<u64>,
    separators: Vec<Vec<u8>>,
    buffer: Vec<crate::betree::message::BufferedMessage>,
    hint: &mut u64,
    Ghost(t): Ghost<TreeView>,
    Ghost(h): Ghost<nat>,
    Ghost(watermark): Ghost<u64>,
) -> (r: Result<Rewrite, CowBeTreeError>)
    requires
        old(pool).wf(),
        shape::rep(old(pool).view().pages, t),
        shape::wf(t, h),
        pid == shape::pid_of(t),
        t is Node,
        fence@ == shape::fence_of(t),
        children@ == shape::pids_of(t->kids),
        node::keys_view(separators@) == t->separators,
        message::messages_view(buffer@) == t->buffer,
    ensures
        final(pool).wf(),
        match r {
            Ok(rw) => {
                &&& gc::tree_pruned(old(pool).view(), final(pool).view(), rw, t, h, watermark)
                &&& shape::refine(
                    shape::forest_recs(leaf_work::kids_of(rw)),
                    shape::tree_recs(t),
                )
                &&& rw is Split ==> (rw->left_pid == pid <==> work::own_root(old(pool).view(), t))
                &&& rw is One && work::own_root(old(pool).view(), t) ==> rw->pid == pid
            },
            Err(_) => rewrite::failed(old(pool).view(), final(pool).view(), shape::tree_pids(t)),
        },
        course::came_out(
            r,
            course::flushed(
                *config,
                fence@,
                t->separators,
                t->buffer,
                course::bare_all(t->kids),
                (h - 1) as nat,
            ),
        ),
{
    let ghost s0 = pool.view();
    let ghost all = shape::tree_pids(t);
    let ghost recs = shape::tree_recs(t);
    let own: u64 = work::ensure_mutable(pool, pid, Ghost(t), Ghost(h))?;
    let ghost s1 = pool.view();
    let ghost t1 = work::with_pid(t, own);
    proof {
        shape::wf_node(t1, h);
        flush::node_is_tree(t1);
        shape::refine_refl(recs);
        course::buffered_are_sized(s1.pages[own as int], t1);
    }
    let r = flush::flush_internal(
        pool,
        config,
        own,
        fence,
        children,
        separators,
        buffer,
        hint,
        Ghost(t->kids),
        Ghost((h - 1) as nat),
    );
    match r {
        Ok(rw) => {
            proof {
                rewrite::outcome_after(
                    s0,
                    s1,
                    pool.view(),
                    rw,
                    fence@,
                    h,
                    all,
                    shape::tree_pids(t1),
                    recs,
                    recs,
                );
                gc::pruned_by_work(s0, pool.view(), rw, t, h, watermark);
            }
            Ok(rw)
        },
        Err(e) => {
            proof {
                pool::step_trans(
                    s0,
                    s1,
                    pool.view(),
                    all,
                    shape::tree_pids(t1),
                    Set::<u64>::empty(),
                );
            }
            Err(e)
        },
    }
}

// ---------------------------------------------------------------------------
// A few leaves at a time.

/// A pass over leaves: how many it may still visit, what it came to, and where
/// the next pass goes on.
pub struct IncrementalGcState {
    pub watermark: u64,
    pub remaining_leaf_pages: usize,
    pub result: CowBeTreeGcResult,
    pub next_key: Option<Vec<u8>>,
    pub reached_end: bool,
}

pub open spec fn opt_key(k: Option<Vec<u8>>) -> Option<Seq<u8>> {
    match k {
        Some(k) => Some(k@),
        None => None,
    }
}

/// The key is at or behind the start of the pass.
pub open spec fn at_or_behind(lower: Option<Seq<u8>>, key: Seq<u8>) -> bool {
    lower matches Some(l) ==> !bytes::lex_lt(key, l)
}

/// The pass has got past the key.
pub open spec fn passed(next: Option<Seq<u8>>, end: bool, key: Seq<u8>) -> bool {
    end || (next matches Some(n) && bytes::lex_lt(key, n))
}

/// The range from `lower` that the pass has got past holds only what is needed.
pub open spec fn passed_needed(
    kids: Seq<TreeView>,
    recs: Set<MessageView>,
    watermark: u64,
    lower: Option<Seq<u8>>,
    next: Option<Seq<u8>>,
    end: bool,
) -> bool {
    forall|m: MessageView| #[trigger]
        shape::forest_recs(kids).contains(m) && at_or_behind(lower, m.key) && passed(
            next,
            end,
            m.key,
        ) ==> gc::needed(recs, watermark).contains(m)
}

/// Where a pass stands when it comes to a tree under `fence`.
pub open spec fn arrives(
    fence: FenceView,
    lower: Option<Seq<u8>>,
    next: Option<Seq<u8>>,
) -> bool {
    &&& not_empty(fence)
    &&& lower matches Some(l) ==> node::in_fence(fence, l)
    &&& next matches Some(n) ==> (lower == Some(n)) || !bytes::lex_lt(fence.lower, n)
}

/// The range of the fence is not empty.
pub open spec fn not_empty(fence: FenceView) -> bool {
    fence.upper matches Some(u) ==> bytes::lex_lt(fence.lower, u)
}

/// The bound is not beyond the fence.
pub open spec fn within(fence: FenceView, next: Option<Seq<u8>>) -> bool {
    next matches Some(n) ==> (fence.upper matches Some(u) ==> !bytes::lex_lt(u, n))
}

pub fn copy_key(k: &Option<Vec<u8>>) -> (r: Option<Vec<u8>>)
    ensures
        opt_key(r) == opt_key(*k),
{
    match k {
        Some(k) => Some(bytes::copy_bytes(k.as_slice())),
        None => None,
    }
}

/// A leaf under the fence may hold keys at or behind `low`.
pub open spec fn may_hold(fence: FenceView, entries: Seq<EntryView>, low: Option<Seq<u8>>) -> bool {
    match low {
        None => true,
        Some(l) => match fence.upper {
            Some(u) => bytes::lex_lt(l, u),
            None => entries.len() > 0 && !bytes::lex_lt(entries[entries.len() - 1].key, l),
        },
    }
}

/// A leaf under the fence may hold keys at or behind `lower`.
pub fn leaf_may_contain_gc_cursor_or_later(
    fence: &Fence,
    entries: &[LeafEntry],
    lower: &Option<Vec<u8>>,
) -> (r: bool)
    ensures
        r == may_hold(fence@, node::entries_view(entries@), opt_key(*lower)),
{
    let lower: &[u8] = match lower {
        None => {
            return true;
        },
        Some(lower) => lower.as_slice(),
    };
    match &fence.upper {
        Some(upper) => bytes::key_less(lower, upper.as_slice()),
        None => entries.len() > 0 && !bytes::key_less(
            entries[entries.len() - 1].key.as_slice(),
            lower,
        ),
    }
}

/// A leaf that ends the range holds nothing at or behind the cursor.
proof fn nothing_behind(t: TreeView, l: Seq<u8>, m: MessageView)
    requires
        t is Leaf,
        shape::wf(t, 0),
        t->entries.len() > 0 ==> bytes::lex_lt(t->entries[t->entries.len() - 1].key, l),
        shape::has_rec(t, m),
    ensures
        bytes::lex_lt(m.key, l),
{
    broadcast use bytes::group_lex;

    let es = t->entries;
    let i = choose|i: int|
        #![trigger es[i]]
        0 <= i < es.len() && es[i].key == m.key && es[i].versions.contains(m.version);
    if i < es.len() - 1 {
        assert(bytes::lex_lt(es[i].key, es[es.len() - 1].key));
    }
}

/// Prune leaves of a tree from the cursor on, as many as the pass may still
/// visit. A node with messages in its buffer is flushed instead. The second
/// result says whether anything changed.
#[verifier::rlimit(40)]
#[verifier::spinoff_prover]
pub fn prune_versions_incremental_page(
    pool: &mut PagePool,
    config: &CowBeTreeConfig,
    pid: u64,
    lower: &Option<Vec<u8>>,
    state: &mut IncrementalGcState,
    hint: &mut u64,
    Ghost(t): Ghost<TreeView>,
    Ghost(h): Ghost<nat>,
) -> (r: Result<(Rewrite, bool), CowBeTreeError>)
    requires
        old(pool).wf(),
        shape::rep(old(pool).view().pages, t),
        shape::wf(t, h),
        pid == shape::pid_of(t),
        !old(state).reached_end,
        arrives(shape::fence_of(t), opt_key(*lower), opt_key(old(state).next_key)),
        old(state).result.leaf_pages_visited + old(state).remaining_leaf_pages <= usize::MAX,
    ensures
        final(pool).wf(),
        final(state).watermark == old(state).watermark,
        final(state).remaining_leaf_pages <= old(state).remaining_leaf_pages,
        final(state).result.leaf_pages_visited + final(state).remaining_leaf_pages == old(
            state,
        ).result.leaf_pages_visited + old(state).remaining_leaf_pages,
        final(state).result.versions_pruned >= old(state).result.versions_pruned,
        final(state).result.cursor_wrapped == old(state).result.cursor_wrapped,
        final(state).result.budget_exhausted == old(state).result.budget_exhausted,
        match r {
            Ok((rw, changed)) => {
                let w = old(state).watermark;
                let next = opt_key(final(state).next_key);
                let end = final(state).reached_end;
                &&& gc::tree_pruned(old(pool).view(), final(pool).view(), rw, t, h, w)
                &&& !changed ==> final(pool).view() == old(pool).view() && rw is One
                    && rw->tree@ == t
                &&& rw is Split ==> (rw->left_pid == pid <==> work::own_root(old(pool).view(), t))
                &&& rw is One && work::own_root(old(pool).view(), t) ==> rw->pid == pid
                &&& final(state).result.versions_pruned == 0 ==> shape::refine(
                    shape::forest_recs(leaf_work::kids_of(rw)),
                    shape::tree_recs(t),
                )
                &&& end ==> shape::fence_of(t).upper is None
                &&& next == opt_key(old(state).next_key) || within(shape::fence_of(t), next)
                &&& shape::unbuffered(t) ==> {
                    &&& passed_needed(
                        leaf_work::kids_of(rw),
                        shape::tree_recs(t),
                        w,
                        opt_key(*lower),
                        next,
                        end,
                    )
                    &&& !end && final(state).remaining_leaf_pages > 0 ==> next is Some && next
                        == shape::fence_of(t).upper
                }
            },
            Err(_) => rewrite::failed(old(pool).view(), final(pool).view(), shape::tree_pids(t)),
        },
        shape::settled(t, config.max_internal_children) ==> r is Ok && r->Ok_0.0 is One,
        reclaim::pass_came_out(
            r,
            *final(state),
            reclaim::swept(
                *config,
                course::bare(t),
                h,
                old(state).watermark,
                opt_key(*lower),
                reclaim::sweep_of(*old(state)),
            ),
        ),
    decreases h,
{
    let ghost s0 = pool.view();
    let ghost all = shape::tree_pids(t);
    let ghost w = state.watermark;
    let ghost max = config.max_internal_children;
    let ghost calm = shape::settled(t, max);
    let ghost low = opt_key(*lower);
    let ghost next0 = opt_key(state.next_key);
    let watermark: u64 = state.watermark;
    proof {
        pool::step_refl(s0, all);
        rewrite::failed_if(s0, s0, all, all);
        let rw = Rewrite::One { pid, tree: Ghost(t) };
        gc::pruned_same(s0, rw, h, w);
        shape::forest_of_one(t);
        nothing_passed(t, h, low, next0);
        course::bare_node(t);
        course::out_trees(rw);
    }
    let ghost goal = reclaim::swept(
        *config,
        course::bare(t),
        h,
        w,
        low,
        reclaim::sweep_of(*state),
    );
    if state.remaining_leaf_pages == 0 || state.reached_end {
        let rw = Rewrite::One { pid, tree: Ghost(t) };
        return Ok((rw, false));
    }
    let (fence, children, separators, buffer) = match pool.read_node(pid)? {
        NodePage::Leaf { fence, entries } => {
            return prune_incremental_leaf(
                pool,
                pid,
                &fence,
                entries,
                lower,
                state,
                Ghost(t),
            );
        },
        NodePage::Internal { fence, children, separators, buffer } => (
            fence,
            children,
            separators,
            buffer,
        ),
    };
    let ghost kids = t->kids;
    let ghost seps = t->separators;
    let ghost kh = (h - 1) as nat;
    proof {
        shape::wf_node(t, h);
        flush::node_is_tree(t);
    }
    if buffer.len() > 0 {
        let r = flush_first(
            pool,
            config,
            pid,
            &fence,
            children,
            separators,
            buffer,
            hint,
            Ghost(t),
            Ghost(h),
            Ghost(w),
        );
        return match r {
            Ok(rw) => Ok((rw, true)),
            Err(e) => Err(e),
        };
    }
    let mut children = children;
    let mut separators = separators;
    let start_idx: usize = match lower {
        Some(l) => node::route_child(separators.as_slice(), l.as_slice()),
        None => 0,
    };
    if start_idx >= children.len() {
        proof {
            assert(false);
        }
        state.reached_end = true;
        let rw = Rewrite::One { pid, tree: Ghost(t) };
        return Ok((rw, false));
    }
    let ghost start = start_idx as int;
    proof {
        assert(t->buffer =~= Seq::<MessageView>::empty());
        assert(shape::message_recs(t->buffer) =~= Set::<MessageView>::empty());
        assert(shape::tree_recs(t) =~= shape::forest_recs(kids));
        pool::step_refl(s0, shape::forest_pids(kids));
        gc::keeps_needed_same(shape::forest_recs(kids), w);
        shape::refine_refl(shape::forest_recs(kids));
    }
    let mut changed = false;
    let mut idx: usize = start_idx;
    let ghost mut now = kids;
    let ghost mut done: int = start;
    let ghost unb = shape::unbuffered(t);
    let no_lower: Option<Vec<u8>> = None;
    let ghost pass = Pass { s0, fence: fence@, seps, kids, h: kh, w, low, next0, start, unb };
    let ghost below = reclaim::each_swept(
        *config,
        reclaim::swept_so_far(seps, kids, *state, false),
        start,
        low,
        kh,
        w,
    );
    proof {
        if calm {
            compact::settled_stays_whole(s0, t, max);
        }
        pass_starts(pass, state.remaining_leaf_pages > 0);
    }
    while idx < children.len() && state.remaining_leaf_pages > 0 && !state.reached_end
        invariant
            pool.wf(),
            h > 0,
            kh == h - 1,
            start == start_idx,
            start <= idx <= children@.len(),
            s0 == old(pool).view(),
            t is Node,
            kids == t->kids,
            unb == shape::unbuffered(t),
            pass == (Pass { s0, fence: fence@, seps, kids, h: kh, w, low, next0, start, unb }),
            all == shape::tree_pids(t),
            all == rewrite::node_pids(pid, kids),
            children@ == shape::pids_of(now),
            pass_at(
                pass,
                pool.view(),
                node::keys_view(separators@),
                now,
                idx as int,
                done,
                opt_key(state.next_key),
                state.reached_end,
                state.remaining_leaf_pages > 0,
            ),
            w == old(state).watermark,
            state.watermark == w,
            low == opt_key(*lower),
            opt_key(no_lower) is None,
            state.remaining_leaf_pages <= old(state).remaining_leaf_pages,
            state.result.leaf_pages_visited + state.remaining_leaf_pages == old(
                state,
            ).result.leaf_pages_visited + old(state).remaining_leaf_pages,
            old(state).result.leaf_pages_visited + old(state).remaining_leaf_pages <= usize::MAX,
            state.result.versions_pruned >= old(state).result.versions_pruned,
            state.result.cursor_wrapped == old(state).result.cursor_wrapped,
            state.result.budget_exhausted == old(state).result.budget_exhausted,
            state.result.versions_pruned == 0 ==> shape::refine(
                shape::forest_recs(now),
                shape::forest_recs(kids),
            ),
            !changed ==> now == kids && pool.view() == s0,
            seps == t->separators,
            max == config.max_internal_children,
            calm == shape::settled(t, max),
            calm ==> {
                &&& now.len() == kids.len() <= max
                &&& node::keys_view(separators@) == seps
                &&& seps.len() + 1 == kids.len()
                &&& forall|j: int| idx <= j < now.len() ==> shape::settled(#[trigger] now[j], max)
            },
            below == reclaim::each_swept(
                *config,
                reclaim::swept_so_far(node::keys_view(separators@), now, *state, changed),
                idx as int,
                if idx == start_idx {
                    low
                } else {
                    None
                },
                kh,
                w,
            ),
            below matches Err(e) ==> goal == Err::<reclaim::Swept, CowBeTreeError>(e),
            goal == reclaim::swept(
                *config,
                course::bare(t),
                h,
                w,
                low,
                reclaim::sweep_of(*old(state)),
            ),
        decreases children@.len() - idx,
    {
        let ghost sa = pool.view();
        let ghost sp = node::keys_view(separators@);
        let ghost i = idx as int;
        let ghost na = opt_key(state.next_key);
        let old_pid: u64 = children[idx];
        let ghost child_low = if i == start {
            low
        } else {
            None
        };
        let ghost child = now[i];
        proof {
            assert(children@[i] == shape::pid_of(now[i]));
            pass_comes(pass, sa, sp, now, i, done, na);
            assert(course::bare_all(now)[i] == course::bare(now[i]));
            if unb {
                assert(shape::unbuffered(kids[done]));
            }
        }
        let r = if idx != start_idx {
            prune_versions_incremental_page(
                pool,
                config,
                old_pid,
                &no_lower,
                state,
                hint,
                Ghost(child),
                Ghost(kh),
            )
        } else {
            prune_versions_incremental_page(
                pool,
                config,
                old_pid,
                lower,
                state,
                hint,
                Ghost(child),
                Ghost(kh),
            )
        };
        let ghost sb = pool.view();
        let ghost nb = opt_key(state.next_key);
        let ghost eb = state.reached_end;
        let (rw, child_changed) = match r {
            Ok(pair) => pair,
            Err(e) => {
                proof {
                    pass_fails(pass, sa, sb, pid, sp, now, i, done, na);
                }
                return Err(e);
            },
        };
        if child_changed {
            changed = true;
        }
        match &rw {
            Rewrite::One { pid: p, .. } => {
                if *p != old_pid {
                    changed = true;
                }
            },
            Rewrite::Split { .. } => {
                changed = true;
            },
        }
        let ghost now2 = shape::spliced_kids(now, i, i + 1, leaf_work::kids_of(rw));
        proof {
            pass_goes_on(
                pass,
                sa,
                sb,
                sp,
                now,
                i,
                done,
                na,
                rw,
                nb,
                eb,
                state.remaining_leaf_pages > 0,
            );
            course::bare_spliced(sp, now, i, rw);
            if !changed {
                assert(now2 =~= now);
            }
            if calm {
                assert(shape::settled(now[i], max));
                compact::one_in_place(now, sp, i, rw);
            }
        }
        let ghost added_kids = leaf_work::kids_of(rw).len() as int;
        let added: usize = flush::install_child_rewrite(
            &mut children,
            &mut separators,
            idx,
            rw,
        )?;
        proof {
            assert(children@ =~= shape::pids_of(now2));
            assert(added + 1 == added_kids);
            now = now2;
            done = done + 1;
        }
        let count: usize = children.len();
        assert(idx + 1 + added <= count);
        idx = idx + 1 + added;
    }
    let ghost nend = opt_key(state.next_key);
    let ghost end = state.reached_end;
    let ghost sp_end = node::keys_view(separators@);
    proof {
        pass_ends(
            pass,
            pool.view(),
            sp_end,
            now,
            idx as int,
            done,
            nend,
            end,
            state.remaining_leaf_pages > 0,
        );
    }
    if !changed {
        let rw = Rewrite::One { pid, tree: Ghost(t) };
        proof {
            assert(leaf_work::kids_of(rw) =~= seq![t]);
        }
        return Ok((rw, false));
    }
    let ghost s3 = pool.view();
    proof {
        shape::refine_refl(shape::forest_recs(now));
        assert(flush::forest_done(
            s0,
            s3,
            fence@,
            kh,
            kids,
            sp_end,
            now,
            shape::forest_recs(now),
        ));
        flush::still_over(
            s0,
            s3,
            pid,
            fence@,
            kh,
            kids,
            sp_end,
            now,
            shape::forest_recs(now),
            Seq::empty(),
        );
    }
    let own: u64 = work::ensure_mutable_page(pool, pid)?;
    let ghost s4 = pool.view();
    proof {
        flush::moved_over(
            s0,
            s3,
            s4,
            pid,
            own,
            fence@,
            kh,
            kids,
            sp_end,
            now,
            shape::forest_recs(now),
            Seq::empty(),
        );
        assert(message::messages_view(buffer@) =~= Seq::<MessageView>::empty());
        assert(rewrite::node_recs(Seq::empty(), now) =~= shape::forest_recs(now));
        if calm {
            smaller::other_children_fit(fence@, shape::pids_of(kids), seps, children@);
        }
    }
    let r = rewrite::rewrite_internal_preserving_buffer(
        pool,
        config,
        own,
        &fence,
        children.as_slice(),
        separators.as_slice(),
        buffer.as_slice(),
        Ghost(now),
        Ghost(kh),
    );
    match r {
        Ok(rw) => {
            proof {
                gc::node_was_pruned(
                    s0,
                    s4,
                    pool.view(),
                    rw,
                    t,
                    h,
                    rewrite::node_pids(own, now),
                    now,
                    w,
                );
            }
            Ok((rw, true))
        },
        Err(e) => {
            proof {
                pool::step_trans(
                    s0,
                    s4,
                    pool.view(),
                    all,
                    rewrite::node_pids(own, now),
                    Set::<u64>::empty(),
                );
            }
            Err(e)
        },
    }
}

/// What a pass over the children of a node is about.
pub struct Pass {
    pub s0: PoolView,
    pub fence: FenceView,
    pub seps: Seq<Seq<u8>>,
    pub kids: Seq<TreeView>,
    pub h: nat,
    pub w: u64,
    pub low: Option<Seq<u8>>,
    pub next0: Option<Seq<u8>>,
    pub start: int,
    pub unb: bool,
}

/// A pass over the children of a node can be made.
pub open spec fn pass_ok(p: Pass) -> bool {
    &&& shape::forest(p.fence, p.seps, p.kids, p.h)
    &&& arrives(p.fence, p.low, p.next0)
    &&& 0 <= p.start < p.kids.len()
    &&& p.low matches Some(l) ==> node::route(p.seps, l) == p.start
    &&& p.low is None ==> p.start == 0
}

/// The pass has come to tree `i` of the trees that the children have become.
#[verifier::opaque]
pub open spec fn pass_at(
    p: Pass,
    s: PoolView,
    sp: Seq<Seq<u8>>,
    now: Seq<TreeView>,
    i: int,
    done: int,
    next: Option<Seq<u8>>,
    end: bool,
    more: bool,
) -> bool {
    &&& pass_ok(p)
    &&& gc::forest_pruned(p.s0, s, p.fence, p.h, p.kids, sp, now, p.w)
    &&& p.start <= i <= now.len()
    &&& 0 <= done <= p.kids.len()
    &&& now.skip(i) == p.kids.skip(done)
    &&& i == p.start ==> !end && next == p.next0 && now == p.kids && done == p.start
    &&& i > p.start ==> reached_upto(now[i - 1], next, end)
    &&& i > p.start && p.unb && !end && more ==> next is Some && next == shape::fence_of(
        now[i - 1],
    ).upper
    &&& next == p.next0 || within(p.fence, next)
    &&& p.unb ==> passed_needed(
        now.take(i),
        shape::forest_recs(p.kids),
        p.w,
        p.low,
        next,
        end,
    )
}

proof fn pass_starts(p: Pass, more: bool)
    requires
        pass_ok(p),
        pool::pool_ok(p.s0),
        shape::rep_all(p.s0.pages, p.kids),
    ensures
        pass_at(p, p.s0, p.seps, p.kids, p.start, p.start, p.next0, false, more),
{
    reveal(pass_at);
    pool::step_refl(p.s0, shape::forest_pids(p.kids));
    gc::keeps_needed_same(shape::forest_recs(p.kids), p.w);
    before_start(p.fence, p.seps, p.kids, p.h, p.start, p.low, p.next0, p.w);
}

/// The pass comes to one more child.
proof fn pass_comes(
    p: Pass,
    s: PoolView,
    sp: Seq<Seq<u8>>,
    now: Seq<TreeView>,
    i: int,
    done: int,
    next: Option<Seq<u8>>,
)
    requires
        pass_at(p, s, sp, now, i, done, next, false, true),
        i < now.len(),
    ensures
        0 <= done < p.kids.len(),
        now[i] == p.kids[done],
        shape::rep(s.pages, now[i]),
        shape::wf(now[i], p.h),
        now.len() == sp.len() + 1,
        arrives(
            shape::fence_of(now[i]),
            if i == p.start {
                p.low
            } else {
                None
            },
            next,
        ),
{
    reveal(pass_at);
    assert(now.skip(i).len() == p.kids.skip(done).len());
    assert(now[i] == now.skip(i)[0]);
    assert(p.kids[done] == p.kids.skip(done)[0]);
    let child_low = if i == p.start {
        p.low
    } else {
        None
    };
    arrives_at_child(p.fence, p.seps, p.kids, sp, now, p.h, i, p.start, p.low, next, child_low);
}

proof fn pass_fails(
    p: Pass,
    sa: PoolView,
    sb: PoolView,
    pid: u64,
    sp: Seq<Seq<u8>>,
    now: Seq<TreeView>,
    i: int,
    done: int,
    next: Option<Seq<u8>>,
)
    requires
        pass_at(p, sa, sp, now, i, done, next, false, true),
        i < now.len(),
        rewrite::failed(sa, sb, shape::tree_pids(now[i])),
    ensures
        rewrite::failed(p.s0, sb, rewrite::node_pids(pid, p.kids)),
{
    reveal(pass_at);
    gc::forest_pruned_fails(p.s0, sa, sb, pid, p.fence, p.h, p.kids, sp, now, i, p.w);
}

/// The pass goes on behind a child.
proof fn pass_goes_on(
    p: Pass,
    sa: PoolView,
    sb: PoolView,
    sp: Seq<Seq<u8>>,
    now: Seq<TreeView>,
    i: int,
    done: int,
    na: Option<Seq<u8>>,
    rw: Rewrite,
    nb: Option<Seq<u8>>,
    eb: bool,
    more: bool,
)
    requires
        pass_at(p, sa, sp, now, i, done, na, false, true),
        i < now.len(),
        0 <= done < p.kids.len(),
        now[i] == p.kids[done],
        gc::tree_pruned(sa, sb, rw, now[i], p.h, p.w),
        eb ==> shape::fence_of(now[i]).upper is None,
        nb == na || within(shape::fence_of(now[i]), nb),
        p.unb ==> passed_needed(
            leaf_work::kids_of(rw),
            shape::tree_recs(now[i]),
            p.w,
            if i == p.start {
                p.low
            } else {
                None
            },
            nb,
            eb,
        ),
        p.unb && !eb && more ==> nb is Some && nb == shape::fence_of(now[i]).upper,
    ensures
        ({
            let k2 = leaf_work::kids_of(rw);
            let now2 = shape::spliced_kids(now, i, i + 1, k2);
            let sp2 = shape::spliced_separators(sp, i, i + 1, leaf_work::separators_of(rw));
            &&& pass_at(p, sb, sp2, now2, i + k2.len(), done + 1, nb, eb, more)
            &&& shape::pids_of(now2) == shape::pids_of(now).take(i) + flush::rewrite_pids(rw)
                + shape::pids_of(now).skip(i + 1)
            &&& (shape::refine(shape::forest_recs(k2), shape::tree_recs(now[i])) && shape::refine(
                shape::forest_recs(now),
                shape::forest_recs(p.kids),
            ) ==> shape::refine(shape::forest_recs(now2), shape::forest_recs(p.kids)))
        }),
{
    let k2 = leaf_work::kids_of(rw);
    let now2 = shape::spliced_kids(now, i, i + 1, k2);
    let sp2 = shape::spliced_separators(sp, i, i + 1, leaf_work::separators_of(rw));
    assert(pass_ok(p)) by {
        reveal(pass_at);
    }
    pass_shape(p, sa, sb, sp, now, i, done, na, rw);
    pass_range(p, sa, sp, now, i, done, na, k2, nb, eb);
    assert(pass_at(p, sb, sp2, now2, i + k2.len(), done + 1, nb, eb, more)) by {
        reveal(pass_at);
    }
}

/// The trees after one more child was pruned.
proof fn pass_shape(
    p: Pass,
    sa: PoolView,
    sb: PoolView,
    sp: Seq<Seq<u8>>,
    now: Seq<TreeView>,
    i: int,
    done: int,
    na: Option<Seq<u8>>,
    rw: Rewrite,
)
    requires
        pass_at(p, sa, sp, now, i, done, na, false, true),
        i < now.len(),
        0 <= done < p.kids.len(),
        gc::tree_pruned(sa, sb, rw, now[i], p.h, p.w),
    ensures
        ({
            let k2 = leaf_work::kids_of(rw);
            let now2 = shape::spliced_kids(now, i, i + 1, k2);
            let sp2 = shape::spliced_separators(sp, i, i + 1, leaf_work::separators_of(rw));
            &&& 0 <= p.start <= i
            &&& k2.len() > 0
            &&& i + k2.len() <= now2.len()
            &&& gc::forest_pruned(p.s0, sb, p.fence, p.h, p.kids, sp2, now2, p.w)
            &&& now2.skip(i + k2.len()) == p.kids.skip(done + 1)
            &&& now2.take(i + k2.len()) == now.take(i) + k2
            &&& shape::fence_of(now2[i + k2.len() - 1]).upper == shape::fence_of(now[i]).upper
            &&& shape::pids_of(now2) == shape::pids_of(now).take(i) + flush::rewrite_pids(rw)
                + shape::pids_of(now).skip(i + 1)
            &&& (shape::refine(shape::forest_recs(k2), shape::tree_recs(now[i])) && shape::refine(
                shape::forest_recs(now),
                shape::forest_recs(p.kids),
            ) ==> shape::refine(shape::forest_recs(now2), shape::forest_recs(p.kids)))
        }),
{
    let k2 = leaf_work::kids_of(rw);
    let now2 = shape::spliced_kids(now, i, i + 1, k2);
    assert(gc::forest_pruned(p.s0, sa, p.fence, p.h, p.kids, sp, now, p.w) && 0 <= p.start <= i
        && now.skip(i) == p.kids.skip(done)) by {
        reveal(pass_at);
    }
    gc::forest_pruned_more(p.s0, sa, sb, p.fence, p.h, p.kids, sp, now, i, rw, p.w);
    last_of_child(shape::fence_of(now[i]), leaf_work::separators_of(rw), k2, p.h);
    skip_more(now, i, p.kids, done);
    spliced_last(now, i, k2);
}

proof fn skip_more(a: Seq<TreeView>, i: int, b: Seq<TreeView>, j: int)
    requires
        0 <= i < a.len(),
        0 <= j < b.len(),
        a.skip(i) == b.skip(j),
    ensures
        a.skip(i + 1) == b.skip(j + 1),
{
    assert(a.skip(i + 1) =~= a.skip(i).skip(1));
    assert(b.skip(j + 1) =~= b.skip(j).skip(1));
}

proof fn spliced_last(kids: Seq<TreeView>, i: int, k2: Seq<TreeView>)
    requires
        0 <= i < kids.len(),
        k2.len() > 0,
    ensures
        shape::spliced_kids(kids, i, i + 1, k2)[i + k2.len() - 1] == k2[k2.len() - 1],
        i + k2.len() <= shape::spliced_kids(kids, i, i + 1, k2).len(),
{
}

/// The range that was passed after one more child was pruned.
proof fn pass_range(
    p: Pass,
    sa: PoolView,
    sp: Seq<Seq<u8>>,
    now: Seq<TreeView>,
    i: int,
    done: int,
    na: Option<Seq<u8>>,
    k2: Seq<TreeView>,
    nb: Option<Seq<u8>>,
    eb: bool,
)
    requires
        pass_at(p, sa, sp, now, i, done, na, false, true),
        i < now.len(),
        0 <= done < p.kids.len(),
        now[i] == p.kids[done],
        eb ==> shape::fence_of(now[i]).upper is None,
        nb == na || within(shape::fence_of(now[i]), nb),
        p.unb ==> passed_needed(
            k2,
            shape::tree_recs(now[i]),
            p.w,
            if i == p.start {
                p.low
            } else {
                None
            },
            nb,
            eb,
        ),
    ensures
        within(shape::fence_of(now[i]), nb),
        within(p.fence, nb),
        p.unb ==> passed_needed(
            now.take(i) + k2,
            shape::forest_recs(p.kids),
            p.w,
            p.low,
            nb,
            eb,
        ),
{
    let child_low = if i == p.start {
        p.low
    } else {
        None
    };
    pass_comes(p, sa, sp, now, i, done, na);
    reveal(pass_at);
    passed_child(
        p.fence,
        p.seps,
        p.kids,
        sp,
        now,
        p.h,
        i,
        done,
        p.start,
        p.low,
        na,
        child_low,
        nb,
        eb,
        k2,
        p.w,
        p.unb,
    );
}

/// What the pass came to when it ends.
proof fn pass_ends(
    p: Pass,
    s: PoolView,
    sp: Seq<Seq<u8>>,
    now: Seq<TreeView>,
    i: int,
    done: int,
    next: Option<Seq<u8>>,
    end: bool,
    more: bool,
)
    requires
        pass_at(p, s, sp, now, i, done, next, end, more),
        i == now.len() || !more || end,
    ensures
        gc::forest_pruned(p.s0, s, p.fence, p.h, p.kids, sp, now, p.w),
        end ==> p.fence.upper is None,
        next == p.next0 || within(p.fence, next),
        p.unb ==> passed_needed(now, shape::forest_recs(p.kids), p.w, p.low, next, end),
        p.unb && !end && more ==> next is Some && next == p.fence.upper,
{
    reveal(pass_at);
    if p.unb {
        all_passed(
            p.fence,
            sp,
            now,
            p.h,
            i,
            p.start,
            p.low,
            next,
            end,
            shape::forest_recs(p.kids),
            p.w,
            p.seps,
            p.kids,
        );
    }
    if i > p.start {
        assert(shape::fence_of(now[i - 1]) == shape::child_fence(p.fence, sp, i - 1));
    }
}

/// The pass ended at the tree, or stands at most at its end.
pub open spec fn reached_upto(t: TreeView, next: Option<Seq<u8>>, end: bool) -> bool {
    &&& end ==> shape::fence_of(t).upper is None
    &&& within(shape::fence_of(t), next)
}

/// A pass that arrives at a tree has not got past any of its keys behind the
/// cursor.
proof fn nothing_passed(t: TreeView, h: nat, lower: Option<Seq<u8>>, next: Option<Seq<u8>>)
    requires
        shape::wf(t, h),
        arrives(shape::fence_of(t), lower, next),
    ensures
        forall|m: MessageView| #[trigger]
            shape::tree_recs(t).contains(m) && at_or_behind(lower, m.key) ==> !passed(
                next,
                false,
                m.key,
            ),
{
    broadcast use bytes::group_lex;

    assert forall|m: MessageView| #[trigger]
        shape::tree_recs(t).contains(m) && at_or_behind(lower, m.key) implies !passed(
        next,
        false,
        m.key,
    ) by {
        shape::recs_in_fence(t, h, m);
    }
}

/// The trees in front of the one that the cursor is routed to hold nothing
/// behind the cursor.
proof fn before_start(
    fence: FenceView,
    separators: Seq<Seq<u8>>,
    kids: Seq<TreeView>,
    h: nat,
    start: int,
    lower: Option<Seq<u8>>,
    next: Option<Seq<u8>>,
    watermark: u64,
)
    requires
        shape::forest(fence, separators, kids, h),
        0 <= start < kids.len(),
        lower matches Some(l) ==> node::route(separators, l) == start,
        lower is None ==> start == 0,
    ensures
        forall|m: MessageView| #[trigger]
            shape::forest_recs(kids.take(start)).contains(m) ==> !at_or_behind(lower, m.key),
        passed_needed(
            kids.take(start),
            shape::forest_recs(kids),
            watermark,
            lower,
            next,
            false,
        ),
{
    broadcast use bytes::group_lex;

    let front = kids.take(start);
    assert forall|m: MessageView| #[trigger]
        shape::forest_recs(front).contains(m) implies !at_or_behind(lower, m.key) by {
        let j = choose|j: int| 0 <= j < front.len() && shape::has_rec(#[trigger] front[j], m);
        assert(front[j] == kids[j]);
        shape::recs_in_fence(kids[j], h, m);
        node::route_splits(separators, lower->0);
        if j < start - 1 {
            assert(bytes::lex_lt(separators[j], separators[start - 1]));
        }
        assert(!bytes::lex_lt(lower->0, separators[start - 1]));
    }
}

/// Where a pass stands when it comes to a child.
proof fn arrives_at_child(
    fence: FenceView,
    seps: Seq<Seq<u8>>,
    kids: Seq<TreeView>,
    sp: Seq<Seq<u8>>,
    now: Seq<TreeView>,
    h: nat,
    i: int,
    start: int,
    lower: Option<Seq<u8>>,
    next: Option<Seq<u8>>,
    child_low: Option<Seq<u8>>,
)
    requires
        shape::forest(fence, seps, kids, h),
        shape::forest(fence, sp, now, h),
        0 <= start <= i < now.len(),
        start < kids.len(),
        lower matches Some(l) ==> node::route(seps, l) == start && node::in_fence(fence, l),
        lower is None ==> start == 0,
        child_low == (if i == start {
            lower
        } else {
            None
        }),
        not_empty(fence),
        i == start ==> now == kids && arrives(fence, lower, next),
        i > start ==> within(shape::fence_of(now[i - 1]), next),
    ensures
        arrives(shape::fence_of(now[i]), child_low, next),
{
    broadcast use bytes::group_lex;

    assert(shape::fence_of(now[i]) == shape::child_fence(fence, sp, i));
    child_not_empty(fence, sp, i);
    if i == start {
        assert(shape::fence_of(kids[i]) == shape::child_fence(fence, seps, i));
        if lower is Some {
            shape::route_to_child(fence, seps, lower->0);
        } else if next is Some {
            assert(i == 0);
        }
        if next is Some && lower != next {
            assert(!bytes::lex_lt(fence.lower, next->0));
            if i > 0 {
                assert(bytes::lex_lt(fence.lower, seps[i - 1]));
            }
        }
    } else {
        assert(shape::fence_of(now[i - 1]) == shape::child_fence(fence, sp, i - 1));
    }
}

/// The last of the trees that one became ends where it ended.
proof fn last_of_child(fence: FenceView, separators: Seq<Seq<u8>>, kids: Seq<TreeView>, h: nat)
    requires
        shape::forest(fence, separators, kids, h),
    ensures
        shape::fence_of(kids[kids.len() - 1]).upper == fence.upper,
{
    assert(shape::fence_of(kids[kids.len() - 1]) == shape::child_fence(
        fence,
        separators,
        kids.len() - 1,
    ));
}

/// One more child was passed, at least in part.
proof fn passed_child(
    fence: FenceView,
    seps: Seq<Seq<u8>>,
    kids: Seq<TreeView>,
    sp: Seq<Seq<u8>>,
    now: Seq<TreeView>,
    h: nat,
    i: int,
    done: int,
    start: int,
    lower: Option<Seq<u8>>,
    na: Option<Seq<u8>>,
    child_low: Option<Seq<u8>>,
    nb: Option<Seq<u8>>,
    eb: bool,
    k2: Seq<TreeView>,
    watermark: u64,
    unb: bool,
)
    requires
        shape::forest(fence, seps, kids, h),
        shape::forest(fence, sp, now, h),
        0 <= start <= i < now.len(),
        start < kids.len(),
        0 <= done < kids.len(),
        now[i] == kids[done],
        lower matches Some(l) ==> node::route(seps, l) == start && node::in_fence(fence, l),
        lower is None ==> start == 0,
        child_low == (if i == start {
            lower
        } else {
            None
        }),
        i == start ==> now == kids,
        i > start ==> within(shape::fence_of(now[i - 1]), na),
        i > start && unb ==> na is Some && na == shape::fence_of(now[i - 1]).upper,
        arrives(shape::fence_of(now[i]), child_low, na),
        eb ==> shape::fence_of(now[i]).upper is None,
        nb == na || within(shape::fence_of(now[i]), nb),
        unb ==> passed_needed(
            now.take(i),
            shape::forest_recs(kids),
            watermark,
            lower,
            na,
            false,
        ),
        unb ==> passed_needed(
            k2,
            shape::tree_recs(kids[done]),
            watermark,
            child_low,
            nb,
            eb,
        ),
    ensures
        within(shape::fence_of(now[i]), nb),
        within(fence, nb),
        eb ==> fence.upper is None,
        unb ==> passed_needed(
            now.take(i) + k2,
            shape::forest_recs(kids),
            watermark,
            lower,
            nb,
            eb,
        ),
{
    broadcast use bytes::group_lex;

    let fi = shape::fence_of(now[i]);
    assert(fi == shape::child_fence(fence, sp, i));
    // The bound stays within the child.
    if nb == na && na is Some {
        let n = na->0;
        if child_low == Some(n) {
            assert(node::in_fence(fi, n));
        } else {
            assert(!bytes::lex_lt(fi.lower, n));
        }
    }
    assert(within(fi, nb));
    if i < sp.len() {
        assert(fence.upper matches Some(u) ==> bytes::lex_lt(sp[i], u));
    }
    if unb {
        let front = now.take(i);
        shape::forest_parts(front, k2);
        assert forall|m: MessageView| #[trigger]
            shape::forest_recs(front + k2).contains(m) && at_or_behind(lower, m.key) && passed(
                nb,
                eb,
                m.key,
            ) implies gc::needed(shape::forest_recs(kids), watermark).contains(m) by {
            if shape::forest_recs(k2).contains(m) {
                assert(at_or_behind(child_low, m.key));
                assert(gc::needed(shape::tree_recs(kids[done]), watermark).contains(m));
                gc::needed_of_kid(fence, seps, kids, h, done, m, watermark);
            } else {
                assert(shape::forest_recs(front).contains(m));
                if i == start {
                    before_start(fence, seps, kids, h, start, lower, na, watermark);
                } else {
                    front_is_below(fence, sp, now, h, i, m);
                    assert(passed(na, false, m.key));
                }
            }
        }
    }
}

/// The range of a child is not empty.
proof fn child_not_empty(fence: FenceView, sp: Seq<Seq<u8>>, i: int)
    requires
        node::sorted_keys(sp),
        shape::separators_inside(fence, sp),
        0 <= i <= sp.len(),
        not_empty(fence),
    ensures
        not_empty(shape::child_fence(fence, sp, i)),
{
    if i > 0 && i < sp.len() {
        assert(bytes::lex_lt(sp[i - 1], sp[i]));
    } else if i > 0 {
        assert(fence.upper matches Some(u) ==> bytes::lex_lt(sp[i - 1], u));
    } else if i < sp.len() {
        assert(bytes::lex_lt(fence.lower, sp[i]));
    }
}

/// The keys of the trees in front of one lie below the end of the last of them.
proof fn front_is_below(
    fence: FenceView,
    sp: Seq<Seq<u8>>,
    now: Seq<TreeView>,
    h: nat,
    i: int,
    m: MessageView,
)
    requires
        shape::forest(fence, sp, now, h),
        0 < i < now.len(),
        shape::forest_recs(now.take(i)).contains(m),
    ensures
        shape::fence_of(now[i - 1]).upper matches Some(u) && bytes::lex_lt(m.key, u),
{
    broadcast use bytes::group_lex;

    let front = now.take(i);
    let j = choose|j: int| 0 <= j < front.len() && shape::has_rec(#[trigger] front[j], m);
    assert(front[j] == now[j]);
    shape::recs_in_fence(now[j], h, m);
    assert(shape::fence_of(now[j]) == shape::child_fence(fence, sp, j));
    assert(shape::fence_of(now[i - 1]) == shape::child_fence(fence, sp, i - 1));
    if j < i - 1 {
        assert(bytes::lex_lt(sp[j], sp[i - 1]));
    }
}

/// What a pass over the children says of all of them.
proof fn all_passed(
    fence: FenceView,
    sp: Seq<Seq<u8>>,
    now: Seq<TreeView>,
    h: nat,
    i: int,
    start: int,
    lower: Option<Seq<u8>>,
    next: Option<Seq<u8>>,
    end: bool,
    recs: Set<MessageView>,
    watermark: u64,
    seps: Seq<Seq<u8>>,
    kids: Seq<TreeView>,
)
    requires
        shape::forest(fence, sp, now, h),
        0 <= start <= i <= now.len(),
        passed_needed(now.take(i), recs, watermark, lower, next, end),
        i == start ==> !end && arrives(fence, lower, next) && now == kids,
        i > start ==> reached_upto(now[i - 1], next, end),
    ensures
        passed_needed(now, recs, watermark, lower, next, end),
{
    broadcast use bytes::group_lex;

    assert forall|m: MessageView| #[trigger]
        shape::forest_recs(now).contains(m) && at_or_behind(lower, m.key) && passed(
            next,
            end,
            m.key,
        ) implies gc::needed(recs, watermark).contains(m) by {
        let j = choose|j: int| 0 <= j < now.len() && shape::has_rec(#[trigger] now[j], m);
        if j < i {
            assert(now.take(i)[j] == now[j]);
            assert(shape::forest_recs(now.take(i)).contains(m));
        } else {
            shape::recs_in_fence(now[j], h, m);
            shape::child_is_routed(fence, sp, m.key, j);
            assert(shape::fence_of(now[j]) == shape::child_fence(fence, sp, j));
            if i > start {
                assert(shape::fence_of(now[i - 1]) == shape::child_fence(fence, sp, i - 1));
                assert(i - 1 < sp.len());
                if j > i {
                    assert(bytes::lex_lt(sp[i - 1], sp[j - 1]));
                }
            }
        }
    }
}

/// Prune one leaf in a pass.
fn prune_incremental_leaf(
    pool: &mut PagePool,
    pid: u64,
    fence: &Fence,
    entries: Vec<LeafEntry>,
    lower: &Option<Vec<u8>>,
    state: &mut IncrementalGcState,
    Ghost(t): Ghost<TreeView>,
) -> (r: Result<(Rewrite, bool), CowBeTreeError>)
    requires
        old(pool).wf(),
        shape::rep(old(pool).view().pages, t),
        shape::wf(t, 0),
        t is Leaf,
        pid == shape::pid_of(t),
        fence@ == shape::fence_of(t),
        node::entries_view(entries@) == t->entries,
        !old(state).reached_end,
        old(state).remaining_leaf_pages > 0,
        arrives(shape::fence_of(t), opt_key(*lower), opt_key(old(state).next_key)),
        old(state).result.leaf_pages_visited + old(state).remaining_leaf_pages <= usize::MAX,
    ensures
        final(pool).wf(),
        final(state).watermark == old(state).watermark,
        final(state).remaining_leaf_pages <= old(state).remaining_leaf_pages,
        final(state).result.leaf_pages_visited + final(state).remaining_leaf_pages == old(
            state,
        ).result.leaf_pages_visited + old(state).remaining_leaf_pages,
        final(state).result.versions_pruned >= old(state).result.versions_pruned,
        final(state).result.cursor_wrapped == old(state).result.cursor_wrapped,
        final(state).result.budget_exhausted == old(state).result.budget_exhausted,
        match r {
            Ok((rw, changed)) => {
                let w = old(state).watermark;
                let next = opt_key(final(state).next_key);
                let end = final(state).reached_end;
                &&& gc::tree_pruned(old(pool).view(), final(pool).view(), rw, t, 0, w)
                &&& !changed ==> final(pool).view() == old(pool).view() && rw is One
                    && rw->tree@ == t
                &&& rw is Split ==> (rw->left_pid == pid <==> work::own_root(old(pool).view(), t))
                &&& rw is One && work::own_root(old(pool).view(), t) ==> rw->pid == pid
                &&& final(state).result.versions_pruned == 0 ==> shape::refine(
                    shape::forest_recs(leaf_work::kids_of(rw)),
                    shape::tree_recs(t),
                )
                &&& end ==> shape::fence_of(t).upper is None
                &&& next == opt_key(old(state).next_key) || within(shape::fence_of(t), next)
                &&& passed_needed(
                    leaf_work::kids_of(rw),
                    shape::tree_recs(t),
                    w,
                    opt_key(*lower),
                    next,
                    end,
                )
                &&& !end && final(state).remaining_leaf_pages > 0 ==> next is Some && next
                    == shape::fence_of(t).upper
            },
            Err(_) => rewrite::failed(old(pool).view(), final(pool).view(), shape::tree_pids(t)),
        },
        r is Ok,
        r->Ok_0.0 is One,
        reclaim::pass_came_out(
            r,
            *final(state),
            Ok(
                reclaim::leaf_swept(
                    course::bare(t),
                    old(state).watermark,
                    opt_key(*lower),
                    reclaim::sweep_of(*old(state)),
                ),
            ),
        ),
{
    broadcast use bytes::group_lex;

    let ghost s0 = pool.view();
    let ghost all = shape::tree_pids(t);
    let ghost w = state.watermark;
    let mut entries = entries;
    proof {
        pool::step_refl(s0, all);
        rewrite::failed_if(s0, s0, all, all);
        let rw = Rewrite::One { pid, tree: Ghost(t) };
        gc::pruned_same(s0, rw, 0, w);
        shape::forest_of_one(t);
        course::bare_node(t);
        course::out_trees(rw);
    }
    if !leaf_may_contain_gc_cursor_or_later(fence, entries.as_slice(), lower) {
        if fence.upper.is_none() {
            state.reached_end = true;
        }
        let rw = Rewrite::One { pid, tree: Ghost(t) };
        proof {
            let l = lower->0@;
            assert(node::in_fence(fence@, l));
            assert(fence@.upper is None);
            assert(entries@.len() > 0 ==> t->entries[entries@.len() - 1]
                == entries@[entries@.len() - 1]@);
            assert forall|m: MessageView| #[trigger]
                shape::forest_recs(leaf_work::kids_of(rw)).contains(m) implies !at_or_behind(
                opt_key(*lower),
                m.key,
            ) by {
                assert(shape::tree_recs(t).contains(m));
                nothing_behind(t, l, m);
            }
        }
        return Ok((rw, false));
    }
    state.remaining_leaf_pages = state.remaining_leaf_pages - 1;
    state.result.leaf_pages_visited = state.result.leaf_pages_visited + 1;
    let mut page_result = gc::prune_entries(&mut entries, state.watermark);
    state.next_key = copy_key(&fence.upper);
    if state.next_key.is_none() {
        state.reached_end = true;
    }
    proof {
        gc::pruned_leaf(t->entries, fence@, w);
        shape::tree_parts(t);
        assert(opt_key(fence.upper) == fence@.upper);
    }
    if page_result.versions_pruned == 0 {
        let rw = Rewrite::One { pid, tree: Ghost(t) };
        return Ok((rw, false));
    }
    let own: u64 = work::ensure_mutable(pool, pid, Ghost(t), Ghost(0nat))?;
    let ghost s1 = pool.view();
    let ghost t1 = work::with_pid(t, own);
    proof {
        rewrite::failed_if(s0, s1, all, shape::tree_pids(t1));
    }
    proof {
        work::read_node_fits(s0.pages[pid as int]);
        smaller::pruned_leaf_fits(fence@, t->entries, w);
    }
    work::write_leaf_at(pool, own, fence, entries.as_slice())?;
    let rw = Rewrite::One {
        pid: own,
        tree: Ghost(
            TreeView::Leaf {
                pid: own,
                fence: fence@,
                entries: gc::pruned_entries(t->entries, w),
            },
        ),
    };
    proof {
        gc::leaf_was_pruned(s0, s1, pool.view(), t, own, rw, w);
        course::out_trees(rw);
    }
    page_result.leaf_pages_rewritten = 1;
    state.result.add_assign(page_result);
    Ok((rw, true))
}

} // verus!
