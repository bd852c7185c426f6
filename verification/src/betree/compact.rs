//! Flushing whole trees, and merging what has become small.
use vstd::prelude::*;

use crate::betree::config::CowBeTreeConfig;
use crate::betree::course;
use crate::betree::drain;
use crate::betree::flush;
use crate::betree::leaf_work;
use crate::betree::leaf_work::Rewrite;
use crate::betree::message;
use crate::betree::message::{BufferedMessage, MessageView};
use crate::betree::node;
use crate::betree::node::{CowBeTreeError, Fence, FenceView, NodePage};
use crate::betree::pool;
use crate::betree::pool::{PagePool, PoolView};
use crate::betree::rewrite;
use crate::betree::shape;
use crate::betree::shape::TreeView;
use crate::betree::smaller;
use crate::betree::work;
use crate::bytes;

verus! {

/// The root page of each tree has nothing in its buffer.
pub open spec fn root_flushed(t: TreeView) -> bool {
    t is Node ==> t->buffer.len() == 0
}

/// What the page of a node says of the node.
proof fn node_on_page(s: PoolView, t: TreeView, h: nat)
    requires
        pool::pool_ok(s),
        shape::rep(s.pages, t),
        shape::wf(t, h),
        work::own_root(s, t),
        t is Node,
    ensures
        rewrite::over(
            s,
            shape::pid_of(t),
            shape::fence_of(t),
            t->separators,
            t->buffer,
            t->kids,
            (h - 1) as nat,
        ),
        h > 0,
        shape::tree_pids(t) == rewrite::node_pids(shape::pid_of(t), t->kids),
        shape::tree_recs(t) == rewrite::node_recs(t->buffer, t->kids),
{
    shape::wf_node(t, h);
    flush::node_is_tree(t);
}

/// Flush the buffers of a tree from the root down. A node that is split on the
/// way is left as it is.
#[verifier::rlimit(60)]
#[verifier::spinoff_prover]
pub fn flush_all_page(
    pool: &mut PagePool,
    config: &CowBeTreeConfig,
    pid: u64,
    hint: &mut u64,
    Ghost(t): Ghost<TreeView>,
    Ghost(h): Ghost<nat>,
) -> (r: Result<Rewrite, CowBeTreeError>)
    requires
        old(pool).wf(),
        shape::rep(old(pool).view().pages, t),
        shape::wf(t, h),
        pid == shape::pid_of(t),
    ensures
        final(pool).wf(),
        match r {
            Ok(rw) => {
                &&& leaf_work::outcome(
                    old(pool).view(),
                    final(pool).view(),
                    rw,
                    shape::fence_of(t),
                    h,
                    shape::tree_pids(t),
                    shape::tree_recs(t),
                )
                &&& rw matches Rewrite::One { tree, .. } ==> root_flushed(tree@)
                &&& rw is Split && work::own_root(old(pool).view(), t) ==> rw->left_pid == pid
                &&& rw is One && work::own_root(old(pool).view(), t) ==> rw->pid == pid
                &&& shape::unbuffered(t) ==> shape::all_unbuffered(leaf_work::kids_of(rw))
            },
            Err(_) => rewrite::failed(old(pool).view(), final(pool).view(), shape::tree_pids(t)),
        },
        shape::settled(t, config.max_internal_children) ==> r is Ok && r->Ok_0 is One
            && shape::settled(r->Ok_0->tree@, config.max_internal_children) && shape::alike(
            t,
            r->Ok_0->tree@,
        ),
        course::came_out(r, drain::all_flushed(*config, course::bare(t), h)),
    decreases h,
{
    let ghost s0 = pool.view();
    let ghost all = shape::tree_pids(t);
    let ghost recs = shape::tree_recs(t);
    let own: u64 = work::ensure_mutable(pool, pid, Ghost(t), Ghost(h))?;
    let ghost s1 = pool.view();
    let ghost t1 = work::with_pid(t, own);
    let ghost max = config.max_internal_children;
    let ghost calm = shape::settled(t, max);
    proof {
        rewrite::failed_if(s0, s1, all, shape::tree_pids(t1));
        shape::refine_refl(recs);
        course::bare_with_pid(t, own);
        course::bare_node(t);
    }
    let (fence, mut children, mut separators, mut buffer) = match pool.read_node(own)? {
        NodePage::Leaf { .. } => {
            let rw = Rewrite::One { pid: own, tree: Ghost(t1) };
            proof {
                leaf_work::outcome_one(s0, s1, rw, h, all, recs);
                assert(shape::unbuffered(t1));
                course::out_trees(rw);
            }
            return Ok(rw);
        },
        NodePage::Internal { fence, children, separators, buffer } => (
            fence,
            children,
            separators,
            buffer,
        ),
    };
    let ghost mut cur = t1;
    let mut first = true;
    let ghost flat = drain::drained(*config, course::bare(t), h);
    assert(t is Node && h > 0);
    proof {
        if shape::unbuffered(t) {
            assert(shape::unbuffered(t1));
        }
        if calm {
            assert(shape::settled(t1, max));
        }
    }
    while first || buffer.len() > 0
        invariant
            max == config.max_internal_children,
            calm == shape::settled(t, max),
            calm ==> {
                &&& shape::settled(cur, max)
                &&& t is Node
                &&& cur->separators == t->separators
                &&& cur->kids == t->kids
                &&& cur->buffer == t->buffer
            },
            pool.wf(),
            s0 == old(pool).view(),
            all == shape::tree_pids(t),
            recs == shape::tree_recs(t),
            cur is Node,
            shape::wf(cur, h),
            shape::rep(pool.view().pages, cur),
            work::own_root(pool.view(), cur),
            shape::pid_of(cur) == own,
            work::own_root(s0, t) ==> own == pid,
            fence@ == shape::fence_of(cur),
            shape::fence_of(cur) == shape::fence_of(t),
            children@ == shape::pids_of(cur->kids),
            node::keys_view(separators@) == cur->separators,
            message::messages_view(buffer@) == cur->buffer,
            pool::step(s0, pool.view(), all, shape::tree_pids(cur)),
            shape::refine(shape::tree_recs(cur), recs),
            shape::unbuffered(t) ==> shape::unbuffered(cur),
            t is Node,
            h > 0,
            flat == drain::drained(*config, course::bare(t), h),
            if first || cur->buffer.len() > 0 {
                drain::drained(*config, course::bare(cur), h) == flat
            } else {
                flat == Ok::<_, CowBeTreeError>(course::one(course::bare(cur)))
            },
        decreases (if first { 1nat } else { 0nat }), buffer@.len(),
    {
        let ghost sa = pool.view();
        let ghost ta = cur;
        let ghost before = buffer@.len();
        proof {
            node_on_page(sa, ta, h);
            if calm {
                settled_stays_whole(sa, ta, max);
            }
            drain::buffer_is_sized(sa, ta);
            course::bare_node(ta);
        }
        let result = flush::flush_internal(
            pool,
            config,
            own,
            &fence,
            children,
            separators,
            buffer,
            hint,
            Ghost(ta->kids),
            Ghost((h - 1) as nat),
        );
        let ghost sb = pool.view();
        let rw = match result {
            Ok(rw) => rw,
            Err(e) => {
                proof {
                    pool::step_trans(s0, sa, sb, all, shape::tree_pids(ta), Set::<u64>::empty());
                }
                return Err(e);
            },
        };
        proof {
            rewrite::outcome_after(
                s0,
                sa,
                sb,
                rw,
                fence@,
                h,
                all,
                shape::tree_pids(ta),
                recs,
                shape::tree_recs(ta),
            );
            course::out_trees(rw);
        }
        match rw {
            Rewrite::Split { left_pid, right_pid, separator, left, right } => {
                return Ok(Rewrite::Split { left_pid, right_pid, separator, left, right });
            },
            Rewrite::One { pid: _, tree } => {
                proof {
                    cur = tree@;
                    let k = leaf_work::kids_of(Rewrite::One { pid: own, tree });
                    assert(k[0] == tree@);
                    shape::forest_of_one(tree@);
                    assert(shape::wf(k[0], h));
                    assert(shape::rep(sb.pages, k[0]));
                    assert(shape::child_fence(fence@, Seq::empty(), 0) =~= fence@);
                    assert(shape::tree_pids(cur).contains(own)) by {
                        assert(shape::has_pid(cur, own));
                    }
                    assert(shape::tree_pids(ta).contains(own));
                    assert(pool::owners(sb, own) == pool::owners(sa, own));
                    if shape::unbuffered(t) {
                        assert(shape::unbuffered(ta));
                        assert(shape::all_unbuffered(ta->kids));
                        assert(shape::unbuffered(k[0]));
                    }
                    if calm {
                        settled_like(ta, cur, max);
                    }
                    rewrite::failed_if(s0, sb, all, shape::tree_pids(cur));
                    course::bare_node(cur);
                }
                match pool.read_node(own)? {
                    NodePage::Leaf { .. } => {
                        proof {
                            assert(false);
                        }
                        return Ok(Rewrite::One { pid: own, tree });
                    },
                    NodePage::Internal { children: c, separators: s, buffer: b, .. } => {
                        children = c;
                        separators = s;
                        buffer = b;
                    },
                }
                first = false;
            },
        }
    }
    let ghost s2 = pool.view();
    let ghost kids = cur->kids;
    let ghost kh = (h - 1) as nat;
    let ghost recs2 = shape::forest_recs(kids);
    proof {
        node_on_page(s2, cur, h);
        assert(cur->buffer =~= Seq::<MessageView>::empty());
        assert(rewrite::node_recs(Seq::empty(), kids) =~= recs2);
        flush::forest_start(s2, fence@, kh, cur->separators, kids);
        if calm {
            settled_stays_whole(s2, cur, max);
            assert forall|j: int| 0 <= j < kids.len() implies shape::alike(
                #[trigger] kids[j],
                kids[j],
            ) by {
                shape::alike_refl(kids[j]);
            }
        }
    }
    let mut idx: usize = 0;
    let ghost mut now = kids;
    let ghost below = drain::each_flushed(
        *config,
        cur->separators,
        course::bare_all(kids),
        0,
        kh,
    );
    proof {
        course::bare_node(cur);
    }
    while idx < children.len()
        invariant
            pool.wf(),
            h > 0,
            kh == h - 1,
            idx <= children@.len(),
            max == config.max_internal_children,
            calm == shape::settled(t, max),
            calm ==> {
                &&& shape::all_settled(now, max)
                &&& now.len() == kids.len() <= max
                &&& forall|j: int| 0 <= j < kids.len() ==> shape::alike(#[trigger] kids[j], now[j])
                &&& forall|j: int| idx <= j < kids.len() ==> #[trigger] now[j] == kids[j]
                &&& node::keys_view(separators@) == cur->separators
            },
            s0 == old(pool).view(),
            all == shape::tree_pids(t),
            children@ == shape::pids_of(now),
            flush::forest_done(
                s2,
                pool.view(),
                fence@,
                kh,
                kids,
                node::keys_view(separators@),
                now,
                recs2,
            ),
            pool::step(s0, s2, all, rewrite::node_pids(own, kids)),
            shape::unbuffered(t) ==> shape::all_unbuffered(now),
            below == drain::each_flushed(
                *config,
                node::keys_view(separators@),
                course::bare_all(now),
                idx as int,
                kh,
            ),
            below matches Err(e) ==> drain::all_flushed(*config, course::bare(t), h) == Err::<
                course::Out,
                CowBeTreeError,
            >(e),
        decreases children@.len() - idx,
    {
        let ghost sa = pool.view();
        let ghost sp = node::keys_view(separators@);
        let ghost i = idx as int;
        proof {
            assert(children@[i] == shape::pid_of(now[i]));
            assert(shape::rep(sa.pages, now[i]));
            assert(shape::wf(now[i], kh));
            assert(course::bare_all(now)[i] == course::bare(now[i]));
        }
        let result = flush_all_page(
            pool,
            config,
            children[idx],
            hint,
            Ghost(now[i]),
            Ghost(kh),
        );
        let ghost sb = pool.view();
        let child_rewrite = match result {
            Ok(child_rewrite) => child_rewrite,
            Err(e) => {
                proof {
                    flush::forest_fails(s2, sa, sb, fence@, kh, kids, sp, now, recs2, i);
                    flush::failed_child_fails_node(s2, sb, own, kids);
                    pool::step_trans(
                        s0,
                        s2,
                        sb,
                        all,
                        rewrite::node_pids(own, kids),
                        Set::<u64>::empty(),
                    );
                }
                return Err(e);
            },
        };
        let ghost now2 = shape::spliced_kids(now, i, i + 1, leaf_work::kids_of(child_rewrite));
        let ghost none = Set::<MessageView>::empty();
        proof {
            assert(shape::tree_recs(now[i]).union(none) =~= shape::tree_recs(now[i]));
            flush::forest_more(
                s2,
                sa,
                sb,
                fence@,
                kh,
                kids,
                sp,
                now,
                recs2,
                i,
                child_rewrite,
                none,
            );
            assert(recs2.union(none) =~= recs2);
            course::bare_spliced(sp, now, i, child_rewrite);
            if shape::unbuffered(t) {
                assert(shape::unbuffered(now[i]));
                spliced_unbuffered(now, i, leaf_work::kids_of(child_rewrite));
            }
            if calm {
                assert(shape::settled(now[i], max));
                one_settled(now, sp, i, child_rewrite, max);
                one_in_place(now, sp, i, child_rewrite);
                assert(now[i] == kids[i]);
                assert forall|j: int| 0 <= j < kids.len() implies shape::alike(
                    #[trigger] kids[j],
                    now2[j],
                ) by {
                    assert(shape::alike(kids[j], now[j]));
                }
            }
        }
        let added: usize = flush::install_child_rewrite(
            &mut children,
            &mut separators,
            idx,
            child_rewrite,
        )?;
        proof {
            assert(children@ =~= shape::pids_of(now2));
            now = now2;
        }
        let count: usize = children.len();
        assert(idx + 1 + added <= count);
        idx = idx + 1 + added;
    }
    let ghost s3 = pool.view();
    let ghost seps3 = node::keys_view(separators@);
    proof {
        flush::still_over(s2, s3, own, fence@, kh, kids, seps3, now, recs2, Seq::empty());
        pool::step_trans(
            s0,
            s2,
            s3,
            all,
            rewrite::node_pids(own, kids),
            rewrite::node_pids(own, now),
        );
        if calm {
            smaller::other_children_fit(fence@, shape::pids_of(kids), seps3, children@);
        }
    }
    let result = rewrite::rewrite_internal_empty_buffer(
        pool,
        config,
        own,
        &fence,
        children.as_slice(),
        separators.as_slice(),
        Ghost(now),
        Ghost(kh),
    );
    match result {
        Ok(rw) => {
            proof {
                shape::refine_trans(shape::forest_recs(now), recs2, recs);
                rewrite::outcome_after(
                    s0,
                    s3,
                    pool.view(),
                    rw,
                    fence@,
                    h,
                    all,
                    rewrite::node_pids(own, now),
                    recs,
                    shape::forest_recs(now),
                );
            }
            Ok(rw)
        },
        Err(e) => {
            proof {
                pool::step_trans(
                    s0,
                    s3,
                    pool.view(),
                    all,
                    rewrite::node_pids(own, now),
                    Set::<u64>::empty(),
                );
            }
            Err(e)
        },
    }
}

/// A settled node has a place on a page as it is, and is not split.
pub proof fn settled_stays_whole(s: PoolView, t: TreeView, max: usize)
    requires
        pool::pool_ok(s),
        shape::rep(s.pages, t),
        t is Node,
        shape::settled(t, max),
    ensures
        t->buffer =~= Seq::<MessageView>::empty(),
        t->kids.len() <= max,
        shape::all_settled(t->kids, max),
        work::fits_page(
            smaller::bare(shape::fence_of(t), shape::pids_of(t->kids), t->separators),
        ),
        !rewrite::internal_splits(
            max,
            shape::fence_of(t),
            shape::pids_of(t->kids),
            t->separators,
            Seq::empty(),
        ),
{
    work::read_node_fits(s.pages[shape::pid_of(t) as int]);
    assert(t->buffer =~= Seq::<MessageView>::empty());
    assert(shape::node_of(t) == smaller::bare(
        shape::fence_of(t),
        shape::pids_of(t->kids),
        t->separators,
    ));
}

/// A node without messages over the children of a settled node is settled.
proof fn settled_like(a: TreeView, b: TreeView, max: usize)
    requires
        a is Node,
        b is Node,
        shape::settled(a, max),
        b->kids == a->kids,
        b->buffer.len() == 0,
    ensures
        shape::settled(b, max),
{
    assert forall|i: int| 0 <= i < b->kids.len() implies shape::settled(
        #[trigger] b->kids[i],
        max,
    ) by {
        assert(shape::settled(a->kids[i], max));
    }
}

/// One tree takes the place of another in a forest.
pub proof fn one_in_place(kids: Seq<TreeView>, separators: Seq<Seq<u8>>, i: int, rw: Rewrite)
    requires
        0 <= i < kids.len(),
        separators.len() + 1 == kids.len(),
        rw is One,
    ensures
        ({
            let k = shape::spliced_kids(kids, i, i + 1, leaf_work::kids_of(rw));
            &&& k == kids.update(i, rw->tree@)
            &&& leaf_work::kids_of(rw).len() == 1
        }),
        shape::spliced_separators(separators, i, i + 1, leaf_work::separators_of(rw)) == separators,
{
    let one = leaf_work::kids_of(rw);
    assert(one.len() == 1 && one[0] == rw->tree@);
    assert(shape::spliced_kids(kids, i, i + 1, one) =~= kids.update(i, rw->tree@));
    assert(shape::spliced_separators(separators, i, i + 1, leaf_work::separators_of(rw))
        =~= separators);
}

/// A settled tree that takes the place of another in a forest.
pub proof fn one_settled(
    kids: Seq<TreeView>,
    separators: Seq<Seq<u8>>,
    i: int,
    rw: Rewrite,
    max: usize,
)
    requires
        0 <= i < kids.len(),
        separators.len() + 1 == kids.len(),
        shape::all_settled(kids, max),
        rw is One,
        shape::settled(rw->tree@, max),
    ensures
        ({
            let k = shape::spliced_kids(kids, i, i + 1, leaf_work::kids_of(rw));
            shape::all_settled(k, max) && k.len() == kids.len()
        }),
        shape::spliced_separators(separators, i, i + 1, leaf_work::separators_of(rw)) == separators,
{
    one_in_place(kids, separators, i, rw);
}

pub proof fn spliced_unbuffered(kids: Seq<TreeView>, i: int, k2: Seq<TreeView>)
    requires
        0 <= i < kids.len(),
        shape::all_unbuffered(kids),
        shape::all_unbuffered(k2),
    ensures
        shape::all_unbuffered(shape::spliced_kids(kids, i, i + 1, k2)),
{
    let k = shape::spliced_kids(kids, i, i + 1, k2);
    assert forall|j: int| 0 <= j < k.len() implies shape::unbuffered(#[trigger] k[j]) by {
        if j < i {
            assert(k[j] == kids[j]);
        } else if j < i + k2.len() {
            assert(k[j] == k2[j - i]);
        } else {
            assert(k[j] == kids[j - k2.len() + 1]);
        }
    }
}

// ---------------------------------------------------------------------------
// Merging.

/// The tree that two trees become when their root pages are merged under `pid`.
pub open spec fn merged(l: TreeView, r: TreeView, sep: Seq<u8>, pid: u64) -> TreeView {
    let fence = FenceView { lower: shape::fence_of(l).lower, upper: shape::fence_of(r).upper };
    match l {
        TreeView::Leaf { entries, .. } => TreeView::Leaf {
            pid,
            fence,
            entries: entries + r->entries,
        },
        TreeView::Node { separators, kids, .. } => TreeView::Node {
            pid,
            fence,
            separators: shape::joined_separators(separators, sep, r->separators),
            buffer: Seq::empty(),
            kids: kids + r->kids,
        },
    }
}

/// Two trees side by side may be merged: both are leaves, or both are nodes with
/// empty buffers, together they are within the limits, and the merged root has a
/// place on a page.
pub open spec fn mergeable(
    config: CowBeTreeConfig,
    l: TreeView,
    r: TreeView,
    sep: Seq<u8>,
) -> bool {
    match (l, r) {
        (TreeView::Leaf { entries: a, .. }, TreeView::Leaf { entries: b, .. }) => a.len() + b.len()
            <= config.merge_leaf_entries && work::fits_page(shape::node_of(merged(l, r, sep, 0))),
        (
            TreeView::Node { kids: a, buffer: x, .. },
            TreeView::Node { kids: b, buffer: y, .. },
        ) => x.len() == 0 && y.len() == 0 && a.len() + b.len() <= config.merge_internal_children
            && work::fits_page(shape::node_of(merged(l, r, sep, 0))),
        _ => false,
    }
}

/// Two trees that meet at `sep`.
pub open spec fn siblings(l: TreeView, r: TreeView, sep: Seq<u8>, h: nat) -> bool {
    &&& shape::wf(l, h)
    &&& shape::wf(r, h)
    &&& shape::fence_of(l).upper == Some(sep)
    &&& shape::fence_of(r).lower == sep
    &&& bytes::lex_lt(shape::fence_of(l).lower, sep)
    &&& (shape::fence_of(r).upper matches Some(u) ==> bytes::lex_lt(sep, u))
    &&& shape::tree_pids(l).disjoint(shape::tree_pids(r))
}

proof fn merged_leaf(l: TreeView, r: TreeView, sep: Seq<u8>, h: nat, pid: u64)
    requires
        siblings(l, r, sep, h),
        l is Leaf,
        r is Leaf,
    ensures
        ({
            let m = merged(l, r, sep, pid);
            let fence = shape::fence_of(m);
            &&& node::sorted_entries(m->entries)
            &&& node::entries_newest_first(m->entries)
            &&& shape::entries_inside(fence, m->entries)
            &&& shape::entry_recs(m->entries) == shape::tree_recs(l).union(shape::tree_recs(r))
        }),
{
    broadcast use bytes::group_lex;

    let m = merged(l, r, sep, pid);
    let fence = shape::fence_of(m);
    let a = l->entries;
    let b = r->entries;
    let es = a + b;
    assert forall|i: int, j: int|
        #![trigger es[i], es[j]]
        0 <= i < j < es.len() implies bytes::lex_lt(es[i].key, es[j].key) by {
        if j < a.len() {
            assert(bytes::lex_lt(a[i].key, a[j].key));
        } else if i >= a.len() {
            assert(bytes::lex_lt(b[i - a.len()].key, b[j - a.len()].key));
        } else {
            assert(node::in_fence(shape::fence_of(l), a[i].key));
            assert(node::in_fence(shape::fence_of(r), b[j - a.len()].key));
        }
    }
    assert forall|i: int| 0 <= i < es.len() implies node::sorted_versions(
        (#[trigger] es[i]).versions,
    ) && node::in_fence(fence, es[i].key) by {
        if i < a.len() {
            assert(node::sorted_versions(a[i].versions));
            assert(node::in_fence(shape::fence_of(l), a[i].key));
        } else {
            assert(node::sorted_versions(b[i - a.len()].versions));
            assert(node::in_fence(shape::fence_of(r), b[i - a.len()].key));
        }
    }
    shape::tree_parts(l);
    shape::tree_parts(r);
    assert forall|x: MessageView| #[trigger] shape::entry_recs(es).contains(x) <==> (
    shape::entry_recs(a).contains(x) || shape::entry_recs(b).contains(x)) by {
        if node::entries_have(es, x.key, x.version) {
            let i = choose|i: int|
                #![trigger es[i]]
                0 <= i < es.len() && es[i].key == x.key && es[i].versions.contains(x.version);
            if i < a.len() {
                assert(a[i] == es[i]);
            } else {
                assert(b[i - a.len()] == es[i]);
            }
        }
        if node::entries_have(a, x.key, x.version) {
            let i = choose|i: int|
                #![trigger a[i]]
                0 <= i < a.len() && a[i].key == x.key && a[i].versions.contains(x.version);
            assert(es[i] == a[i]);
        }
        if node::entries_have(b, x.key, x.version) {
            let i = choose|i: int|
                #![trigger b[i]]
                0 <= i < b.len() && b[i].key == x.key && b[i].versions.contains(x.version);
            assert(es[a.len() + i] == b[i]);
        }
    }
    assert(shape::entry_recs(es) =~= shape::tree_recs(l).union(shape::tree_recs(r)));
}

proof fn merged_node(s: PoolView, l: TreeView, r: TreeView, sep: Seq<u8>, h: nat)
    requires
        siblings(l, r, sep, h),
        l is Node,
        r is Node,
        l->buffer.len() == 0,
        r->buffer.len() == 0,
        shape::rep(s.pages, l),
        shape::rep(s.pages, r),
    ensures
        ({
            let m = merged(l, r, sep, 0);
            &&& h > 0
            &&& shape::forest(shape::fence_of(m), m->separators, m->kids, (h - 1) as nat)
            &&& shape::rep_all(s.pages, m->kids)
            &&& shape::forest_recs(m->kids) == shape::tree_recs(l).union(shape::tree_recs(r))
            &&& shape::forest_pids(m->kids).subset_of(
                shape::tree_pids(l).union(shape::tree_pids(r)),
            )
        }),
{
    let m = merged(l, r, sep, 0);
    shape::wf_node(l, h);
    shape::wf_node(r, h);
    shape::tree_parts(l);
    shape::tree_parts(r);
    let lk = l->kids;
    let rk = r->kids;
    assert(shape::forest_pids(lk).disjoint(shape::forest_pids(rk))) by {
        assert forall|p: u64| !(#[trigger] shape::forest_pids(lk).contains(p)
            && shape::forest_pids(rk).contains(p)) by {
            if shape::forest_pids(lk).contains(p) && shape::forest_pids(rk).contains(p) {
                assert(shape::tree_pids(l).contains(p));
                assert(shape::tree_pids(r).contains(p));
            }
        }
    }
    shape::disjoint_by_pids(lk, rk);
    shape::join_forests(
        shape::fence_of(l),
        l->separators,
        lk,
        shape::fence_of(r),
        r->separators,
        rk,
        sep,
        (h - 1) as nat,
    );
    shape::forest_parts(lk, rk);
    let k = lk + rk;
    assert forall|i: int| 0 <= i < k.len() implies shape::rep(s.pages, #[trigger] k[i]) by {
        if i < lk.len() {
            assert(shape::rep(s.pages, lk[i]));
        } else {
            assert(shape::rep(s.pages, rk[i - lk.len()]));
        }
    }
    assert(shape::message_recs(l->buffer) =~= Set::<MessageView>::empty());
    assert(shape::message_recs(r->buffer) =~= Set::<MessageView>::empty());
    assert(shape::forest_recs(k) =~= shape::tree_recs(l).union(shape::tree_recs(r)));
}

/// Work that leaves pages alone may count as work on more pages, which are given
/// up.
pub proof fn step_gives_up(s1: PoolView, s2: PoolView, a: Set<u64>, b: Set<u64>, more: Set<u64>)
    requires
        pool::step(s1, s2, a, b),
        a.subset_of(more),
        forall|p: u64| #[trigger] more.contains(p) ==> p < s1.pages.len(),
    ensures
        pool::step(s1, s2, more, b),
{
    assert forall|p: u64|
        #![trigger pool::owners(s2, p)]
        p < s1.pages.len() && (!more.contains(p) || b.contains(p)) implies pool::owners(s2, p)
        == pool::owners(s1, p) by {}
    assert forall|p: u64|
        #![trigger pool::owners(s2, p)]
        p < s1.pages.len() && more.contains(p) && !b.contains(p) implies pool::owners(s1, p) - 1
        <= pool::owners(s2, p) <= pool::owners(s1, p) by {}
}

/// Merge the root pages of two trees side by side on a new page, if they may be
/// merged.
pub fn try_merge_pair(
    pool: &mut PagePool,
    config: &CowBeTreeConfig,
    left: &NodePage,
    right: &NodePage,
    separator: &[u8],
    Ghost(l): Ghost<TreeView>,
    Ghost(r): Ghost<TreeView>,
    Ghost(h): Ghost<nat>,
) -> (res: Result<Option<u64>, CowBeTreeError>)
    requires
        old(pool).wf(),
        left@ == shape::node_of(l),
        right@ == shape::node_of(r),
        shape::rep(old(pool).view().pages, l),
        shape::rep(old(pool).view().pages, r),
        siblings(l, r, separator@, h),
    ensures
        final(pool).wf(),
        ({
            let s1 = old(pool).view();
            let s2 = final(pool).view();
            if mergeable(*config, l, r, separator@) {
                let pid = s1.pages.len() as u64;
                let m = merged(l, r, separator@, pid);
                &&& res == Ok::<Option<u64>, CowBeTreeError>(Some(pid))
                &&& shape::wf(m, h)
                &&& shape::rep(s2.pages, m)
                &&& pool::step(
                    s1,
                    s2,
                    shape::tree_pids(l).union(shape::tree_pids(r)),
                    shape::tree_pids(m),
                )
                &&& shape::tree_recs(m) == shape::tree_recs(l).union(shape::tree_recs(r))
            } else {
                res == Ok::<Option<u64>, CowBeTreeError>(None) && s2 == s1
            }
        }),
{
    let ghost s1 = pool.view();
    let ghost sep = separator@;
    let ghost pages = shape::tree_pids(l).union(shape::tree_pids(r));
    proof {
        assert forall|p: u64| #[trigger] pages.contains(p) implies p < s1.pages.len() by {
            if shape::has_pid(l, p) {
                shape::rep_in_bounds(s1.pages, l, p);
            } else {
                shape::rep_in_bounds(s1.pages, r, p);
            }
        }
    }
    match left {
        NodePage::Leaf { fence: left_fence, entries: left_entries } => {
            let (right_fence, right_entries) = match right {
                NodePage::Leaf { fence, entries } => (fence, entries),
                NodePage::Internal { .. } => {
                    return Ok(None);
                },
            };
            if left_entries.len() > config.merge_leaf_entries || right_entries.len()
                > config.merge_leaf_entries - left_entries.len() {
                return Ok(None);
            }
            let fence = Fence::span(left_fence, right_fence);
            let mut entries = node::copy_entries(left_entries.as_slice(), 0, left_entries.len());
            let mut more = node::copy_entries(right_entries.as_slice(), 0, right_entries.len());
            let ghost e0 = entries@;
            let ghost m0 = more@;
            entries.append(&mut more);
            let ghost es = l->entries + r->entries;
            proof {
                assert(node::entries_view(e0) =~= l->entries);
                assert(node::entries_view(m0) =~= r->entries);
                assert(node::entries_view(entries@) =~= es);
            }
            if !rewrite::leaf_fits_page(&fence, entries.as_slice()) {
                return Ok(None);
            }
            let pid: u64 = work::allocate_leaf(pool, &fence, entries.as_slice())?;
            proof {
                merged_leaf(l, r, sep, h, pid);
                work::leaf_allocated(s1, fence@, es);
                step_gives_up(s1, pool.view(), Set::<u64>::empty(), work::one(pid), pages);
            }
            Ok(Some(pid))
        },
        NodePage::Internal {
            fence: left_fence,
            children: left_children,
            separators: left_separators,
            buffer: left_buffer,
        } => {
            let (right_fence, right_children, right_separators, right_buffer) = match right {
                NodePage::Leaf { .. } => {
                    return Ok(None);
                },
                NodePage::Internal { fence, children, separators, buffer } => (
                    fence,
                    children,
                    separators,
                    buffer,
                ),
            };
            if left_buffer.len() > 0 || right_buffer.len() > 0 {
                return Ok(None);
            }
            if left_children.len() > config.merge_internal_children || right_children.len()
                > config.merge_internal_children - left_children.len() {
                return Ok(None);
            }
            let fence = Fence::span(left_fence, right_fence);
            let mut children = vstd::slice::slice_to_vec(left_children.as_slice());
            let mut more = vstd::slice::slice_to_vec(right_children.as_slice());
            children.append(&mut more);
            let mut separators = node::copy_keys(
                left_separators.as_slice(),
                0,
                left_separators.len(),
            );
            let ghost a0 = separators@;
            separators.push(bytes::copy_bytes(separator));
            let mut more_separators = node::copy_keys(
                right_separators.as_slice(),
                0,
                right_separators.len(),
            );
            let ghost b0 = more_separators@;
            separators.append(&mut more_separators);
            let buffer: Vec<BufferedMessage> = Vec::new();
            let ghost m = merged(l, r, sep, 0);
            proof {
                assert(children@ =~= shape::pids_of(m->kids));
                assert(node::keys_view(a0) =~= l->separators);
                assert(node::keys_view(b0) =~= r->separators);
                assert(node::keys_view(separators@) =~= m->separators);
                assert(message::messages_view(buffer@) =~= Seq::<MessageView>::empty());
                merged_node(s1, l, r, sep, h);
            }
            if !rewrite::internal_fits_page(
                &fence,
                children.as_slice(),
                separators.as_slice(),
                buffer.as_slice(),
            ) {
                return Ok(None);
            }
            let pid: u64 = work::allocate_internal(
                pool,
                &fence,
                children.as_slice(),
                separators.as_slice(),
                buffer.as_slice(),
            )?;
            proof {
                work::node_allocated(
                    s1,
                    fence@,
                    m->separators,
                    Seq::empty(),
                    m->kids,
                    (h - 1) as nat,
                );
                let m2 = merged(l, r, sep, pid);
                step_gives_up(
                    s1,
                    pool.view(),
                    shape::forest_pids(m->kids),
                    shape::tree_pids(m2),
                    pages,
                );
                assert(shape::message_recs(Seq::empty()) =~= Set::<MessageView>::empty());
                assert(shape::tree_recs(m2) =~= shape::tree_recs(l).union(shape::tree_recs(r)));
            }
            Ok(Some(pid))
        },
    }
}

/// Two trees of a forest, side by side.
proof fn pair_of_forest(
    s: PoolView,
    fence: FenceView,
    separators: Seq<Seq<u8>>,
    kids: Seq<TreeView>,
    h: nat,
    i: int,
)
    requires
        shape::forest(fence, separators, kids, h),
        shape::rep_all(s.pages, kids),
        0 <= i,
        i + 1 < kids.len(),
    ensures
        siblings(kids[i], kids[i + 1], separators[i], h),
        shape::range_fence(fence, separators, i, i + 2) == (FenceView {
            lower: shape::fence_of(kids[i]).lower,
            upper: shape::fence_of(kids[i + 1]).upper,
        }),
        shape::rep(s.pages, kids[i]),
        shape::rep(s.pages, kids[i + 1]),
{
    assert(shape::fence_of(kids[i]) == shape::child_fence(fence, separators, i));
    assert(shape::fence_of(kids[i + 1]) == shape::child_fence(fence, separators, i + 1));
    assert(shape::disjoint_pids(kids[i], kids[i + 1]));
    assert(bytes::lex_lt(fence.lower, separators[i]));
    if i > 0 {
        assert(bytes::lex_lt(separators[i - 1], separators[i]));
    }
    if i + 1 < separators.len() {
        assert(bytes::lex_lt(separators[i], separators[i + 1]));
    }
}

/// Two trees of a forest side by side are replaced by the tree they became.
proof fn replace_pair(
    s0: PoolView,
    s1: PoolView,
    s2: PoolView,
    fence: FenceView,
    h: nat,
    kids0: Seq<TreeView>,
    separators: Seq<Seq<u8>>,
    kids: Seq<TreeView>,
    recs: Set<MessageView>,
    i: int,
    m: TreeView,
)
    requires
        flush::forest_done(s0, s1, fence, h, kids0, separators, kids, recs),
        0 <= i,
        i + 1 < kids.len(),
        shape::wf(m, h),
        shape::rep(s2.pages, m),
        shape::fence_of(m) == (FenceView {
            lower: shape::fence_of(kids[i]).lower,
            upper: shape::fence_of(kids[i + 1]).upper,
        }),
        pool::step(
            s1,
            s2,
            shape::tree_pids(kids[i]).union(shape::tree_pids(kids[i + 1])),
            shape::tree_pids(m),
        ),
        shape::tree_recs(m) == shape::tree_recs(kids[i]).union(shape::tree_recs(kids[i + 1])),
    ensures
        ({
            let seps2 = separators.remove(i);
            let kids2 = kids.update(i, m).remove(i + 1);
            &&& flush::forest_done(s0, s2, fence, h, kids0, seps2, kids2, recs)
            &&& shape::forest_recs(kids2) == shape::forest_recs(kids)
        }),
{
    let seps2 = separators.remove(i);
    let kids2 = kids.update(i, m).remove(i + 1);
    let k2 = seq![m];
    let front = kids.take(i);
    let back = kids.skip(i + 2);
    pair_of_forest(s1, fence, separators, kids, h, i);
    shape::forest_ranges(fence, separators, kids, h, i, i + 2);
    let pair = kids.subrange(i, i + 2);
    assert(pair =~= seq![kids[i]] + seq![kids[i + 1]]);
    shape::forest_parts(seq![kids[i]], seq![kids[i + 1]]);
    shape::forest_of_one(kids[i]);
    shape::forest_of_one(kids[i + 1]);
    shape::forest_of_one(m);
    let rest = shape::forest_pids(front).union(shape::forest_pids(back));
    let a = shape::tree_pids(kids[i]).union(shape::tree_pids(kids[i + 1]));
    let b = shape::tree_pids(m);
    assert(shape::rep_all(s1.pages, front));
    assert(shape::rep_all(s1.pages, back));
    assert forall|p: u64| #[trigger] b.contains(p) implies !rest.contains(p) by {
        if rest.contains(p) {
            if shape::forest_pids(front).contains(p) {
                work::pid_in_bounds(s1.pages, front, p);
            } else {
                work::pid_in_bounds(s1.pages, back, p);
            }
        }
    }
    shape::disjoint_by_pids(front, k2);
    shape::disjoint_by_pids(k2, back);
    leaf_work::forest_of_tree(m, h);
    shape::splice_forest(fence, separators, kids, h, i, i + 2, Seq::empty(), k2);
    assert(shape::spliced_separators(separators, i, i + 2, Seq::empty()) =~= seps2);
    assert(shape::spliced_kids(kids, i, i + 2, k2) =~= kids2);
    work::rep_others(s1, s2, front, a, b);
    work::rep_others(s1, s2, back, a, b);
    assert forall|j: int| 0 <= j < kids2.len() implies shape::rep(s2.pages, #[trigger] kids2[j]) by {
        if j < i {
            assert(kids2[j] == front[j]);
        } else if j > i {
            assert(kids2[j] == back[j - i - 1]);
        }
    }
    pool::step_widen(s1, s2, a, b, rest);
    shape::forest_parts(front, k2);
    shape::forest_parts(front + k2, back);
    assert(front + k2 + back =~= kids2);
    assert(shape::forest_pids(kids2) =~= b.union(rest));
    assert(shape::forest_pids(kids) =~= a.union(rest));
    pool::step_trans(
        s0,
        s1,
        s2,
        shape::forest_pids(kids0),
        shape::forest_pids(kids),
        shape::forest_pids(kids2),
    );
    assert(shape::forest_recs(kids2) =~= shape::forest_recs(kids));
}

/// What becomes of a forest when its trees are merged from tree `i` on: as long
/// as a tree may be merged with the one behind it, it is.
pub open spec fn merges(
    config: CowBeTreeConfig,
    kids: Seq<TreeView>,
    separators: Seq<Seq<u8>>,
    i: int,
) -> (Seq<TreeView>, Seq<Seq<u8>>)
    decreases kids.len() - i,
{
    if i < 0 || i + 1 >= kids.len() {
        (kids, separators)
    } else if mergeable(config, kids[i], kids[i + 1], separators[i]) {
        merges(
            config,
            kids.update(i, merged(kids[i], kids[i + 1], separators[i], 0)).remove(i + 1),
            separators.remove(i),
            i,
        )
    } else {
        merges(config, kids, separators, i + 1)
    }
}

/// Whether trees may be merged does not depend on the pages they stand on.
proof fn alike_mergeable(
    config: CowBeTreeConfig,
    l: TreeView,
    r: TreeView,
    l2: TreeView,
    r2: TreeView,
    sep: Seq<u8>,
)
    requires
        shape::alike(l, l2),
        shape::alike(r, r2),
    ensures
        mergeable(config, l, r, sep) == mergeable(config, l2, r2, sep),
{
    if l is Node && r is Node {
        let m = merged(l, r, sep, 0);
        let m2 = merged(l2, r2, sep, 0);
        let (f, s) = (shape::fence_of(m), m->separators);
        let (c, c2) = (shape::pids_of(m->kids), shape::pids_of(m2->kids));
        assert(shape::node_of(m) == smaller::bare(f, c, s));
        assert(shape::node_of(m2) == smaller::bare(f, c2, s));
        if work::fits_page(shape::node_of(m)) {
            smaller::other_children_fit(f, c, s, c2);
        }
        if work::fits_page(shape::node_of(m2)) {
            smaller::other_children_fit(f, c2, s, c);
        }
    }
}

proof fn alike_merged(
    l: TreeView,
    r: TreeView,
    l2: TreeView,
    r2: TreeView,
    sep: Seq<u8>,
    p: u64,
    p2: u64,
)
    requires
        shape::alike(l, l2),
        shape::alike(r, r2),
        l is Leaf == r is Leaf,
    ensures
        shape::alike(merged(l, r, sep, p), merged(l2, r2, sep, p2)),
{
    let m = merged(l, r, sep, p);
    let m2 = merged(l2, r2, sep, p2);
    if l is Node {
        assert forall|i: int|
            #![trigger m->kids[i]]
            #![trigger m2->kids[i]]
            0 <= i < m->kids.len() implies shape::alike(m->kids[i], m2->kids[i]) by {
            let n = l->kids.len();
            if i < n {
                assert(shape::alike(l->kids[i], l2->kids[i]));
            } else {
                assert(shape::alike(r->kids[i - n], r2->kids[i - n]));
            }
        }
    }
}

/// Forests whose trees are alike are merged alike.
pub proof fn alike_merges(
    config: CowBeTreeConfig,
    a: Seq<TreeView>,
    b: Seq<TreeView>,
    separators: Seq<Seq<u8>>,
    i: int,
)
    requires
        shape::all_alike(a, b),
    ensures
        merges(config, a, separators, i).1 == merges(config, b, separators, i).1,
        shape::all_alike(
            merges(config, a, separators, i).0,
            merges(config, b, separators, i).0,
        ),
    decreases a.len() - i,
{
    if i < 0 || i + 1 >= a.len() {
    } else {
        assert(shape::alike(a[i], b[i]));
        assert(shape::alike(a[i + 1], b[i + 1]));
        alike_mergeable(config, a[i], a[i + 1], b[i], b[i + 1], separators[i]);
        if mergeable(config, a[i], a[i + 1], separators[i]) {
            let ma = merged(a[i], a[i + 1], separators[i], 0);
            let mb = merged(b[i], b[i + 1], separators[i], 0);
            alike_merged(a[i], a[i + 1], b[i], b[i + 1], separators[i], 0, 0);
            replaced_alike(a, b, i, ma, mb);
            alike_merges(
                config,
                a.update(i, ma).remove(i + 1),
                b.update(i, mb).remove(i + 1),
                separators.remove(i),
                i,
            );
        } else {
            alike_merges(config, a, b, separators, i + 1);
        }
    }
}

proof fn replaced_alike(
    a: Seq<TreeView>,
    b: Seq<TreeView>,
    i: int,
    ma: TreeView,
    mb: TreeView,
)
    requires
        shape::all_alike(a, b),
        0 <= i,
        i + 1 < a.len(),
        shape::alike(ma, mb),
    ensures
        shape::all_alike(a.update(i, ma).remove(i + 1), b.update(i, mb).remove(i + 1)),
{
    let x = a.update(i, ma).remove(i + 1);
    let y = b.update(i, mb).remove(i + 1);
    assert forall|j: int|
        #![trigger x[j]]
        #![trigger y[j]]
        0 <= j < x.len() implies shape::alike(x[j], y[j]) by {
        if j < i {
            assert(shape::alike(a[j], b[j]));
        } else if j > i {
            assert(shape::alike(a[j + 1], b[j + 1]));
        }
    }
}

proof fn all_alike_refl(a: Seq<TreeView>)
    ensures
        shape::all_alike(a, a),
{
    assert forall|i: int| 0 <= i < a.len() implies shape::alike(#[trigger] a[i], a[i]) by {
        shape::alike_refl(a[i]);
    }
}

pub proof fn all_alike_trans(a: Seq<TreeView>, b: Seq<TreeView>, c: Seq<TreeView>)
    requires
        shape::all_alike(a, b),
        shape::all_alike(b, c),
    ensures
        shape::all_alike(a, c),
{
    assert forall|i: int|
        #![trigger a[i]]
        #![trigger c[i]]
        0 <= i < a.len() implies shape::alike(a[i], c[i]) by {
        assert(shape::alike(a[i], b[i]));
        assert(shape::alike(b[i], c[i]));
        shape::alike_trans(a[i], b[i], c[i]);
    }
}

/// Merge trees of a forest that stand side by side, from the left, as long as
/// they may be merged.
pub fn merge_siblings(
    pool: &mut PagePool,
    config: &CowBeTreeConfig,
    children: &mut Vec<u64>,
    separators: &mut Vec<Vec<u8>>,
    Ghost(fence): Ghost<FenceView>,
    Ghost(kids): Ghost<Seq<TreeView>>,
    Ghost(h): Ghost<nat>,
) -> (r: Result<Ghost<Seq<TreeView>>, CowBeTreeError>)
    requires
        old(pool).wf(),
        old(children)@ == shape::pids_of(kids),
        shape::forest(fence, node::keys_view(old(separators)@), kids, h),
        shape::rep_all(old(pool).view().pages, kids),
    ensures
        final(pool).wf(),
        r is Ok,
        ({
            let kids2 = r->Ok_0@;
            &&& final(children)@ == shape::pids_of(kids2)
            &&& flush::forest_done(
                old(pool).view(),
                final(pool).view(),
                fence,
                h,
                kids,
                node::keys_view(final(separators)@),
                kids2,
                shape::forest_recs(kids),
            )
            &&& shape::forest_recs(kids2) == shape::forest_recs(kids)
            &&& kids2.len() <= kids.len()
            &&& ({
                let m = merges(*config, kids, node::keys_view(old(separators)@), 0);
                shape::all_alike(kids2, m.0) && node::keys_view(final(separators)@) == m.1
            })
            &&& work::fits_page(
                smaller::bare(fence, old(children)@, node::keys_view(old(separators)@)),
            ) ==> work::fits_page(
                smaller::bare(fence, final(children)@, node::keys_view(final(separators)@)),
            )
        }),
{
    let ghost s0 = pool.view();
    let ghost recs = shape::forest_recs(kids);
    let ghost seps0 = node::keys_view(separators@);
    let ghost fitted = work::fits_page(smaller::bare(fence, children@, seps0));
    let ghost goal = merges(*config, kids, seps0, 0);
    let ghost mut now = kids;
    let mut idx: usize = 0;
    proof {
        flush::forest_start(s0, fence, h, seps0, kids);
        all_alike_refl(goal.0);
    }
    while children.len() >= 1 && idx < children.len() - 1
        invariant
            pool.wf(),
            children@.len() >= 1,
            idx < children@.len(),
            s0 == old(pool).view(),
            recs == shape::forest_recs(kids),
            children@ == shape::pids_of(now),
            flush::forest_done(
                s0,
                pool.view(),
                fence,
                h,
                kids,
                node::keys_view(separators@),
                now,
                recs,
            ),
            shape::forest_recs(now) == recs,
            now.len() <= kids.len(),
            fitted ==> work::fits_page(
                smaller::bare(fence, children@, node::keys_view(separators@)),
            ),
            ({
                let m = merges(*config, now, node::keys_view(separators@), idx as int);
                shape::all_alike(m.0, goal.0) && m.1 == goal.1
            }),
        decreases 2 * children@.len() - idx,
    {
        let ghost s1 = pool.view();
        let ghost sp = node::keys_view(separators@);
        let ghost i = idx as int;
        let ghost before = now;
        proof {
            pair_of_forest(s1, fence, sp, now, h, i);
            assert(children@[i] == shape::pid_of(now[i]));
            assert(children@[i + 1] == shape::pid_of(now[i + 1]));
        }
        let left = pool.read_node(children[idx])?;
        let right = pool.read_node(children[idx + 1])?;
        let merged_pid = try_merge_pair(
            pool,
            config,
            &left,
            &right,
            separators[idx].as_slice(),
            Ghost(now[i]),
            Ghost(now[i + 1]),
            Ghost(h),
        )?;
        match merged_pid {
            None => {
                idx += 1;
            },
            Some(pid) => {
                let ghost m = merged(now[i], now[i + 1], sp[i], pid);
                proof {
                    replace_pair(s0, s1, pool.view(), fence, h, kids, sp, now, recs, i, m);
                    let m0 = merged(now[i], now[i + 1], sp[i], 0);
                    all_alike_refl(now);
                    assert(shape::alike(now[i], now[i]) && shape::alike(now[i + 1], now[i + 1]));
                    alike_merged(now[i], now[i + 1], now[i], now[i + 1], sp[i], pid, 0);
                    replaced_alike(now, now, i, m, m0);
                    let x = now.update(i, m).remove(i + 1);
                    let y = now.update(i, m0).remove(i + 1);
                    alike_merges(*config, x, y, sp.remove(i), i);
                    all_alike_trans(
                        merges(*config, x, sp.remove(i), i).0,
                        merges(*config, y, sp.remove(i), i).0,
                        goal.0,
                    );
                    now = x;
                }
                let ghost c0 = children@;
                children.set(idx, pid);
                let _child: u64 = children.remove(idx + 1);
                let _separator = separators.remove(idx);
                proof {
                    if fitted {
                        smaller::one_child_less_fits(fence, c0, sp, children@, i);
                    }
                    assert(children@ =~= shape::pids_of(now));
                    assert(node::keys_view(separators@) =~= sp.remove(i));
                }
            },
        }
    }
    Ok(Ghost(now))
}

/// What becomes of a tree without waiting messages when it is compacted: in every
/// node, from the leaves up, the children are merged.
pub open spec fn compacted(config: CowBeTreeConfig, t: TreeView) -> TreeView
    decreases t,
{
    match t {
        TreeView::Leaf { .. } => t,
        TreeView::Node { pid, fence, separators, buffer, kids } => {
            let m = merges(config, compacted_all(config, kids), separators, 0);
            TreeView::Node { pid, fence, separators: m.1, buffer, kids: m.0 }
        },
    }
}

pub open spec fn compacted_all(config: CowBeTreeConfig, kids: Seq<TreeView>) -> Seq<TreeView>
    decreases kids,
{
    if kids.len() == 0 {
        Seq::empty()
    } else {
        compacted_all(config, kids.drop_last()).push(compacted(config, kids.last()))
    }
}

pub proof fn compacted_each(config: CowBeTreeConfig, kids: Seq<TreeView>)
    ensures
        compacted_all(config, kids).len() == kids.len(),
        forall|i: int|
            0 <= i < kids.len() ==> #[trigger] compacted_all(config, kids)[i] == compacted(
                config,
                kids[i],
            ),
    decreases kids.len(),
{
    if kids.len() > 0 {
        compacted_each(config, kids.drop_last());
        assert forall|i: int| 0 <= i < kids.len() implies #[trigger] compacted_all(config, kids)[i]
            == compacted(config, kids[i]) by {
            if i < kids.len() - 1 {
                assert(compacted_all(config, kids.drop_last())[i] == compacted(
                    config,
                    kids.drop_last()[i],
                ));
            }
        }
    }
}

/// Alike trees are compacted alike.
pub proof fn alike_compacted(config: CowBeTreeConfig, a: TreeView, b: TreeView)
    requires
        shape::alike(a, b),
    ensures
        shape::alike(compacted(config, a), compacted(config, b)),
    decreases a,
{
    if a is Node {
        let x = compacted_all(config, a->kids);
        let y = compacted_all(config, b->kids);
        compacted_each(config, a->kids);
        compacted_each(config, b->kids);
        assert forall|i: int|
            #![trigger x[i]]
            #![trigger y[i]]
            0 <= i < x.len() implies shape::alike(x[i], y[i]) by {
            assert(shape::alike(a->kids[i], b->kids[i]));
            alike_compacted(config, a->kids[i], b->kids[i]);
        }
        alike_merges(config, x, y, a->separators, 0);
    }
}

/// Merge small trees bottom-up. A node with messages in its buffer is flushed
/// instead.
#[verifier::rlimit(60)]
#[verifier::spinoff_prover]
pub fn compact_page(
    pool: &mut PagePool,
    config: &CowBeTreeConfig,
    pid: u64,
    hint: &mut u64,
    Ghost(t): Ghost<TreeView>,
    Ghost(h): Ghost<nat>,
) -> (r: Result<Rewrite, CowBeTreeError>)
    requires
        old(pool).wf(),
        shape::rep(old(pool).view().pages, t),
        shape::wf(t, h),
        pid == shape::pid_of(t),
    ensures
        final(pool).wf(),
        match r {
            Ok(rw) => {
                &&& leaf_work::outcome(
                    old(pool).view(),
                    final(pool).view(),
                    rw,
                    shape::fence_of(t),
                    h,
                    shape::tree_pids(t),
                    shape::tree_recs(t),
                )
                &&& t is Leaf ==> rw is One && rw->tree@ == work::with_pid(t, rw->pid)
                &&& rw is Split && work::own_root(old(pool).view(), t) ==> rw->left_pid == pid
                &&& rw is One && work::own_root(old(pool).view(), t) ==> rw->pid == pid
            },
            Err(_) => rewrite::failed(old(pool).view(), final(pool).view(), shape::tree_pids(t)),
        },
        shape::settled(t, config.max_internal_children) ==> r is Ok && r->Ok_0 is One
            && shape::alike(r->Ok_0->tree@, compacted(*config, t)),
        course::came_out(r, drain::packed(*config, course::bare(t), h)),
    decreases h,
{
    let ghost s0 = pool.view();
    let ghost all = shape::tree_pids(t);
    let ghost recs = shape::tree_recs(t);
    let own: u64 = work::ensure_mutable(pool, pid, Ghost(t), Ghost(h))?;
    let ghost s1 = pool.view();
    let ghost t1 = work::with_pid(t, own);
    let ghost max = config.max_internal_children;
    let ghost calm = shape::settled(t, max);
    proof {
        rewrite::failed_if(s0, s1, all, shape::tree_pids(t1));
        shape::refine_refl(recs);
        course::bare_with_pid(t, own);
        course::bare_node(t1);
    }
    let (fence, mut children, mut separators, buffer) = match pool.read_node(own)? {
        NodePage::Leaf { .. } => {
            let rw = Rewrite::One { pid: own, tree: Ghost(t1) };
            proof {
                leaf_work::outcome_one(s0, s1, rw, h, all, recs);
                course::out_trees(rw);
            }
            return Ok(rw);
        },
        NodePage::Internal { fence, children, separators, buffer } => (
            fence,
            children,
            separators,
            buffer,
        ),
    };
    let ghost kids = t1->kids;
    let ghost kh = (h - 1) as nat;
    proof {
        node_on_page(s1, t1, h);
        drain::buffer_is_sized(s1, t1);
    }
    if buffer.len() > 0 {
        let result = flush::flush_internal(
            pool,
            config,
            own,
            &fence,
            children,
            separators,
            buffer,
            hint,
            Ghost(kids),
            Ghost(kh),
        );
        return match result {
            Ok(rw) => {
                proof {
                    rewrite::outcome_after(
                        s0,
                        s1,
                        pool.view(),
                        rw,
                        fence@,
                        h,
                        all,
                        shape::tree_pids(t1),
                        recs,
                        recs,
                    );
                }
                Ok(rw)
            },
            Err(e) => {
                proof {
                    pool::step_trans(
                        s0,
                        s1,
                        pool.view(),
                        all,
                        shape::tree_pids(t1),
                        Set::<u64>::empty(),
                    );
                }
                Err(e)
            },
        };
    }
    let ghost recs2 = shape::forest_recs(kids);
    proof {
        assert(t1->buffer =~= Seq::<MessageView>::empty());
        assert(rewrite::node_recs(Seq::empty(), kids) =~= recs2);
        flush::forest_start(s1, fence@, kh, t1->separators, kids);
        if calm {
            assert(shape::settled(t1, max));
            settled_stays_whole(s1, t1, max);
        }
    }
    let mut idx: usize = 0;
    let ghost mut now = kids;
    let ghost below = drain::each_packed(
        *config,
        t->separators,
        course::bare_all(kids),
        0,
        kh,
    );
    while idx < children.len()
        invariant
            pool.wf(),
            h > 0,
            kh == h - 1,
            idx <= children@.len(),
            s0 == old(pool).view(),
            all == shape::tree_pids(t),
            kids == t->kids,
            t is Node,
            children@ == shape::pids_of(now),
            flush::forest_done(
                s1,
                pool.view(),
                fence@,
                kh,
                kids,
                node::keys_view(separators@),
                now,
                recs2,
            ),
            pool::step(s0, s1, all, rewrite::node_pids(own, kids)),
            max == config.max_internal_children,
            calm == shape::settled(t, max),
            calm ==> {
                &&& now.len() == kids.len() <= max
                &&& node::keys_view(separators@) == t->separators
                &&& forall|j: int| idx <= j < now.len() ==> shape::settled(#[trigger] now[j], max)
                &&& forall|j: int| idx <= j < now.len() ==> #[trigger] now[j] == kids[j]
                &&& forall|j: int|
                    0 <= j < idx ==> shape::alike(#[trigger] now[j], compacted(*config, kids[j]))
            },
            below == drain::each_packed(
                *config,
                node::keys_view(separators@),
                course::bare_all(now),
                idx as int,
                kh,
            ),
            below matches Err(e) ==> drain::packed(*config, course::bare(t), h) == Err::<
                course::Out,
                CowBeTreeError,
            >(e),
        decreases children@.len() - idx,
    {
        let ghost sa = pool.view();
        let ghost sp = node::keys_view(separators@);
        let ghost i = idx as int;
        proof {
            assert(children@[i] == shape::pid_of(now[i]));
            assert(shape::rep(sa.pages, now[i]));
            assert(shape::wf(now[i], kh));
            assert(course::bare_all(now)[i] == course::bare(now[i]));
        }
        let result = compact_page(
            pool,
            config,
            children[idx],
            hint,
            Ghost(now[i]),
            Ghost(kh),
        );
        let ghost sb = pool.view();
        let child_rewrite = match result {
            Ok(child_rewrite) => child_rewrite,
            Err(e) => {
                proof {
                    flush::forest_fails(s1, sa, sb, fence@, kh, kids, sp, now, recs2, i);
                    flush::failed_child_fails_node(s1, sb, own, kids);
                    pool::step_trans(
                        s0,
                        s1,
                        sb,
                        all,
                        rewrite::node_pids(own, kids),
                        Set::<u64>::empty(),
                    );
                }
                return Err(e);
            },
        };
        let ghost now2 = shape::spliced_kids(now, i, i + 1, leaf_work::kids_of(child_rewrite));
        let ghost none = Set::<MessageView>::empty();
        proof {
            assert(shape::tree_recs(now[i]).union(none) =~= shape::tree_recs(now[i]));
            flush::forest_more(
                s1,
                sa,
                sb,
                fence@,
                kh,
                kids,
                sp,
                now,
                recs2,
                i,
                child_rewrite,
                none,
            );
            assert(recs2.union(none) =~= recs2);
            course::bare_spliced(sp, now, i, child_rewrite);
            if calm {
                assert(shape::settled(now[i], max));
                one_in_place(now, sp, i, child_rewrite);
                assert(now[i] == kids[i]);
                assert forall|j: int| 0 <= j < idx + 1 implies shape::alike(
                    #[trigger] now2[j],
                    compacted(*config, kids[j]),
                ) by {
                    if j < idx {
                        assert(shape::alike(now[j], compacted(*config, kids[j])));
                    }
                }
            }
        }
        let added: usize = flush::install_child_rewrite(
            &mut children,
            &mut separators,
            idx,
            child_rewrite,
        )?;
        proof {
            assert(children@ =~= shape::pids_of(now2));
            now = now2;
        }
        let count: usize = children.len();
        assert(idx + 1 + added <= count);
        idx = idx + 1 + added;
    }
    let ghost s2 = pool.view();
    let ghost seps2 = node::keys_view(separators@);
    proof {
        if calm {
            smaller::other_children_fit(fence@, shape::pids_of(kids), seps2, children@);
            compacted_each(*config, kids);
            let goals = compacted_all(*config, kids);
            assert forall|j: int|
                #![trigger now[j]]
                #![trigger goals[j]]
                0 <= j < now.len() implies shape::alike(now[j], goals[j]) by {
                assert(shape::alike(now[j], compacted(*config, kids[j])));
            }
            alike_merges(*config, now, goals, seps2, 0);
        }
    }
    let Ghost(kids3) = merge_siblings(
        pool,
        config,
        &mut children,
        &mut separators,
        Ghost(fence@),
        Ghost(now),
        Ghost(kh),
    )?;
    let ghost s3 = pool.view();
    let ghost seps3 = node::keys_view(separators@);
    proof {
        drain::bare_merges(*config, now, seps2, kids3);
        pool::step_trans(
            s1,
            s2,
            s3,
            shape::forest_pids(kids),
            shape::forest_pids(now),
            shape::forest_pids(kids3),
        );
        assert(flush::forest_done(s1, s3, fence@, kh, kids, seps3, kids3, recs2));
        flush::still_over(s1, s3, own, fence@, kh, kids, seps3, kids3, recs2, Seq::empty());
        pool::step_trans(
            s0,
            s1,
            s3,
            all,
            rewrite::node_pids(own, kids),
            rewrite::node_pids(own, kids3),
        );
        if calm {
            all_alike_trans(
                kids3,
                merges(*config, now, seps2, 0).0,
                merges(*config, compacted_all(*config, kids), seps2, 0).0,
            );
        }
    }
    let result = rewrite::rewrite_internal_empty_buffer(
        pool,
        config,
        own,
        &fence,
        children.as_slice(),
        separators.as_slice(),
        Ghost(kids3),
        Ghost(kh),
    );
    match result {
        Ok(rw) => {
            proof {
                shape::refine_trans(shape::forest_recs(kids3), recs2, recs);
                rewrite::outcome_after(
                    s0,
                    s3,
                    pool.view(),
                    rw,
                    fence@,
                    h,
                    all,
                    rewrite::node_pids(own, kids3),
                    recs,
                    shape::forest_recs(kids3),
                );
            }
            Ok(rw)
        },
        Err(e) => {
            proof {
                pool::step_trans(
                    s0,
                    s3,
                    pool.view(),
                    all,
                    rewrite::node_pids(own, kids3),
                    Set::<u64>::empty(),
                );
            }
            Err(e)
        },
    }
}

} // verus!
