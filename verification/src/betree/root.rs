//! The root of a tree: a new root over what a rewrite left, splits of a root
//! leaf, and roots with one child.
use vstd::prelude::*;

use crate::betree::compact;
use crate::betree::config::CowBeTreeConfig;
use crate::betree::course;
use crate::betree::flush;
use crate::betree::layout;
use crate::betree::layout_laws;
use crate::betree::leaf_append;
use crate::betree::leaf_work;
use crate::betree::leaf_work::Rewrite;
use crate::betree::lookup::LeafPageReader;
use crate::betree::message;
use crate::betree::message::{BufferedMessage, MessageView};
use crate::betree::node;
use crate::betree::node::{CowBeTreeError, EntryView, Fence, FenceView, NodePage, NodeView};
use crate::betree::pool;
use crate::betree::pool::{DirtyPage, PagePool, PoolView};
use crate::betree::rewrite;
use crate::betree::shape;
use crate::betree::shape::TreeView;
use crate::betree::smaller;
use crate::betree::takes;
use crate::betree::split;
use crate::betree::work;
use crate::bytes;
use crate::page_id::PAGE_SIZE;

verus! {

/// A tree whose root page was copied to a new page and given up.
proof fn moved_copy(s1: PoolView, s2: PoolView, t: TreeView, h: nat, new_pid: u64)
    requires
        pool::pool_ok(s1),
        pool::pool_ok(s2),
        shape::rep(s1.pages, t),
        shape::wf(t, h),
        s2 == work::allocated(s1, shape::node_of(t)),
        new_pid == s1.pages.len(),
    ensures
        shape::wf(work::with_pid(t, new_pid), h),
        shape::rep(s2.pages, work::with_pid(t, new_pid)),
        shape::fence_of(work::with_pid(t, new_pid)) == shape::fence_of(t),
        shape::tree_recs(work::with_pid(t, new_pid)) == shape::tree_recs(t),
        pool::step(
            s1,
            s2,
            shape::tree_pids(t),
            shape::tree_pids(work::with_pid(t, new_pid)),
        ),
        shape::tree_pids(t).subset_of(
            shape::tree_pids(work::with_pid(t, new_pid)).insert(shape::pid_of(t)),
        ),
        !shape::tree_pids(work::with_pid(t, new_pid)).contains(shape::pid_of(t)),
{
    let n = shape::node_of(t);
    let pid = shape::pid_of(t);
    let t2 = work::with_pid(t, new_pid);
    work::read_node_fits(s1.pages[pid as int]);
    work::allocated_step(s1, n);
    shape::tree_parts(t);
    shape::tree_parts(t2);
    if shape::has_pid(t, new_pid) {
        shape::rep_in_bounds(s1.pages, t, new_pid);
    }
    work::with_pid_facts(t, h, new_pid);
    let a = shape::tree_pids(t);
    let b = shape::tree_pids(t2);
    assert forall|p: u64| #[trigger] a.contains(p) implies p < s1.pages.len() by {
        shape::rep_in_bounds(s1.pages, t, p);
    }
    match t {
        TreeView::Leaf { .. } => {
            compact::step_gives_up(s1, s2, Set::<u64>::empty(), work::one(new_pid), a);
        },
        TreeView::Node { kids, .. } => {
            let rest = shape::forest_pids(kids);
            shape::wf_node(t, h);
            assert(shape::rep_all(s1.pages, kids));
            work::rep_others(s1, s2, kids, Set::<u64>::empty(), work::one(new_pid));
            pool::step_widen(s1, s2, Set::<u64>::empty(), work::one(new_pid), rest);
            assert(Set::<u64>::empty().union(rest) =~= rest);
            assert(work::one(new_pid).union(rest) =~= b);
            compact::step_gives_up(s1, s2, rest, b, a);
            assert(!rest.contains(pid));
        },
    }
}

/// The left of two trees side by side was moved.
proof fn left_moved(
    s1: PoolView,
    s2: PoolView,
    rw: Rewrite,
    fence: FenceView,
    h: nat,
    new_pid: u64,
)
    requires
        pool::pool_ok(s1),
        pool::pool_ok(s2),
        rw is Split,
        shape::forest(fence, leaf_work::separators_of(rw), leaf_work::kids_of(rw), h),
        shape::rep_all(s1.pages, leaf_work::kids_of(rw)),
        s2 == work::allocated(s1, shape::node_of(rw->left@)),
        new_pid == s1.pages.len(),
    ensures
        ({
            let kids = leaf_work::kids_of(rw);
            let kids2 = seq![work::with_pid(rw->left@, new_pid), rw->right@];
            let pid = shape::pid_of(rw->left@);
            &&& shape::forest(fence, leaf_work::separators_of(rw), kids2, h)
            &&& shape::rep_all(s2.pages, kids2)
            &&& pool::step(s1, s2, shape::forest_pids(kids), shape::forest_pids(kids2))
            &&& shape::refine(shape::forest_recs(kids2), shape::forest_recs(kids))
            &&& !shape::forest_pids(kids2).contains(pid)
            &&& shape::forest_pids(kids).subset_of(shape::forest_pids(kids2).insert(pid))
        }),
{
    let kids = leaf_work::kids_of(rw);
    let seps = leaf_work::separators_of(rw);
    let l = rw->left@;
    let pid = shape::pid_of(l);
    let l2 = work::with_pid(l, new_pid);
    let kids2 = seq![l2, rw->right@];
    assert(kids[0] == l);
    assert(kids[1] == rw->right@);
    assert(shape::rep(s1.pages, kids[0]));
    assert(shape::wf(kids[0], h));
    moved_copy(s1, s2, l, h, new_pid);
    let rw1 = Rewrite::One { pid: new_pid, tree: Ghost(l2) };
    let none = Set::<MessageView>::empty();
    shape::refine_refl(shape::tree_recs(l));
    assert(shape::tree_recs(l).union(none) =~= shape::tree_recs(l));
    leaf_work::outcome_one(s1, s2, rw1, h, shape::tree_pids(l), shape::tree_recs(l));
    leaf_work::replace_child(s1, s2, fence, seps, kids, h, 0, rw1, none);
    assert(shape::spliced_kids(kids, 0, 1, leaf_work::kids_of(rw1)) =~= kids2);
    assert(shape::spliced_separators(seps, 0, 1, leaf_work::separators_of(rw1)) =~= seps);
    assert(shape::forest_recs(kids).union(none) =~= shape::forest_recs(kids));
    assert(kids.take(0) =~= Seq::<TreeView>::empty());
    assert(kids.skip(1) =~= seq![rw->right@]);
    shape::forest_of_one(rw->right@);
    shape::forest_of_one(l2);
    assert(shape::forest_pids(Seq::<TreeView>::empty()) =~= Set::<u64>::empty());
    assert(shape::disjoint_pids(kids[0], kids[1]));
    assert(shape::has_pid(l, pid));
    assert(leaf_work::kids_of(rw1) =~= seq![l2]);
}

/// The pages of `before` are still pages of the tree, but for the root page; what
/// counts for the page of the next append.
pub open spec fn covers(after: Set<u64>, root: u64, t: TreeView) -> bool {
    after.subset_of(shape::tree_pids(t)) && shape::tree_pids(t).contains(root)
}

/// The page id and the tree of a root over what a rewrite of the root left. Two
/// trees get a new node over them, on the root page if it is kept, else on a new
/// page.
pub fn root_pid_from_rewrite(
    pool: &mut PagePool,
    root_pid: u64,
    rw: Rewrite,
    keep_root: bool,
    Ghost(s0): Ghost<PoolView>,
    Ghost(h): Ghost<nat>,
    Ghost(before): Ghost<Set<u64>>,
    Ghost(recs): Ghost<Set<MessageView>>,
) -> (r: Result<(u64, Ghost<TreeView>, Ghost<nat>), CowBeTreeError>)
    requires
        old(pool).wf(),
        pool::pool_ok(s0),
        leaf_work::outcome(s0, old(pool).view(), rw, node::root_fence(), h, before, recs),
        keep_root ==> {
            &&& before.contains(root_pid)
            &&& 0 < root_pid < s0.pages.len()
            &&& !pool::is_shared(s0, root_pid)
            &&& rw is Split && rw->left_pid != root_pid ==> !shape::forest_pids(
                leaf_work::kids_of(rw),
            ).contains(root_pid)
        },
        !keep_root && rw is Split ==> rw->left_pid != root_pid,
    ensures
        final(pool).wf(),
        match r {
            Ok((pid, t, th)) => {
                &&& shape::wf(t@, th@)
                &&& shape::rep(final(pool).view().pages, t@)
                &&& shape::fence_of(t@) == node::root_fence()
                &&& shape::pid_of(t@) == pid
                &&& pool::step(s0, final(pool).view(), before, shape::tree_pids(t@))
                &&& shape::refine(shape::tree_recs(t@), recs)
                &&& rw matches Rewrite::One { pid: p, tree } ==> p == pid && tree@ == t@
                    && final(pool).view() == old(pool).view() && th@ == h
                &&& rw is Split ==> {
                    &&& th@ == h + 1
                    &&& t@ is Node
                    &&& t@->buffer.len() == 0
                    &&& shape::all_unbuffered(leaf_work::kids_of(rw)) ==> shape::unbuffered(t@)
                    &&& keep_root ==> pid == root_pid && covers(
                        shape::forest_pids(leaf_work::kids_of(rw)),
                        root_pid,
                        t@,
                    )
                    &&& keep_root && rw->left_pid == root_pid ==> final(pool).view().pages.len()
                        > old(pool).view().pages.len()
                    &&& !keep_root ==> pid >= old(pool).view().pages.len()
                }
            },
            Err(_) => rewrite::failed(s0, final(pool).view(), before),
        },
        match course::rooted(Ok(course::out_of(rw))) {
            Ok(whole) => r is Ok && course::bare(r->Ok_0.1@) == whole,
            Err(e) => r is Err && r->Err_0 == e,
        },
{
    proof {
        course::out_trees(rw);
    }
    let ghost s1 = pool.view();
    let ghost kids = leaf_work::kids_of(rw);
    let ghost seps = leaf_work::separators_of(rw);
    let ghost fence = node::root_fence();
    let ghost rw0 = rw;
    match rw {
        Rewrite::One { pid, tree } => {
            proof {
                let k = leaf_work::kids_of(rw0);
                assert(k[0] == tree@);
                assert(shape::wf(k[0], h));
                assert(shape::rep(s1.pages, k[0]));
                shape::forest_of_one(tree@);
                assert(shape::child_fence(fence, Seq::empty(), 0) =~= fence);
            }
            Ok((pid, tree, Ghost(h)))
        },
        Rewrite::Split { left_pid, right_pid, separator, left: _, right: _ } => {
            proof {
                rewrite::failed_if(s0, s1, before, shape::forest_pids(kids));
            }
            let (children, Ghost(kids2)) = split_children(
                pool,
                root_pid,
                keep_root,
                left_pid,
                right_pid,
                Ghost(rw0),
                Ghost(h),
            )?;
            let ghost s2 = pool.view();
            let mut separators: Vec<Vec<u8>> = Vec::new();
            let ghost sep = separator@;
            separators.push(separator);
            proof {
                assert(node::keys_view(separators@) =~= seps);
                assert(seps =~= seq![sep]);
                course::other_children_fit(
                    fence,
                    shape::pids_of(course::out_of(rw0).kids),
                    children@,
                    seps,
                    Seq::empty(),
                );
                pool::step_trans(
                    s0,
                    s1,
                    s2,
                    before,
                    shape::forest_pids(kids),
                    shape::forest_pids(kids2),
                );
                shape::refine_trans(
                    shape::forest_recs(kids2),
                    shape::forest_recs(kids),
                    recs,
                );
            }
            let (pid, Ghost(t)) = root_over(
                pool,
                root_pid,
                keep_root,
                &children,
                &separators,
                Ghost(s0),
                Ghost(kids2),
                Ghost(h),
                Ghost(before),
                Ghost(recs),
            )?;
            proof {
                course::bare_node(t);
                course::out_trees(rw0);
            }
            Ok((pid, Ghost(t), Ghost(h + 1)))
        },
    }
}

/// The children of a new root: the trees that a rewrite left, the left one moved
/// to a new page if it stands on the root page.
#[verifier::spinoff_prover]
#[verifier::rlimit(40)]
fn split_children(
    pool: &mut PagePool,
    root_pid: u64,
    keep_root: bool,
    left_pid: u64,
    right_pid: u64,
    Ghost(rw): Ghost<Rewrite>,
    Ghost(h): Ghost<nat>,
) -> (r: Result<(Vec<u64>, Ghost<Seq<TreeView>>), CowBeTreeError>)
    requires
        old(pool).wf(),
        rw is Split,
        leaf_work::names_trees(rw),
        left_pid == rw->left_pid,
        right_pid == rw->right_pid,
        shape::forest(
            node::root_fence(),
            leaf_work::separators_of(rw),
            leaf_work::kids_of(rw),
            h,
        ),
        shape::rep_all(old(pool).view().pages, leaf_work::kids_of(rw)),
    ensures
        final(pool).wf(),
        r is Ok,
        ({
            let kids = leaf_work::kids_of(rw);
            let kids2 = r->Ok_0.1@;
            let s1 = old(pool).view();
            let s2 = final(pool).view();
            &&& r->Ok_0.0@ == shape::pids_of(kids2)
            &&& shape::forest(node::root_fence(), leaf_work::separators_of(rw), kids2, h)
            &&& shape::rep_all(s2.pages, kids2)
            &&& pool::step(s1, s2, shape::forest_pids(kids), shape::forest_pids(kids2))
            &&& shape::refine(shape::forest_recs(kids2), shape::forest_recs(kids))
            &&& shape::all_unbuffered(kids) ==> shape::all_unbuffered(kids2)
            &&& course::bare_all(kids2) == course::bare_all(kids)
            &&& if keep_root && left_pid == root_pid {
                &&& !shape::forest_pids(kids2).contains(root_pid)
                &&& shape::forest_pids(kids).subset_of(
                    shape::forest_pids(kids2).insert(root_pid),
                )
                &&& s2.pages.len() > s1.pages.len()
            } else {
                kids2 == kids && s2 == s1
            }
        }),
{
    let ghost s1 = pool.view();
    let ghost kids = leaf_work::kids_of(rw);
    let mut children: Vec<u64> = Vec::new();
    proof {
        assert(kids[0] == rw->left@);
        assert(kids[1] == rw->right@);
        assert(shape::rep(s1.pages, kids[0]));
        shape::refine_refl(shape::forest_recs(kids));
        pool::step_refl(s1, shape::forest_pids(kids));
    }
    if keep_root && left_pid == root_pid {
        let node = pool.read_node(left_pid)?;
        proof {
            work::read_node_fits(s1.pages[left_pid as int]);
        }
        let new_pid: u64 = work::allocate_node(pool, &node)?;
        children.push(new_pid);
        children.push(right_pid);
        let ghost kids2 = seq![work::with_pid(rw->left@, new_pid), rw->right@];
        proof {
            left_moved(s1, pool.view(), rw, node::root_fence(), h, new_pid);
            course::bare_with_pid(rw->left@, new_pid);
            assert(course::bare_all(kids2) =~= course::bare_all(kids));
            assert(children@ =~= shape::pids_of(kids2));
            if shape::all_unbuffered(kids) {
                moved_unbuffered(kids, kids2);
            }
        }
        return Ok((children, Ghost(kids2)));
    }
    children.push(left_pid);
    children.push(right_pid);
    assert(children@ =~= shape::pids_of(kids));
    Ok((children, Ghost(kids)))
}

/// A new root over a forest: on the root page if it is kept, else on a new page.
fn root_over(
    pool: &mut PagePool,
    root_pid: u64,
    keep_root: bool,
    children: &Vec<u64>,
    separators: &Vec<Vec<u8>>,
    Ghost(s0): Ghost<PoolView>,
    Ghost(kids): Ghost<Seq<TreeView>>,
    Ghost(h): Ghost<nat>,
    Ghost(before): Ghost<Set<u64>>,
    Ghost(recs): Ghost<Set<MessageView>>,
) -> (r: Result<(u64, Ghost<TreeView>), CowBeTreeError>)
    requires
        old(pool).wf(),
        pool::pool_ok(s0),
        children@ == shape::pids_of(kids),
        shape::forest(node::root_fence(), node::keys_view(separators@), kids, h),
        shape::rep_all(old(pool).view().pages, kids),
        pool::step(s0, old(pool).view(), before, shape::forest_pids(kids)),
        shape::refine(shape::forest_recs(kids), recs),
        keep_root ==> {
            &&& before.contains(root_pid)
            &&& 0 < root_pid < s0.pages.len()
            &&& !pool::is_shared(s0, root_pid)
            &&& !shape::forest_pids(kids).contains(root_pid)
        },
    ensures
        final(pool).wf(),
        match r {
            Ok((pid, t)) => {
                &&& t@ == (TreeView::Node {
                    pid,
                    fence: node::root_fence(),
                    separators: node::keys_view(separators@),
                    buffer: Seq::empty(),
                    kids,
                })
                &&& shape::wf(t@, h + 1)
                &&& shape::rep(final(pool).view().pages, t@)
                &&& pool::step(s0, final(pool).view(), before, shape::tree_pids(t@))
                &&& shape::refine(shape::tree_recs(t@), recs)
                &&& shape::tree_pids(t@) == shape::forest_pids(kids).insert(pid)
                &&& final(pool).view().pages.len() >= old(pool).view().pages.len()
                &&& keep_root ==> pid == root_pid
                &&& !keep_root ==> pid >= old(pool).view().pages.len()
            },
            Err(_) => rewrite::failed(s0, final(pool).view(), before),
        },
        match course::inner_placed(
            node::root_fence(),
            node::keys_view(separators@),
            Seq::empty(),
            kids,
        ) {
            Ok(_) => r is Ok,
            Err(e) => r is Err && r->Err_0 == e,
        },
{
    let ghost s2 = pool.view();
    let ghost fence = node::root_fence();
    let ghost seps = node::keys_view(separators@);
    let root_fence = Fence::root();
    let buffer: Vec<BufferedMessage> = Vec::new();
    proof {
        rewrite::failed_if(s0, s2, before, shape::forest_pids(kids));
        assert(message::messages_view(buffer@) =~= Seq::<MessageView>::empty());
        assert(shape::message_recs(Seq::empty()) =~= Set::<MessageView>::empty());
        assert(rewrite::node_recs(Seq::empty(), kids) =~= shape::forest_recs(kids));
        course::bare_fits(fence, seps, Seq::empty(), kids);
    }
    if keep_root {
        let ghost all = rewrite::node_pids(root_pid, kids);
        proof {
            root_is_own(s0, s2, root_pid, before, shape::forest_pids(kids));
        }
        let result = rewrite::write_over(
            pool,
            root_pid,
            &root_fence,
            children.as_slice(),
            separators.as_slice(),
            buffer.as_slice(),
            Ghost(kids),
            Ghost(h),
        );
        match result {
            Ok(rw2) => {
                let ghost t = TreeView::Node {
                    pid: root_pid,
                    fence,
                    separators: seps,
                    buffer: Seq::empty(),
                    kids,
                };
                proof {
                    let s3 = pool.view();
                    root_tree(s2, s3, rw2, t, h + 1, all);
                    pool::step_trans(s0, s2, s3, before, all, shape::tree_pids(t));
                    shape::refine_trans(shape::tree_recs(t), shape::forest_recs(kids), recs);
                    flush::node_is_tree(t);
                }
                Ok((root_pid, Ghost(t)))
            },
            Err(e) => Err(e),
        }
    } else {
        let new_root: u64 = work::allocate_internal(
            pool,
            &root_fence,
            children.as_slice(),
            separators.as_slice(),
            buffer.as_slice(),
        )?;
        let ghost t = TreeView::Node {
            pid: new_root,
            fence,
            separators: seps,
            buffer: Seq::empty(),
            kids,
        };
        proof {
            let s3 = pool.view();
            work::node_allocated(s2, fence, seps, Seq::empty(), kids, h);
            pool::step_trans(
                s0,
                s2,
                s3,
                before,
                shape::forest_pids(kids),
                shape::tree_pids(t),
            );
            assert(shape::tree_recs(t) =~= shape::forest_recs(kids));
        }
        Ok((new_root, Ghost(t)))
    }
}

/// The one tree of a rewrite.
proof fn root_tree(s1: PoolView, s2: PoolView, rw: Rewrite, t: TreeView, h: nat, before: Set<u64>)
    requires
        rw is One,
        rw->tree@ == t,
        t is Node,
        leaf_work::outcome(s1, s2, rw, node::root_fence(), h, before, shape::forest_recs(t->kids)),
    ensures
        shape::wf(t, h),
        shape::rep(s2.pages, t),
        pool::step(s1, s2, before, shape::tree_pids(t)),
        shape::refine(shape::tree_recs(t), shape::forest_recs(t->kids)),
{
    let k = leaf_work::kids_of(rw);
    assert(k[0] == t);
    assert(shape::wf(k[0], h));
    assert(shape::rep(s2.pages, k[0]));
    shape::forest_of_one(t);
}

proof fn moved_unbuffered(kids: Seq<TreeView>, kids2: Seq<TreeView>)
    requires
        kids.len() == 2,
        kids2.len() == 2,
        shape::all_unbuffered(kids),
        kids2[1] == kids[1],
        kids2[0] == kids[0] || exists|p: u64| kids2[0] == work::with_pid(kids[0], p),
    ensures
        shape::all_unbuffered(kids2),
{
    assert(shape::unbuffered(kids[0]));
    assert(shape::unbuffered(kids[1]));
}

/// A page of one's own that work on the tree did not touch, or kept, may still
/// be written, and beside the forest it is there.
proof fn root_is_own(s0: PoolView, s2: PoolView, root: u64, before: Set<u64>, after: Set<u64>)
    requires
        pool::pool_ok(s0),
        pool::step(s0, s2, before, after),
        0 < root < s0.pages.len(),
        before.contains(root),
        !pool::is_shared(s0, root),
    ensures
        !pool::is_shared(s2, root),
        0 < root < s2.pages.len(),
        pool::step(s0, s2, before, after.insert(root)),
{
    assert(pool::owners(s2, root) <= pool::owners(s0, root));
    assert(pool::owners(s0, root) == 1) by {
        if s0.shared.contains_key(root) {
            assert(1 <= s0.shared[root] <= s0.active_roots);
        }
    }
    assert(pool::owners(s2, root) == 1) by {
        if s2.shared.contains_key(root) {
            assert(1 <= s2.shared[root]);
        }
    }
    let b = after.insert(root);
    assert forall|p: u64|
        #![trigger pool::owners(s2, p)]
        p < s0.pages.len() && (!before.contains(p) || b.contains(p)) implies pool::owners(s2, p)
        == pool::owners(s0, p) by {
        if p != root {
            assert(!before.contains(p) || after.contains(p));
        }
    }
}

// ---------------------------------------------------------------------------
// A full root leaf.

/// What a reader of a leaf page finds.
proof fn leaf_on_page(page: Seq<u8>, fence: FenceView, es: Seq<EntryView>)
    requires
        layout::parse_page(page) == Ok::<_, CowBeTreeError>(
            NodeView::Leaf { fence, entries: es },
        ),
    ensures
        layout::p_page(page) matches Ok((kind, body)) && {
            &&& kind is Leaf
            &&& layout::p_fence(body, 0) matches Ok((f, pos)) && f == fence && (
            layout::p_leaf_header(body, pos) matches Ok((n, _, dir)) && n == es.len() && forall|
                i: int,
            |
                0 <= i < es.len() ==> (#[trigger] layout::p_dir_offset(body, dir, i) matches Ok(
                    off,
                ) && (layout::p_bytes16(body, off) matches Ok((k, _)) && k == es[i].key)))
        },
        node::sorted_entries(es),
        forall|i: int| 0 <= i < es.len() ==> (#[trigger] es[i]).key.len() <= u16::MAX,
{
    layout_laws::read_page_is_canonical(page);
    let body = layout::p_page(page)->Ok_0.1;
    let base = layout::leaf_base(fence);
    layout_laws::leaf_written(fence, es);
    let dir = (base + layout::enc_entries(es).len()) as int;
    assert(dir == body.len() - 4 * es.len());
    layout_laws::entries_written(body, base, es, 0);
    assert forall|i: int| 0 <= i < es.len() implies (#[trigger] layout::p_dir_offset(
        body,
        dir,
        i,
    ) matches Ok(off) && (layout::p_bytes16(body, off) matches Ok((k, _)) && k == es[i].key)) by {
        let off = layout::entry_offset(base, es, i);
        assert(layout::p_dir_offset(body, dir, i) == Ok::<_, CowBeTreeError>(off));
        layout_laws::entry_written(body, off, es[i]);
    }
    assert forall|i: int| 0 <= i < es.len() implies (#[trigger] es[i]).key.len() <= u16::MAX by {
        assert(layout::entry_fits(es[i]));
    }
}

/// A split that went through had fences that fit.
proof fn split_fences_fit(
    src: Seq<u8>,
    left0: Seq<u8>,
    right0: Seq<u8>,
    left: Seq<u8>,
    right: Seq<u8>,
    fl: FenceView,
    fr: FenceView,
    mid: int,
    r: Result<split::SplitLeafResult, CowBeTreeError>,
)
    requires
        split::split_outcome(src, left0, right0, left, right, fl, fr, mid, r),
        r is Ok,
        left0.len() <= PAGE_SIZE,
        right0.len() <= PAGE_SIZE,
    ensures
        layout::fence_fits(fl),
        layout::fence_fits(fr),
{
    assert(layout::enc_fence(fl).len() <= PAGE_SIZE - layout::HEADER_SIZE);
    assert(layout::enc_fence(fr).len() <= PAGE_SIZE - layout::HEADER_SIZE);
}

/// The two pages of a split root leaf, the message appended to the right one,
/// were put into the pool.
proof fn root_leaf_was_split(
    s1: PoolView,
    s2: PoolView,
    s3: PoolView,
    t: TreeView,
    left: Seq<u8>,
    right: Seq<u8>,
    mid: int,
    m: MessageView,
    rw: Rewrite,
)
    requires
        pool::pool_ok(s1),
        pool::pool_ok(s2),
        pool::pool_ok(s3),
        t is Leaf,
        shape::wf(t, 0),
        shape::rep(s1.pages, t),
        0 < mid < t->entries.len(),
        node::in_fence(shape::fence_of(t), m.key),
        bytes::lex_lt(t->entries[t->entries.len() - 1].key, m.key),
        left.len() == PAGE_SIZE,
        right.len() == PAGE_SIZE,
        s2 == (PoolView {
            pages: s1.pages.push(left),
            dirty: s1.dirty.push(DirtyPage { pid: s1.pages.len() as u64, lsn: s1.lsn }),
            ..s1
        }),
        s3 == (PoolView {
            pages: s2.pages.push(right),
            dirty: s2.dirty.push(DirtyPage { pid: s2.pages.len() as u64, lsn: s2.lsn }),
            ..s2
        }),
        rw is Split,
        ({
            let es = t->entries;
            let sep = es[mid].key;
            let lf = FenceView { lower: shape::fence_of(t).lower, upper: Some(sep) };
            let rf = FenceView { lower: sep, upper: shape::fence_of(t).upper };
            let re = es.skip(mid) + leaf_append::single_entries(seq![m]);
            let lp = s1.pages.len() as u64;
            let rp = s2.pages.len() as u64;
            &&& rw->separator@ == sep
            &&& rw->left_pid == lp
            &&& rw->right_pid == rp
            &&& layout::parse_page(left) == Ok::<_, CowBeTreeError>(
                NodeView::Leaf { fence: lf, entries: es.take(mid) },
            )
            &&& layout::parse_page(right) == Ok::<_, CowBeTreeError>(
                NodeView::Leaf { fence: rf, entries: re },
            )
            &&& node::sorted_entries(re)
            &&& rw->left@ == (TreeView::Leaf { pid: lp, fence: lf, entries: es.take(mid) })
            &&& rw->right@ == (TreeView::Leaf { pid: rp, fence: rf, entries: re })
        }),
    ensures
        leaf_work::outcome(
            s1,
            s3,
            rw,
            shape::fence_of(t),
            0,
            shape::tree_pids(t),
            shape::tree_recs(t).union(shape::message_recs(seq![m])),
        ),
        !shape::forest_pids(leaf_work::kids_of(rw)).contains(shape::pid_of(t)),
        shape::forest_pids(leaf_work::kids_of(rw)).contains(rw->right_pid),
        shape::tree_pids(t) == work::one(shape::pid_of(t)),
{
    let es = t->entries;
    let fence = shape::fence_of(t);
    let sep = es[mid].key;
    let rf = FenceView { lower: sep, upper: fence.upper };
    let lp = s1.pages.len() as u64;
    let rp = s2.pages.len() as u64;
    rewrite::halves(es, fence, mid);
    assert(es.take(mid) =~= es.subrange(0, mid));
    assert(es.skip(mid) =~= es.subrange(mid, es.len() as int));
    let r0 = TreeView::Leaf { pid: rp, fence: rf, entries: es.skip(mid) };
    assert(shape::wf(r0, 0));
    assert(node::in_fence(rf, m.key)) by {
        broadcast use bytes::group_lex;

        if mid < es.len() - 1 {
            assert(bytes::lex_lt(es[mid].key, es[es.len() - 1].key));
        }
    }
    assert(shape::messages_inside(rf, seq![m])) by {
        assert(seq![m][0] == m);
    }
    leaf_work::appended_leaf_facts(r0, 0, seq![m]);
    assert(rw->right@ == leaf_work::appended_leaf(r0, seq![m]));
    shape::tree_parts(t);
    shape::tree_parts(rw->left@);
    shape::tree_parts(r0);
    shape::tree_parts(rw->right@);
    work::pushed_step(s1, s2, left);
    work::pushed_step(s2, s3, right);
    assert(shape::rep_all(s2.pages, seq![rw->left@]));
    shape::forest_of_one(rw->left@);
    work::rep_others(s2, s3, seq![rw->left@], Set::<u64>::empty(), work::one(rp));
    assert(shape::rep(s3.pages, seq![rw->left@][0]));
    pool::step_widen(s2, s3, Set::<u64>::empty(), work::one(rp), work::one(lp));
    assert(Set::<u64>::empty().union(work::one(lp)) =~= work::one(lp));
    let after = work::one(lp).union(work::one(rp));
    assert(work::one(rp).union(work::one(lp)) =~= after);
    pool::step_trans(s1, s2, s3, Set::<u64>::empty(), work::one(lp), after);
    compact::step_gives_up(s1, s3, Set::<u64>::empty(), after, shape::tree_pids(t));
    let recs = shape::tree_recs(t).union(shape::message_recs(seq![m]));
    assert(shape::tree_recs(rw->left@).union(shape::tree_recs(rw->right@)) =~= recs);
    shape::refine_refl(recs);
    leaf_work::outcome_split(s1, s3, rw, fence, 0, shape::tree_pids(t), recs);
}

/// Split a full root leaf for a put with a key behind its last key: the entries
/// go to two new pages without being taken apart, and the put behind them.
/// Nothing is done in other cases.
pub fn try_split_root_leaf_direct(
    pool: &mut PagePool,
    config: &CowBeTreeConfig,
    root_pid: u64,
    m: &BufferedMessage,
    hint: &mut u64,
    Ghost(t): Ghost<TreeView>,
    Ghost(h): Ghost<nat>,
) -> (r: Result<Option<Rewrite>, CowBeTreeError>)
    requires
        old(pool).wf(),
        shape::rep(old(pool).view().pages, t),
        shape::wf(t, h),
        root_pid == shape::pid_of(t),
        node::in_fence(shape::fence_of(t), m@.key),
    ensures
        final(pool).wf(),
        ({
            let s1 = old(pool).view();
            let s2 = final(pool).view();
            match r {
                Ok(Some(rw)) => {
                    &&& h == 0
                    &&& leaf_work::outcome(
                        s1,
                        s2,
                        rw,
                        shape::fence_of(t),
                        0,
                        shape::tree_pids(t),
                        shape::tree_recs(t).union(shape::message_recs(seq![m@])),
                    )
                    &&& rw is Split
                    &&& rw->left_pid != root_pid
                    &&& !shape::forest_pids(leaf_work::kids_of(rw)).contains(root_pid)
                    &&& shape::tree_pids(t) == work::one(root_pid)
                    &&& *final(hint) == rw->right_pid
                    &&& shape::forest_pids(leaf_work::kids_of(rw)).contains(*final(hint))
                    &&& t is Leaf
                    &&& !m@.version.deleted
                    &&& bytes::lex_lt(t->entries[t->entries.len() - 1].key, m@.key)
                },
                _ => s2 == s1 && *final(hint) == *old(hint),
            }
        }),
        r matches Ok(Some(rw)) ==> course::is_behind(t, m@) && course::out_of(rw)
            == course::cut_for(t, m@),
        r is Err ==> t is Leaf,
        takes::is_sized(m@) && takes::refusal(shape::node_of(t), m@) is None
            ==> match course::root_cut(config.max_leaf_entries, t, m@) {
            Ok(Some(_)) => r is Ok && r->Ok_0 is Some,
            Ok(None) => r is Ok && r->Ok_0 is None,
            Err(e) => r is Err && r->Err_0 == e,
        },
{
    let ghost s1 = pool.view();
    let pages = split_root_pages(
        pool.page(root_pid),
        m,
        config.max_leaf_entries,
        Ghost(shape::node_of(t)),
    )?;
    let (left, right, separator) = match pages {
        Some(pages) => pages,
        None => {
            return Ok(None);
        },
    };
    let ghost es = t->entries;
    let ghost mid = split_point(es.len() as int);
    let ghost left_image = left@;
    let ghost right_image = right@;
    let ghost sep = separator@;
    let ghost left_fence = FenceView { lower: shape::fence_of(t).lower, upper: Some(sep) };
    let ghost right_fence = FenceView { lower: sep, upper: shape::fence_of(t).upper };
    let left_pid: u64 = pool.allocate(left);
    let ghost s2 = pool.view();
    let right_pid: u64 = pool.allocate(right);
    let rw = Rewrite::Split {
        left_pid,
        right_pid,
        separator,
        left: Ghost(
            TreeView::Leaf { pid: left_pid, fence: left_fence, entries: es.take(mid) },
        ),
        right: Ghost(
            TreeView::Leaf {
                pid: right_pid,
                fence: right_fence,
                entries: es.skip(mid) + leaf_append::single_entries(seq![m@]),
            },
        ),
    };
    proof {
        root_leaf_was_split(s1, s2, pool.view(), t, left_image, right_image, mid, m@, rw);
        course::out_trees(rw);
        assert(es.skip(mid) + leaf_append::single_entries(seq![m@]) =~= es.skip(mid).push(
            leaf_append::single_entry(m@),
        ));
    }
    *hint = right_pid;
    Ok(Some(rw))
}

/// Where a full root leaf with `n` entries is split: behind the larger half.
pub open spec fn split_point(n: int) -> int {
    n - n / 2
}

/// A put behind the last key of a leaf: the leaf is cut at the same place with
/// the put as without it, and where the halves with it fit, so do those without.
pub proof fn put_behind_halves(fence: FenceView, es: Seq<EntryView>, m: MessageView)
    requires
        node::sorted_entries(es),
        es.len() >= 2,
        bytes::lex_lt(es[es.len() - 1].key, m.key),
        rewrite::halves_fit(fence, node::apply_message(es, m)),
    ensures
        ({
            let mid = split_point(es.len() as int);
            let es2 = node::apply_message(es, m);
            let sep = es[mid].key;
            &&& 0 < mid < es.len()
            &&& es2.len() == es.len() + 1
            &&& es2.len() as int / 2 == mid
            &&& es2[mid].key == sep
            &&& work::fits_page(
                NodeView::Leaf {
                    fence: FenceView { lower: fence.lower, upper: Some(sep) },
                    entries: es.take(mid),
                },
            )
            &&& work::fits_page(
                NodeView::Leaf {
                    fence: FenceView { lower: sep, upper: fence.upper },
                    entries: es.skip(mid),
                },
            )
        }),
{
    let mid = split_point(es.len() as int);
    let one = leaf_append::single_entry(m);
    takes::entry_behind(es, m);
    let es2 = es.push(one);
    assert(es2.take(mid) =~= es.take(mid));
    assert(es2.skip(mid) =~= es.skip(mid).push(one));
    smaller::one_entry_less_fits(
        FenceView { lower: es[mid].key, upper: fence.upper },
        es.skip(mid),
        one,
    );
}

/// The right half of a leaf takes a key behind the last one.
proof fn tail_takes(fence: FenceView, es: Seq<EntryView>, mid: int, m: MessageView)
    requires
        node::sorted_entries(es),
        0 < mid < es.len(),
        bytes::lex_lt(es[es.len() - 1].key, m.key),
    ensures
        node::in_fence(fence, m.key) ==> leaf_append::appendable(
            FenceView { lower: es[mid].key, upper: fence.upper },
            es.skip(mid),
            m.key,
        ),
        node::sorted_entries(es.skip(mid)),
{
    broadcast use bytes::group_lex;

    let right = es.skip(mid);
    assert(right.last() == es[es.len() - 1]);
    if mid < es.len() - 1 {
        assert(bytes::lex_lt(es[mid].key, es[es.len() - 1].key));
        bytes::lex_lt_transitive(es[mid].key, es[es.len() - 1].key, m.key);
    }
    bytes::lex_lt_asymmetric(es[mid].key, m.key);
    assert forall|i: int, j: int|
        #![trigger right[i], right[j]]
        0 <= i < j < right.len() implies bytes::lex_lt(right[i].key, right[j].key) by {
        assert(bytes::lex_lt(es[mid + i].key, es[mid + j].key));
    }
}

/// The pages of the halves of a leaf, cut before entry `mid`; this fails where one
/// of them has no place on a page.
fn cut_pages(
    src: &[u8],
    left_fence: &Fence,
    right_fence: &Fence,
    mid: usize,
    Ghost(fence): Ghost<FenceView>,
    Ghost(es): Ghost<Seq<EntryView>>,
) -> (r: Result<(Vec<u8>, Vec<u8>, Vec<u8>), CowBeTreeError>)
    requires
        layout::parse_page(src@) == Ok::<_, CowBeTreeError>(NodeView::Leaf { fence, entries: es }),
        src@.len() == PAGE_SIZE,
        0 < mid < es.len(),
        left_fence@ == (FenceView { lower: fence.lower, upper: Some(es[mid as int].key) }),
        right_fence@ == (FenceView { lower: es[mid as int].key, upper: fence.upper }),
    ensures
        match course::both_placed(
            NodeView::Leaf { fence: left_fence@, entries: es.take(mid as int) },
            NodeView::Leaf { fence: right_fence@, entries: es.skip(mid as int) },
        ) {
            Ok(_) => r is Ok,
            Err(e) => r is Err && r->Err_0 == e,
        },
        r matches Ok((left, right, separator)) ==> {
            &&& separator@ == es[mid as int].key
            &&& left@.len() == PAGE_SIZE
            &&& right@.len() == PAGE_SIZE
            &&& layout::parse_page(left@) == Ok::<_, CowBeTreeError>(
                NodeView::Leaf { fence: left_fence@, entries: es.take(mid as int) },
            )
            &&& layout::parse_page(right@) == Ok::<_, CowBeTreeError>(
                NodeView::Leaf { fence: right_fence@, entries: es.skip(mid as int) },
            )
        },
{
    let mut left = pool::blank_page();
    let mut right = pool::blank_page();
    let ghost left0 = left@;
    let ghost right0 = right@;
    let split_outcome = split::split_leaf_into_pages(
        src,
        left.as_mut_slice(),
        right.as_mut_slice(),
        left_fence,
        right_fence,
        mid,
    );
    proof {
        layout_laws::read_page_is_canonical(src@);
        assert(layout::entry_fits(es[mid as int]));
        split::split_comes_out(
            src@,
            left0,
            right0,
            left@,
            right@,
            left_fence@,
            right_fence@,
            mid as int,
            split_outcome,
        );
    }
    let split_result = split_outcome?;
    proof {
        let ok = Ok::<_, CowBeTreeError>(split_result);
        split_fences_fit(
            src@,
            left0,
            right0,
            left@,
            right@,
            left_fence@,
            right_fence@,
            mid as int,
            ok,
        );
        split::split_deals_out(
            src@,
            left0,
            right0,
            left@,
            right@,
            left_fence@,
            right_fence@,
            mid as int,
            ok,
        );
        work::read_node_fits(left@);
        work::read_node_fits(right@);
    }
    Ok((left, right, split_result.separator))
}

/// Append a put to the page of a leaf, where there is room behind its entries;
/// whether there is.
fn append_put(
    page: &mut Vec<u8>,
    m: &BufferedMessage,
    max_leaf_entries: usize,
    Ghost(fence): Ghost<FenceView>,
    Ghost(es): Ghost<Seq<EntryView>>,
) -> (r: Result<bool, CowBeTreeError>)
    requires
        !m@.version.deleted,
        old(page)@.len() == PAGE_SIZE,
        node::sorted_entries(es),
        layout::parse_page(old(page)@) == Ok::<_, CowBeTreeError>(
            NodeView::Leaf { fence, entries: es },
        ),
    ensures
        r matches Ok(true) ==> {
            let es2 = es.push(leaf_append::single_entry(m@));
            &&& final(page)@.len() == PAGE_SIZE
            &&& layout::parse_page(final(page)@) == Ok::<_, CowBeTreeError>(
                NodeView::Leaf { fence, entries: es2 },
            )
            &&& node::sorted_entries(es2)
        },
        !(r matches Ok(true)) ==> final(page)@ == old(page)@,
        takes::is_sized(m@) && leaf_append::entry_len_error(m@) is None
            && leaf_append::appendable(fence, es, m@.key) ==> r is Ok && r->Ok_0
            == !rewrite::leaf_splits(
            max_leaf_entries,
            fence,
            es.push(leaf_append::single_entry(m@)),
        ),
{
    let ghost page1 = page@;
    proof {
        if takes::is_sized(m@) && leaf_append::entry_len_error(m@) is None
            && leaf_append::appendable(fence, es, m@.key) {
            course::leaf_takes(page1, fence, es, m@, max_leaf_entries);
        }
        assert(message::put_view(m@.key, m@.version.commit_ts, m@.version.value) =~= m@);
    }
    let appended = leaf_append::append_leaf_kv(
        page.as_mut_slice(),
        m.key.as_slice(),
        m.version.value.as_slice(),
        m.version.commit_ts,
        max_leaf_entries,
    )?;
    if appended.is_none() {
        return Ok(false);
    }
    proof {
        leaf_append::batch_append_pushes(page1, seq![m@], max_leaf_entries as int);
        assert(es + leaf_append::single_entries(seq![m@]) =~= es.push(
            leaf_append::single_entry(m@),
        ));
    }
    Ok(true)
}

/// The two pages of a split root leaf with a put behind its last key, and the
/// first key of the right page; nothing in other cases.
#[verifier::rlimit(60)]
#[verifier::spinoff_prover]
fn split_root_pages(
    src: &[u8],
    m: &BufferedMessage,
    max_leaf_entries: usize,
    Ghost(n): Ghost<NodeView>,
) -> (r: Result<Option<(Vec<u8>, Vec<u8>, Vec<u8>)>, CowBeTreeError>)
    requires
        layout::parse_page(src@) == Ok::<_, CowBeTreeError>(n),
        src@.len() == PAGE_SIZE,
    ensures
        r matches Ok(Some((left, right, separator))) ==> {
            let es = n->entries;
            let mid = split_point(es.len() as int);
            let sep = es[mid].key;
            let lf = FenceView { lower: n->Leaf_fence.lower, upper: Some(sep) };
            let rf = FenceView { lower: sep, upper: n->Leaf_fence.upper };
            let re = es.skip(mid) + leaf_append::single_entries(seq![m@]);
            &&& n is Leaf
            &&& es.len() >= 2
            &&& 0 < mid < es.len()
            &&& !m@.version.deleted
            &&& bytes::lex_lt(es[es.len() - 1].key, m@.key)
            &&& separator@ == sep
            &&& left@.len() == PAGE_SIZE
            &&& right@.len() == PAGE_SIZE
            &&& layout::parse_page(left@) == Ok::<_, CowBeTreeError>(
                NodeView::Leaf { fence: lf, entries: es.take(mid) },
            )
            &&& layout::parse_page(right@) == Ok::<_, CowBeTreeError>(
                NodeView::Leaf { fence: rf, entries: re },
            )
            &&& node::sorted_entries(re)
        },
        n is Internal ==> r is Ok && r->Ok_0 is None,
        n is Leaf && takes::is_sized(m@) && takes::refusal(n, m@) is None && node::in_fence(
            n->Leaf_fence,
            m@.key,
        ) ==> match course::root_cut(
            max_leaf_entries,
            course::leaf(n->Leaf_fence, n->entries),
            m@,
        ) {
            Ok(Some(_)) => r is Ok && r->Ok_0 is Some,
            Ok(None) => r is Ok && r->Ok_0 is None,
            Err(e) => r is Err && r->Err_0 == e,
        },
{
    let ghost whole = course::leaf(n->Leaf_fence, n->entries);
    proof {
        if n is Leaf {
            leaf_on_page(src@, n->Leaf_fence, n->entries);
        } else {
            layout_laws::read_page_is_canonical(src@);
        }
    }
    let reader = match LeafPageReader::new(src) {
        Ok(reader) => reader,
        Err(_) => {
            return Ok(None);
        },
    };
    let entry_count: usize = reader.entry_count();
    if entry_count < 2 {
        return Ok(None);
    }
    if m.version.deleted {
        return Ok(None);
    }
    assert(n is Leaf);
    let ghost es = n->entries;
    let last_key = reader.entry_key(entry_count - 1)?;
    if !bytes::key_less(last_key, m.key.as_slice()) {
        return Ok(None);
    }
    let mid: usize = entry_count - entry_count / 2;
    if mid >= entry_count {
        return Ok(None);
    }
    let separator_key = reader.entry_key(mid)?;
    let root_fence = reader.fence()?;
    let left_fence = root_fence.left_of(bytes::copy_bytes(separator_key));
    let right_fence = root_fence.right_of(bytes::copy_bytes(separator_key));
    let (left, right, separator) = cut_pages(
        src,
        &left_fence,
        &right_fence,
        mid,
        Ghost(n->Leaf_fence),
        Ghost(es),
    )?;
    proof {
        tail_takes(n->Leaf_fence, es, mid as int, m@);
        assert(es.skip(mid as int) + leaf_append::single_entries(seq![m@]) =~= es.skip(
            mid as int,
        ).push(leaf_append::single_entry(m@)));
    }
    let mut right = right;
    let appended = append_put(
        &mut right,
        m,
        max_leaf_entries,
        Ghost(right_fence@),
        Ghost(es.skip(mid as int)),
    )?;
    if !appended {
        return Ok(None);
    }
    Ok(Some((left, right, separator)))
}

// ---------------------------------------------------------------------------
// Roots with one child.

/// The tree with a root that has one child and nothing in its buffer replaced by
/// that child, on the root page.
pub open spec fn collapsed(t: TreeView) -> TreeView {
    if t is Node && t->kids.len() == 1 && t->buffer.len() == 0 {
        work::with_pid(t->kids[0], shape::pid_of(t))
    } else {
        t
    }
}

/// Alike trees are collapsed alike.
pub proof fn alike_collapsed(a: TreeView, b: TreeView)
    requires
        shape::alike(a, b),
    ensures
        shape::alike(collapsed(a), collapsed(b)),
{
    if a is Node && a->kids.len() == 1 && a->buffer.len() == 0 {
        assert(shape::alike(a->kids[0], b->kids[0]));
    }
}

/// Put the only child of a root on the root page.
pub fn collapse_root(
    pool: &mut PagePool,
    root_pid: u64,
    Ghost(t): Ghost<TreeView>,
    Ghost(h): Ghost<nat>,
) -> (r: Result<Ghost<nat>, CowBeTreeError>)
    requires
        old(pool).wf(),
        shape::rep(old(pool).view().pages, t),
        shape::wf(t, h),
        root_pid == shape::pid_of(t),
        work::own_root(old(pool).view(), t),
    ensures
        final(pool).wf(),
        r is Ok,
        ({
            let s1 = old(pool).view();
            let s2 = final(pool).view();
            let t2 = collapsed(t);
            &&& shape::wf(t2, r->Ok_0@)
            &&& shape::rep(s2.pages, t2)
            &&& shape::fence_of(t2) == shape::fence_of(t)
            &&& shape::pid_of(t2) == root_pid
            &&& pool::step(s1, s2, shape::tree_pids(t), shape::tree_pids(t2))
            &&& shape::tree_recs(t2) == shape::tree_recs(t)
            &&& (t2 == t ==> s2 == s1 && r->Ok_0@ == h)
            &&& shape::unbuffered(t) ==> shape::unbuffered(t2)
        }),
{
    let ghost s1 = pool.view();
    proof {
        pool::step_refl(s1, shape::tree_pids(t));
    }
    match pool.read_node(root_pid)? {
        NodePage::Leaf { .. } => Ok(Ghost(h)),
        NodePage::Internal { fence: _, children, separators: _, buffer } => {
            if children.len() != 1 || buffer.len() != 0 {
                return Ok(Ghost(h));
            }
            let ghost c = t->kids[0];
            proof {
                assert(children@[0] == shape::pid_of(c));
                shape::wf_node(t, h);
                assert(shape::rep(s1.pages, t->kids[0]));
                assert(shape::fence_of(t->kids[0]) == shape::child_fence(
                    shape::fence_of(t),
                    t->separators,
                    0,
                ));
                assert(shape::wf(t->kids[0], (h - 1) as nat));
            }
            let child = pool.read_node(children[0])?;
            proof {
                work::read_node_fits(s1.pages[shape::pid_of(c) as int]);
            }
            work::write_node_at(pool, root_pid, &child)?;
            proof {
                child_on_root(s1, pool.view(), t, h);
            }
            Ok(Ghost((h - 1) as nat))
        },
    }
}

proof fn child_on_root(s1: PoolView, s2: PoolView, t: TreeView, h: nat)
    requires
        pool::pool_ok(s1),
        shape::rep(s1.pages, t),
        shape::wf(t, h),
        work::own_root(s1, t),
        t is Node,
        t->kids.len() == 1,
        t->buffer.len() == 0,
        s2 == work::written(s1, shape::pid_of(t), shape::node_of(t->kids[0])),
    ensures
        ({
            let t2 = collapsed(t);
            &&& shape::wf(t2, (h - 1) as nat)
            &&& shape::rep(s2.pages, t2)
            &&& shape::fence_of(t2) == shape::fence_of(t)
            &&& shape::pid_of(t2) == shape::pid_of(t)
            &&& pool::step(s1, s2, shape::tree_pids(t), shape::tree_pids(t2))
            &&& shape::tree_recs(t2) == shape::tree_recs(t)
            &&& t2 != t
            &&& shape::unbuffered(t) ==> shape::unbuffered(t2)
        }),
{
    let c = t->kids[0];
    let root = shape::pid_of(t);
    let n = shape::node_of(c);
    let t2 = work::with_pid(c, root);
    let kids = t->kids;
    shape::wf_node(t, h);
    assert(shape::rep(s1.pages, kids[0]));
    assert(shape::wf(kids[0], (h - 1) as nat));
    assert(shape::fence_of(kids[0]) == shape::child_fence(shape::fence_of(t), t->separators, 0));
    assert(shape::child_fence(shape::fence_of(t), t->separators, 0) =~= shape::fence_of(t));
    work::read_node_fits(s1.pages[shape::pid_of(c) as int]);
    work::written_step(s1, root, n);
    assert(kids =~= seq![c]);
    shape::forest_of_one(c);
    shape::tree_parts(t);
    shape::tree_parts(c);
    shape::tree_parts(t2);
    assert(!shape::has_pid(c, root));
    work::with_pid_facts(c, (h - 1) as nat, root);
    assert(shape::message_recs(t->buffer) =~= Set::<MessageView>::empty());
    assert(shape::tree_recs(t2) =~= shape::tree_recs(t));
    let a = shape::tree_pids(t);
    assert forall|p: u64| #[trigger] a.contains(p) implies p < s1.pages.len() by {
        shape::rep_in_bounds(s1.pages, t, p);
    }
    match c {
        TreeView::Leaf { .. } => {
            compact::step_gives_up(s1, s2, work::one(root), work::one(root), a);
        },
        TreeView::Node { kids: ck, .. } => {
            let rest = shape::forest_pids(ck);
            assert(shape::rep_all(s1.pages, ck));
            assert(!rest.contains(root)) by {
                if shape::some_has_pid(ck, root) {
                    assert(shape::has_pid(c, root));
                }
            }
            work::rep_others(s1, s2, ck, work::one(root), work::one(root));
            pool::step_widen(s1, s2, work::one(root), work::one(root), rest);
            assert(work::one(root).union(rest) =~= shape::tree_pids(t2));
            compact::step_gives_up(s1, s2, shape::tree_pids(t2), shape::tree_pids(t2), a);
        },
    }
    if shape::unbuffered(t) {
        assert(shape::unbuffered(kids[0]));
    }
}

} // verus!
