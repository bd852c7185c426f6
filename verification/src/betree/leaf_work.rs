//! Work on one node of a tree: appends in place, leaf rewrites, and splits.
use vstd::prelude::*;

use crate::betree::append;
use crate::betree::config::CowBeTreeConfig;
use crate::betree::course;
use crate::betree::layout;
use crate::betree::leaf_append;
use crate::betree::message;
use crate::betree::message::{BufferedMessage, MessageView};
use crate::betree::node;
use crate::betree::node::{CowBeTreeError, FenceView};
use crate::betree::pool;
use crate::betree::pool::{PagePool, PoolView};
use crate::betree::shape;
use crate::betree::shape::TreeView;
use crate::betree::work;
use crate::bytes;
use crate::page_id::PAGE_SIZE;

verus! {

// ---------------------------------------------------------------------------
// What work on a tree leaves behind.

/// What became of a tree: one tree, or two side by side.
pub enum Rewrite {
    One { pid: u64, tree: Ghost<TreeView> },
    Split {
        left_pid: u64,
        right_pid: u64,
        separator: Vec<u8>,
        left: Ghost<TreeView>,
        right: Ghost<TreeView>,
    },
}

pub open spec fn kids_of(rw: Rewrite) -> Seq<TreeView> {
    match rw {
        Rewrite::One { tree, .. } => seq![tree@],
        Rewrite::Split { left, right, .. } => seq![left@, right@],
    }
}

pub open spec fn separators_of(rw: Rewrite) -> Seq<Seq<u8>> {
    match rw {
        Rewrite::One { .. } => Seq::empty(),
        Rewrite::Split { separator, .. } => seq![separator@],
    }
}

/// The page ids are those of the trees.
pub open spec fn names_trees(rw: Rewrite) -> bool {
    match rw {
        Rewrite::One { pid, tree } => pid == shape::pid_of(tree@),
        Rewrite::Split { left_pid, right_pid, left, right, .. } => left_pid == shape::pid_of(left@)
            && right_pid == shape::pid_of(right@),
    }
}

/// Work on a tree of height `h` under `fence` with the pages `before` came out
/// well: there are well-formed trees of this height under the fence, only pages
/// of the tree and new pages were touched, and the trees hold `recs`, up to
/// records with the same key and timestamp.
pub open spec fn outcome(
    s1: PoolView,
    s2: PoolView,
    rw: Rewrite,
    fence: FenceView,
    h: nat,
    before: Set<u64>,
    recs: Set<MessageView>,
) -> bool {
    &&& names_trees(rw)
    &&& shape::forest(fence, separators_of(rw), kids_of(rw), h)
    &&& shape::rep_all(s2.pages, kids_of(rw))
    &&& pool::step(s1, s2, before, shape::forest_pids(kids_of(rw)))
    &&& shape::refine(shape::forest_recs(kids_of(rw)), recs)
}

/// The page for the next append: unchanged, or one of the trees' pages.
pub open spec fn hint_follows(hint1: u64, hint2: u64, after: Set<u64>) -> bool {
    hint2 == hint1 || after.contains(hint2)
}

/// One tree under its own fence is a forest.
pub proof fn forest_of_tree(t: TreeView, h: nat)
    requires
        shape::wf(t, h),
    ensures
        shape::forest(shape::fence_of(t), Seq::empty(), seq![t], h),
{
    let fence = shape::fence_of(t);
    let seps = Seq::<Seq<u8>>::empty();
    assert(shape::child_fence(fence, seps, 0) =~= fence);
}

/// One tree came out.
pub proof fn outcome_one(
    s1: PoolView,
    s2: PoolView,
    rw: Rewrite,
    h: nat,
    before: Set<u64>,
    recs: Set<MessageView>,
)
    requires
        rw is One,
        rw->pid == shape::pid_of(rw->tree@),
        shape::wf(rw->tree@, h),
        shape::rep(s2.pages, rw->tree@),
        pool::step(s1, s2, before, shape::tree_pids(rw->tree@)),
        shape::refine(shape::tree_recs(rw->tree@), recs),
    ensures
        outcome(s1, s2, rw, shape::fence_of(rw->tree@), h, before, recs),
        shape::forest_pids(kids_of(rw)) == shape::tree_pids(rw->tree@),
{
    forest_of_tree(rw->tree@, h);
    shape::forest_of_one(rw->tree@);
    assert(separators_of(rw) =~= Seq::<Seq<u8>>::empty());
}

/// Two trees came out.
pub proof fn outcome_split(
    s1: PoolView,
    s2: PoolView,
    rw: Rewrite,
    fence: FenceView,
    h: nat,
    before: Set<u64>,
    recs: Set<MessageView>,
)
    requires
        rw is Split,
        names_trees(rw),
        shape::wf(rw->left@, h),
        shape::wf(rw->right@, h),
        shape::fence_of(rw->left@) == (FenceView {
            lower: fence.lower,
            upper: Some(rw->separator@),
        }),
        shape::fence_of(rw->right@) == (FenceView { lower: rw->separator@, upper: fence.upper }),
        bytes::lex_lt(fence.lower, rw->separator@),
        fence.upper matches Some(u) ==> bytes::lex_lt(rw->separator@, u),
        shape::tree_pids(rw->left@).disjoint(shape::tree_pids(rw->right@)),
        shape::rep(s2.pages, rw->left@),
        shape::rep(s2.pages, rw->right@),
        pool::step(
            s1,
            s2,
            before,
            shape::tree_pids(rw->left@).union(shape::tree_pids(rw->right@)),
        ),
        shape::refine(shape::tree_recs(rw->left@).union(shape::tree_recs(rw->right@)), recs),
    ensures
        outcome(s1, s2, rw, fence, h, before, recs),
        shape::forest_pids(kids_of(rw)) == shape::tree_pids(rw->left@).union(
            shape::tree_pids(rw->right@),
        ),
{
    let l = rw->left@;
    let r = rw->right@;
    let sep = rw->separator@;
    forest_of_tree(l, h);
    forest_of_tree(r, h);
    shape::forest_of_one(l);
    shape::forest_of_one(r);
    shape::disjoint_by_pids(seq![l], seq![r]);
    shape::join_forests(
        shape::fence_of(l),
        Seq::empty(),
        seq![l],
        shape::fence_of(r),
        Seq::empty(),
        seq![r],
        sep,
        h,
    );
    assert(shape::joined_separators(Seq::empty(), sep, Seq::empty()) =~= seq![sep]);
    assert(seq![l] + seq![r] =~= seq![l, r]);
    shape::forest_parts(seq![l], seq![r]);
    assert(FenceView { lower: fence.lower, upper: fence.upper } == fence);
}

/// Work on a tree left well-formed trees of its height under its fence, whatever
/// they hold.
pub open spec fn shaped(
    s1: PoolView,
    s2: PoolView,
    rw: Rewrite,
    fence: FenceView,
    h: nat,
    before: Set<u64>,
) -> bool {
    &&& names_trees(rw)
    &&& shape::forest(fence, separators_of(rw), kids_of(rw), h)
    &&& shape::rep_all(s2.pages, kids_of(rw))
    &&& pool::step(s1, s2, before, shape::forest_pids(kids_of(rw)))
}

/// A child of a forest is replaced by what became of it, whatever it holds.
pub proof fn replace_child_shape(
    s1: PoolView,
    s2: PoolView,
    fence: FenceView,
    separators: Seq<Seq<u8>>,
    kids: Seq<TreeView>,
    h: nat,
    i: int,
    rw: Rewrite,
)
    requires
        shape::forest(fence, separators, kids, h),
        shape::rep_all(s1.pages, kids),
        0 <= i < kids.len(),
        shaped(s1, s2, rw, shape::fence_of(kids[i]), h, shape::tree_pids(kids[i])),
    ensures
        ({
            let seps2 = shape::spliced_separators(separators, i, i + 1, separators_of(rw));
            let kids2 = shape::spliced_kids(kids, i, i + 1, kids_of(rw));
            let front = kids.take(i);
            let back = kids.skip(i + 1);
            let rest = shape::forest_pids(front).union(shape::forest_pids(back));
            let others = shape::forest_recs(front).union(shape::forest_recs(back));
            &&& shape::forest(fence, seps2, kids2, h)
            &&& shape::rep_all(s2.pages, kids2)
            &&& pool::step(s1, s2, shape::forest_pids(kids), shape::forest_pids(kids2))
            &&& shape::forest_pids(kids2) == rest.union(shape::forest_pids(kids_of(rw)))
            &&& shape::forest_pids(kids) == rest.union(shape::tree_pids(kids[i]))
            &&& shape::forest_recs(kids2) == shape::forest_recs(kids_of(rw)).union(others)
            &&& shape::forest_recs(kids) == shape::tree_recs(kids[i]).union(others)
        }),
{
    let k2 = kids_of(rw);
    let kids2 = shape::spliced_kids(kids, i, i + 1, k2);
    let front = kids.take(i);
    let back = kids.skip(i + 1);
    shape::forest_ranges(fence, separators, kids, h, i, i + 1);
    assert(kids.subrange(i, i + 1) =~= seq![kids[i]]);
    shape::forest_of_one(kids[i]);
    let rest = shape::forest_pids(front).union(shape::forest_pids(back));
    let a = shape::tree_pids(kids[i]);
    let b = shape::forest_pids(k2);
    assert(shape::rep_all(s1.pages, front));
    assert(shape::rep_all(s1.pages, back));
    assert forall|p: u64| #[trigger] b.contains(p) implies !rest.contains(p) by {
        if rest.contains(p) {
            if shape::forest_pids(front).contains(p) {
                work::pid_in_bounds(s1.pages, front, p);
            } else {
                work::pid_in_bounds(s1.pages, back, p);
            }
        }
    }
    shape::disjoint_by_pids(front, k2);
    shape::disjoint_by_pids(k2, back);
    assert(shape::range_fence(fence, separators, i, i + 1) =~= shape::fence_of(kids[i]));
    shape::splice_forest(fence, separators, kids, h, i, i + 1, separators_of(rw), k2);
    work::rep_others(s1, s2, front, a, b);
    work::rep_others(s1, s2, back, a, b);
    assert forall|j: int| 0 <= j < kids2.len() implies shape::rep(s2.pages, #[trigger] kids2[j]) by {
        if j < i {
            assert(kids2[j] == front[j]);
        } else if j < i + k2.len() {
            assert(kids2[j] == k2[j - i]);
        } else {
            assert(kids2[j] == back[j - i - k2.len()]);
        }
    }
    pool::step_widen(s1, s2, a, b, rest);
    shape::forest_parts(front, k2);
    shape::forest_parts(front + k2, back);
    assert(shape::forest_pids(kids2) =~= b.union(rest));
    assert(shape::forest_pids(kids2) =~= rest.union(b));
    assert(shape::forest_pids(kids) =~= a.union(rest));
    assert(shape::forest_pids(kids) =~= rest.union(a));
    let others = shape::forest_recs(front).union(shape::forest_recs(back));
    assert(shape::forest_recs(kids2) =~= shape::forest_recs(k2).union(others));
    assert(shape::forest_recs(kids) =~= shape::tree_recs(kids[i]).union(others));
}

/// A child of a forest is replaced by what became of it.
pub proof fn replace_child(
    s1: PoolView,
    s2: PoolView,
    fence: FenceView,
    separators: Seq<Seq<u8>>,
    kids: Seq<TreeView>,
    h: nat,
    i: int,
    rw: Rewrite,
    more: Set<MessageView>,
)
    requires
        shape::forest(fence, separators, kids, h),
        shape::rep_all(s1.pages, kids),
        0 <= i < kids.len(),
        outcome(
            s1,
            s2,
            rw,
            shape::fence_of(kids[i]),
            h,
            shape::tree_pids(kids[i]),
            shape::tree_recs(kids[i]).union(more),
        ),
    ensures
        ({
            let seps2 = shape::spliced_separators(separators, i, i + 1, separators_of(rw));
            let kids2 = shape::spliced_kids(kids, i, i + 1, kids_of(rw));
            &&& shape::forest(fence, seps2, kids2, h)
            &&& shape::rep_all(s2.pages, kids2)
            &&& pool::step(s1, s2, shape::forest_pids(kids), shape::forest_pids(kids2))
            &&& shape::refine(
                shape::forest_recs(kids2),
                shape::forest_recs(kids).union(more),
            )
            &&& shape::forest_pids(kids2) == shape::forest_pids(kids.take(i)).union(
                shape::forest_pids(kids.skip(i + 1)),
            ).union(shape::forest_pids(kids_of(rw)))
            &&& shape::forest_pids(kids) == shape::forest_pids(kids.take(i)).union(
                shape::forest_pids(kids.skip(i + 1)),
            ).union(shape::tree_pids(kids[i]))
        }),
{
    let k2 = kids_of(rw);
    replace_child_shape(s1, s2, fence, separators, kids, h, i, rw);
    let others = shape::forest_recs(kids.take(i)).union(shape::forest_recs(kids.skip(i + 1)));
    shape::refine_refl(others);
    shape::refine_union(
        shape::forest_recs(k2),
        shape::tree_recs(kids[i]).union(more),
        others,
        others,
    );
    assert(shape::forest_recs(kids).union(more) =~= shape::tree_recs(kids[i]).union(more).union(
        others,
    ));
}

// ---------------------------------------------------------------------------
// Appends in place.

/// A leaf after the messages were appended to it as entries.
pub open spec fn appended_leaf(t: TreeView, ms: Seq<MessageView>) -> TreeView {
    TreeView::Leaf {
        pid: shape::pid_of(t),
        fence: shape::fence_of(t),
        entries: t->entries + leaf_append::single_entries(ms),
    }
}

pub proof fn appended_leaf_facts(t: TreeView, h: nat, ms: Seq<MessageView>)
    requires
        t is Leaf,
        shape::wf(t, h),
        shape::messages_inside(shape::fence_of(t), ms),
        node::sorted_entries(t->entries + leaf_append::single_entries(ms)),
    ensures
        shape::wf(appended_leaf(t, ms), h),
        shape::tree_recs(appended_leaf(t, ms)) == shape::tree_recs(t).union(
            shape::message_recs(ms),
        ),
        shape::tree_pids(appended_leaf(t, ms)) == work::one(shape::pid_of(t)),
        shape::tree_pids(t) == work::one(shape::pid_of(t)),
{
    let t2 = appended_leaf(t, ms);
    let es = t->entries;
    let singles = leaf_append::single_entries(ms);
    let es2 = es + singles;
    shape::tree_parts(t);
    shape::tree_parts(t2);
    assert forall|i: int| 0 <= i < es2.len() implies node::sorted_versions(
        (#[trigger] es2[i]).versions,
    ) by {
        if i < es.len() {
            assert(node::sorted_versions(es[i].versions));
        }
    }
    assert forall|i: int| 0 <= i < es2.len() implies node::in_fence(
        shape::fence_of(t),
        (#[trigger] es2[i]).key,
    ) by {
        if i < es.len() {
            assert(node::in_fence(shape::fence_of(t), es[i].key));
        } else {
            assert(node::in_fence(shape::fence_of(t), ms[i - es.len()].key));
        }
    }
    assert forall|m: MessageView| #[trigger] shape::tree_recs(t2).contains(m) <==> shape::tree_recs(
        t,
    ).union(shape::message_recs(ms)).contains(m) by {
        if node::entries_have(es2, m.key, m.version) {
            let i = choose|i: int|
                #![trigger es2[i]]
                0 <= i < es2.len() && es2[i].key == m.key && es2[i].versions.contains(m.version);
            if i < es.len() {
                assert(es[i] == es2[i]);
            } else {
                let x = ms[i - es.len()];
                assert(es2[i] == leaf_append::single_entry(x));
                assert(x == m);
            }
        }
        if node::entries_have(es, m.key, m.version) {
            let i = choose|i: int|
                #![trigger es[i]]
                0 <= i < es.len() && es[i].key == m.key && es[i].versions.contains(m.version);
            assert(es2[i] == es[i]);
        }
        if ms.contains(m) {
            let i = choose|i: int| 0 <= i < ms.len() && ms[i] == m;
            assert(es2[es.len() + i] == leaf_append::single_entry(m));
            assert(seq![m.version][0] == m.version);
        }
    }
    assert(shape::tree_recs(t2) =~= shape::tree_recs(t).union(shape::message_recs(ms)));
}

/// A page of a pool was changed and holds a leaf with appended entries.
proof fn appended_leaf_in_pool(
    s1: PoolView,
    s2: PoolView,
    t: TreeView,
    h: nat,
    ms: Seq<MessageView>,
    page: Seq<u8>,
)
    requires
        pool::pool_ok(s1),
        shape::rep(s1.pages, t),
        shape::wf(t, h),
        work::own_root(s1, t),
        t is Leaf,
        shape::messages_inside(shape::fence_of(t), ms),
        node::sorted_entries(t->entries + leaf_append::single_entries(ms)),
        page.len() == PAGE_SIZE,
        layout::parse_page(page) == Ok::<_, CowBeTreeError>(
            shape::node_of(appended_leaf(t, ms)),
        ),
        s2 == (PoolView {
            pages: s1.pages.update(shape::pid_of(t) as int, page),
            dirty: s1.dirty.push(pool::DirtyPage { pid: shape::pid_of(t), lsn: s1.lsn }),
            ..s1
        }),
    ensures
        shape::wf(appended_leaf(t, ms), h),
        shape::rep(s2.pages, appended_leaf(t, ms)),
        pool::step(s1, s2, shape::tree_pids(t), shape::tree_pids(appended_leaf(t, ms))),
        shape::tree_recs(appended_leaf(t, ms)) == shape::tree_recs(t).union(
            shape::message_recs(ms),
        ),
        shape::tree_pids(appended_leaf(t, ms)) == shape::tree_pids(t),
{
    appended_leaf_facts(t, h, ms);
    work::changed_step(s1, s2, shape::pid_of(t), page);
}

/// Append a message to a leaf as an entry, if the page allows.
pub fn try_append_leaf_message(
    pool: &mut PagePool,
    pid: u64,
    m: &BufferedMessage,
    max_leaf_entries: usize,
    hint: &mut u64,
    Ghost(t): Ghost<TreeView>,
    Ghost(h): Ghost<nat>,
) -> (r: Result<bool, CowBeTreeError>)
    requires
        old(pool).wf(),
        shape::rep(old(pool).view().pages, t),
        shape::wf(t, h),
        pid == shape::pid_of(t),
        work::own_root(old(pool).view(), t),
    ensures
        final(pool).wf(),
        ({
            let s1 = old(pool).view();
            let s2 = final(pool).view();
            let ms = seq![m@];
            match leaf_append::batch_plan(s1.pages[pid as int], ms, max_leaf_entries as int) {
                Ok(Some(_)) => {
                    let t2 = appended_leaf(t, ms);
                    &&& r == Ok::<bool, CowBeTreeError>(true)
                    &&& t is Leaf
                    &&& max_leaf_entries > 0
                    &&& node::in_fence(shape::fence_of(t), m@.key)
                    &&& shape::wf(t2, h)
                    &&& shape::rep(s2.pages, t2)
                    &&& pool::step(s1, s2, shape::tree_pids(t), shape::tree_pids(t2))
                    &&& shape::tree_recs(t2) == shape::tree_recs(t).union(shape::message_recs(ms))
                    &&& shape::tree_pids(t2) == shape::tree_pids(t)
                    &&& *final(hint) == pid
                    &&& s2.pages.len() == s1.pages.len()
                },
                Ok(None) => r == Ok::<bool, CowBeTreeError>(false) && s2 == s1 && *final(hint)
                    == *old(hint),
                Err(e) => r == Err::<bool, CowBeTreeError>(e) && s2 == s1 && *final(hint) == *old(
                    hint,
                ),
            }
        }),
{
    let ghost s1 = pool.view();
    let ghost ms = seq![m@];
    let mut page = pool.copy_page(pid);
    let _size: usize = page.len();
    let appended = leaf_append::append_leaf_entry_message(
        page.as_mut_slice(),
        m,
        max_leaf_entries,
    )?;
    if appended.is_none() {
        return Ok(false);
    }
    proof {
        leaf_append::batch_append_pushes(s1.pages[pid as int], ms, max_leaf_entries as int);
        assert(ms[0] == m@);
        assert(shape::messages_inside(shape::fence_of(t), ms));
    }
    let ghost image = page@;
    pool.write(pid, page);
    *hint = pid;
    proof {
        appended_leaf_in_pool(s1, pool.view(), t, h, ms, image);
    }
    Ok(true)
}

/// Append messages at the front of a batch to a leaf as entries, as many as the
/// page allows; how many these were.
#[verifier::rlimit(40)]
#[verifier::spinoff_prover]
pub fn try_append_leaf_prefix(
    pool: &mut PagePool,
    pid: u64,
    batch: &[BufferedMessage],
    max_leaf_entries: usize,
    hint: &mut u64,
    Ghost(t): Ghost<TreeView>,
    Ghost(h): Ghost<nat>,
) -> (r: Result<usize, CowBeTreeError>)
    requires
        old(pool).wf(),
        shape::rep(old(pool).view().pages, t),
        shape::wf(t, h),
        pid == shape::pid_of(t),
        work::own_root(old(pool).view(), t),
    ensures
        final(pool).wf(),
        r matches Ok(k) ==> k <= batch@.len(),
        ({
            let s1 = old(pool).view();
            let s2 = final(pool).view();
            let ms = message::messages_view(batch@);
            match r {
                Ok(k) => if k > 0 {
                    let t2 = appended_leaf(t, ms.take(k as int));
                    &&& t is Leaf
                    &&& shape::wf(t2, h)
                    &&& shape::rep(s2.pages, t2)
                    &&& pool::step(s1, s2, shape::tree_pids(t), shape::tree_pids(t2))
                    &&& shape::tree_recs(t2) == shape::tree_recs(t).union(
                        shape::message_recs(ms.take(k as int)),
                    )
                    &&& shape::tree_pids(t2) == shape::tree_pids(t)
                    &&& *final(hint) == pid
                } else {
                    s2 == s1 && *final(hint) == *old(hint)
                },
                Err(_) => s2 == s1 && *final(hint) == *old(hint),
            }
        }),
        match leaf_append::prefix_plan(
            old(pool).view().pages[pid as int],
            message::messages_view(batch@),
            max_leaf_entries as int,
        ) {
            Ok(Some((_, k))) => r is Ok && r->Ok_0 == k && k > 0,
            Ok(None) => r is Ok && r->Ok_0 == 0,
            Err(e) => r is Err && r->Err_0 == e,
        },
        match course::front_len(t, message::messages_view(batch@), max_leaf_entries as int) {
            Ok(k) => r is Ok && r->Ok_0 == k,
            Err(e) => r is Err && r->Err_0 == e,
        },
{
    let ghost s1 = pool.view();
    let ghost ms = message::messages_view(batch@);
    proof {
        course::front_answers(s1.pages[pid as int], t, ms, max_leaf_entries as int);
    }
    if batch.len() == 0 {
        return Ok(0);
    }
    let mut page = pool.copy_page(pid);
    let _size: usize = page.len();
    let appended = leaf_append::append_leaf_entry_prefix(
        page.as_mut_slice(),
        batch,
        max_leaf_entries,
    )?;
    let count: usize = match appended {
        Some(appended) => appended.message_count,
        None => {
            return Ok(0);
        },
    };
    proof {
        leaf_append::prefix_append_pushes(s1.pages[pid as int], ms, max_leaf_entries as int);
        let front = ms.take(count as int);
        assert forall|i: int| 0 <= i < front.len() implies node::in_fence(
            shape::fence_of(t),
            (#[trigger] front[i]).key,
        ) by {
            assert(front[i] == ms[i]);
        }
    }
    let ghost image = page@;
    pool.write(pid, page);
    *hint = pid;
    proof {
        appended_leaf_in_pool(s1, pool.view(), t, h, ms.take(count as int), image);
    }
    Ok(count)
}

/// A node after a message was put behind its buffer.
pub open spec fn appended_node(t: TreeView, m: MessageView) -> TreeView {
    TreeView::Node {
        pid: shape::pid_of(t),
        fence: shape::fence_of(t),
        separators: t->separators,
        buffer: t->buffer.push(m),
        kids: t->kids,
    }
}

/// A page of a pool was changed and holds a node with a message behind its
/// buffer.
proof fn appended_node_in_pool(
    s1: PoolView,
    s2: PoolView,
    t: TreeView,
    h: nat,
    m: MessageView,
    page: Seq<u8>,
)
    requires
        pool::pool_ok(s1),
        shape::rep(s1.pages, t),
        shape::wf(t, h),
        work::own_root(s1, t),
        t is Node,
        node::in_fence(shape::fence_of(t), m.key),
        page.len() == PAGE_SIZE,
        layout::parse_page(page) == Ok::<_, CowBeTreeError>(shape::node_of(appended_node(t, m))),
        s2 == (PoolView {
            pages: s1.pages.update(shape::pid_of(t) as int, page),
            dirty: s1.dirty.push(pool::DirtyPage { pid: shape::pid_of(t), lsn: s1.lsn }),
            ..s1
        }),
    ensures
        shape::wf(appended_node(t, m), h),
        shape::rep(s2.pages, appended_node(t, m)),
        pool::step(s1, s2, shape::tree_pids(t), shape::tree_pids(appended_node(t, m))),
        shape::tree_recs(appended_node(t, m)) == shape::tree_recs(t).union(
            shape::message_recs(seq![m]),
        ),
        shape::tree_pids(appended_node(t, m)) == shape::tree_pids(t),
{
    let t2 = appended_node(t, m);
    let pid = shape::pid_of(t);
    let kids = t->kids;
    work::changed_step(s1, s2, pid, page);
    shape::tree_parts(t);
    shape::tree_parts(t2);
    shape::wf_node(t, h);
    shape::wf_node(t2, h);
    let buffer2 = t->buffer.push(m);
    assert forall|i: int| 0 <= i < buffer2.len() implies node::in_fence(
        shape::fence_of(t),
        (#[trigger] buffer2[i]).key,
    ) by {
        if i < t->buffer.len() {
            assert(node::in_fence(shape::fence_of(t), t->buffer[i].key));
        }
    }
    assert(shape::rep_all(s1.pages, kids));
    work::rep_others(s1, s2, kids, work::one(pid), work::one(pid));
    pool::step_widen(s1, s2, work::one(pid), work::one(pid), shape::forest_pids(kids));
    assert(work::one(pid).union(shape::forest_pids(kids)) =~= shape::tree_pids(t));
    assert(shape::tree_pids(t2) =~= shape::tree_pids(t));
    assert(t->buffer.push(m) =~= t->buffer + seq![m]);
    shape::message_recs_add(t->buffer, seq![m]);
    assert(shape::tree_recs(t2) =~= shape::tree_recs(t).union(shape::message_recs(seq![m])));
}

/// Append a message to the buffer of a node, if the page allows.
pub fn try_append_buffer_message(
    pool: &mut PagePool,
    pid: u64,
    m: &BufferedMessage,
    config: &CowBeTreeConfig,
    Ghost(t): Ghost<TreeView>,
    Ghost(h): Ghost<nat>,
) -> (r: Result<bool, CowBeTreeError>)
    requires
        old(pool).wf(),
        shape::rep(old(pool).view().pages, t),
        shape::wf(t, h),
        pid == shape::pid_of(t),
        work::own_root(old(pool).view(), t),
        node::in_fence(shape::fence_of(t), m@.key),
    ensures
        final(pool).wf(),
        ({
            let s1 = old(pool).view();
            let s2 = final(pool).view();
            match append::buffer_append_plan(
                s1.pages[pid as int],
                m@,
                config.flush_threshold_messages as int,
                config.flush_threshold_bytes as int,
                config.max_internal_children as int,
                false,
            ) {
                Ok(Some(_)) => {
                    let t2 = appended_node(t, m@);
                    &&& r == Ok::<bool, CowBeTreeError>(true)
                    &&& t is Node
                    &&& shape::wf(t2, h)
                    &&& shape::rep(s2.pages, t2)
                    &&& pool::step(s1, s2, shape::tree_pids(t), shape::tree_pids(t2))
                    &&& shape::tree_recs(t2) == shape::tree_recs(t).union(
                        shape::message_recs(seq![m@]),
                    )
                    &&& shape::tree_pids(t2) == shape::tree_pids(t)
                    &&& s2.pages.len() == s1.pages.len()
                },
                Ok(None) => r == Ok::<bool, CowBeTreeError>(false) && s2 == s1,
                Err(e) => r == Err::<bool, CowBeTreeError>(e) && s2 == s1,
            }
        }),
{
    let ghost s1 = pool.view();
    let mut page = pool.copy_page(pid);
    let _size: usize = page.len();
    let appended = append::append_internal_buffer_message(
        page.as_mut_slice(),
        m,
        config.flush_threshold_messages,
        config.flush_threshold_bytes,
        config.max_internal_children,
    )?;
    if appended.is_none() {
        return Ok(false);
    }
    proof {
        append::buffer_append_pushes(
            s1.pages[pid as int],
            m@,
            config.flush_threshold_messages as int,
            config.flush_threshold_bytes as int,
            config.max_internal_children as int,
            false,
        );
    }
    let ghost image = page@;
    pool.write(pid, page);
    proof {
        appended_node_in_pool(s1, pool.view(), t, h, m@, image);
    }
    Ok(true)
}

/// Append a put to the buffer of a node, if the page allows.
pub fn try_append_buffer_kv(
    pool: &mut PagePool,
    pid: u64,
    key: &[u8],
    value: &[u8],
    commit_ts: u64,
    config: &CowBeTreeConfig,
    Ghost(t): Ghost<TreeView>,
    Ghost(h): Ghost<nat>,
) -> (r: Result<bool, CowBeTreeError>)
    requires
        old(pool).wf(),
        shape::rep(old(pool).view().pages, t),
        shape::wf(t, h),
        pid == shape::pid_of(t),
        work::own_root(old(pool).view(), t),
        node::in_fence(shape::fence_of(t), key@),
    ensures
        final(pool).wf(),
        ({
            let s1 = old(pool).view();
            let s2 = final(pool).view();
            let m = message::put_view(key@, commit_ts, value@);
            match append::buffer_append_plan(
                s1.pages[pid as int],
                m,
                config.flush_threshold_messages as int,
                config.flush_threshold_bytes as int,
                config.max_internal_children as int,
                true,
            ) {
                Ok(Some(_)) => {
                    let t2 = appended_node(t, m);
                    &&& r == Ok::<bool, CowBeTreeError>(true)
                    &&& t is Node
                    &&& shape::wf(t2, h)
                    &&& shape::rep(s2.pages, t2)
                    &&& pool::step(s1, s2, shape::tree_pids(t), shape::tree_pids(t2))
                    &&& shape::tree_recs(t2) == shape::tree_recs(t).union(
                        shape::message_recs(seq![m]),
                    )
                    &&& shape::tree_pids(t2) == shape::tree_pids(t)
                    &&& s2.pages.len() == s1.pages.len()
                },
                Ok(None) => r == Ok::<bool, CowBeTreeError>(false) && s2 == s1,
                Err(e) => r == Err::<bool, CowBeTreeError>(e) && s2 == s1,
            }
        }),
{
    let ghost s1 = pool.view();
    let ghost m = message::put_view(key@, commit_ts, value@);
    let mut page = pool.copy_page(pid);
    let _size: usize = page.len();
    let appended = append::append_internal_buffer_kv(
        page.as_mut_slice(),
        key,
        value,
        commit_ts,
        config.flush_threshold_messages,
        config.flush_threshold_bytes,
        config.max_internal_children,
    )?;
    if appended.is_none() {
        return Ok(false);
    }
    proof {
        append::buffer_append_pushes(
            s1.pages[pid as int],
            m,
            config.flush_threshold_messages as int,
            config.flush_threshold_bytes as int,
            config.max_internal_children as int,
            true,
        );
    }
    let ghost image = page@;
    pool.write(pid, page);
    proof {
        appended_node_in_pool(s1, pool.view(), t, h, m, image);
    }
    Ok(true)
}

} // verus!
