//! Writes that change one page of a tree and nothing else.
use vstd::prelude::*;

use crate::betree::append;
use crate::betree::config::CowBeTreeConfig;
use crate::betree::flush;
use crate::betree::leaf_append;
use crate::betree::leaf_work;
use crate::betree::leaf_work::Rewrite;
use crate::betree::lookup;
use crate::betree::lookup::LookupStep;
use crate::betree::message;
use crate::betree::message::{BufferedMessage, MessageView};
use crate::betree::node;
use crate::betree::node::{CowBeTreeError, EntryView, NodePage};
use crate::betree::pool;
use crate::betree::pool::{PagePool, PoolView};
use crate::betree::rewrite;
use crate::betree::shape;
use crate::betree::shape::TreeView;
use crate::betree::takes;
use crate::betree::work;
use crate::bytes;

verus! {

// ---------------------------------------------------------------------------
// Subtrees.

/// `sub` is a subtree of `t`, or `t` itself.
pub open spec fn is_sub(t: TreeView, sub: TreeView) -> bool
    decreases t,
{
    t == sub || match t {
        TreeView::Leaf { .. } => false,
        TreeView::Node { kids, .. } => exists|i: int|
            0 <= i < kids.len() && is_sub(#[trigger] kids[i], sub),
    }
}

/// Every page of a tree is the root page of a subtree.
pub proof fn sub_with_pid(pages: Seq<Seq<u8>>, t: TreeView, h: nat, p: u64) -> (r: (TreeView, nat))
    requires
        shape::wf(t, h),
        shape::rep(pages, t),
        shape::has_pid(t, p),
    ensures
        is_sub(t, r.0),
        shape::pid_of(r.0) == p,
        shape::wf(r.0, r.1),
        shape::rep(pages, r.0),
    decreases t,
{
    if shape::pid_of(t) == p {
        (t, h)
    } else {
        let kids = t->kids;
        let i = choose|i: int| 0 <= i < kids.len() && shape::has_pid(#[trigger] kids[i], p);
        let r = sub_with_pid(pages, kids[i], (h - 1) as nat, p);
        assert(is_sub(kids[i], r.0));
        r
    }
}

/// A child of a subtree is a subtree.
pub proof fn sub_child(t: TreeView, sub: TreeView, i: int)
    requires
        is_sub(t, sub),
        sub is Node,
        0 <= i < sub->kids.len(),
    ensures
        is_sub(t, sub->kids[i]),
    decreases t,
{
    if t == sub {
        assert(is_sub(sub->kids[i], sub->kids[i]));
    } else {
        let kids = t->kids;
        let j = choose|j: int| 0 <= j < kids.len() && is_sub(#[trigger] kids[j], sub);
        sub_child(kids[j], sub, i);
        assert(is_sub(kids[j], sub->kids[i]));
    }
}

/// A tree has one height.
pub proof fn one_height(t: TreeView, h1: nat, h2: nat)
    requires
        shape::wf(t, h1),
        shape::wf(t, h2),
    ensures
        h1 == h2,
    decreases t,
{
    if t is Node {
        let kids = t->kids;
        assert(shape::wf(kids[0], (h1 - 1) as nat));
        assert(shape::wf(kids[0], (h2 - 1) as nat));
        one_height(kids[0], (h1 - 1) as nat, (h2 - 1) as nat);
    }
}

/// Work on the pages of a tree in place: the same pages and the same fence, and
/// the records of the tree and `more`, up to records with the same key and
/// timestamp.
pub open spec fn changed_in_place(
    s1: PoolView,
    s2: PoolView,
    t: TreeView,
    t2: TreeView,
    h: nat,
    more: Set<MessageView>,
) -> bool {
    &&& shape::wf(t2, h)
    &&& shape::rep(s2.pages, t2)
    &&& shape::pid_of(t2) == shape::pid_of(t)
    &&& shape::fence_of(t2) == shape::fence_of(t)
    &&& shape::tree_pids(t2) == shape::tree_pids(t)
    &&& pool::step(s1, s2, shape::tree_pids(t), shape::tree_pids(t2))
    &&& shape::refine(shape::tree_recs(t2), shape::tree_recs(t).union(more))
}

/// A tree whose root page has taken a message: into the entries of a leaf, or
/// behind the buffer of a node.
pub open spec fn taken(t: TreeView, m: MessageView) -> TreeView {
    match t {
        TreeView::Leaf { pid, fence, entries } => TreeView::Leaf {
            pid,
            fence,
            entries: node::apply_message(entries, m),
        },
        TreeView::Node { pid, fence, separators, buffer, kids } => TreeView::Node {
            pid,
            fence,
            separators,
            buffer: buffer.push(m),
            kids,
        },
    }
}

/// A tree whose page `p` has taken a message.
pub open spec fn taken_at(t: TreeView, p: u64, m: MessageView) -> TreeView
    decreases t,
{
    if shape::pid_of(t) == p {
        taken(t, m)
    } else {
        match t {
            TreeView::Leaf { .. } => t,
            TreeView::Node { pid, fence, separators, buffer, kids } => TreeView::Node {
                pid,
                fence,
                separators,
                buffer,
                kids: Seq::new(
                    kids.len(),
                    |i: int|
                        if 0 <= i < kids.len() {
                            taken_at(kids[i], p, m)
                        } else {
                            t
                        },
                ),
            },
        }
    }
}

/// A tree without the page stays as it is.
pub proof fn not_taken(t: TreeView, p: u64, m: MessageView)
    requires
        !shape::has_pid(t, p),
    ensures
        taken_at(t, p, m) == t,
    decreases t,
{
    if t is Node {
        let kids = t->kids;
        assert forall|i: int| 0 <= i < kids.len() implies taken_at(#[trigger] kids[i], p, m)
            == kids[i] by {
            not_taken(kids[i], p, m);
        }
        assert(taken_at(t, p, m)->kids =~= kids);
    }
}

/// A tree in which a page took a message in place.
proof fn graft(
    s1: PoolView,
    s2: PoolView,
    t: TreeView,
    h: nat,
    sub: TreeView,
    sh: nat,
    m: MessageView,
)
    requires
        pool::pool_ok(s1),
        shape::wf(t, h),
        shape::rep(s1.pages, t),
        is_sub(t, sub),
        shape::wf(sub, sh),
        changed_in_place(s1, s2, sub, taken(sub, m), sh, shape::message_recs(seq![m])),
    ensures
        changed_in_place(
            s1,
            s2,
            t,
            taken_at(t, shape::pid_of(sub), m),
            h,
            shape::message_recs(seq![m]),
        ),
    decreases t,
{
    let p = shape::pid_of(sub);
    let more = shape::message_recs(seq![m]);
    if t == sub {
        one_height(t, h, sh);
    } else {
        let kids = t->kids;
        let i = choose|i: int| 0 <= i < kids.len() && is_sub(#[trigger] kids[i], sub);
        assert(shape::rep(s1.pages, kids[i]));
        graft(s1, s2, kids[i], (h - 1) as nat, sub, sh, m);
        let t2 = graft_child(s1, s2, t, h, i, taken_at(kids[i], p, m), more);
        sub_has_pid(kids[i], sub);
        assert forall|j: int| 0 <= j < kids.len() && j != i implies taken_at(
            #[trigger] kids[j],
            p,
            m,
        ) == kids[j] by {
            assert(shape::disjoint_pids(kids[i], kids[j]) || shape::disjoint_pids(
                kids[j],
                kids[i],
            ));
            not_taken(kids[j], p, m);
        }
        assert(taken_at(t, p, m)->kids =~= kids.update(i, taken_at(kids[i], p, m)));
        assert(t2 == taken_at(t, p, m));
    }
}

/// A tree in which a child of the root was changed in place.
proof fn graft_child(
    s1: PoolView,
    s2: PoolView,
    t: TreeView,
    h: nat,
    i: int,
    c2: TreeView,
    more: Set<MessageView>,
) -> (t2: TreeView)
    requires
        pool::pool_ok(s1),
        shape::wf(t, h),
        shape::rep(s1.pages, t),
        t is Node,
        0 <= i < t->kids.len(),
        changed_in_place(s1, s2, t->kids[i], c2, (h - 1) as nat, more),
    ensures
        changed_in_place(s1, s2, t, t2, h, more),
        t2 == (TreeView::Node {
            pid: shape::pid_of(t),
            fence: shape::fence_of(t),
            separators: t->separators,
            buffer: t->buffer,
            kids: t->kids.update(i, c2),
        }),
{
    let kids = t->kids;
    let seps = t->separators;
    let fence = shape::fence_of(t);
    let pid = shape::pid_of(t);
    let kh = (h - 1) as nat;
    shape::wf_node(t, h);
    let rw = Rewrite::One { pid: shape::pid_of(c2), tree: Ghost(c2) };
    leaf_work::outcome_one(
        s1,
        s2,
        rw,
        kh,
        shape::tree_pids(kids[i]),
        shape::tree_recs(kids[i]).union(more),
    );
    leaf_work::replace_child(s1, s2, fence, seps, kids, kh, i, rw, more);
    let kids2 = kids.update(i, c2);
    assert(shape::spliced_kids(kids, i, i + 1, leaf_work::kids_of(rw)) =~= kids2);
    assert(shape::spliced_separators(seps, i, i + 1, leaf_work::separators_of(rw)) =~= seps);
    let t2 = TreeView::Node { pid, fence, separators: seps, buffer: t->buffer, kids: kids2 };
    assert(shape::pids_of(kids2) =~= shape::pids_of(kids));
    assert(shape::forest_pids(kids2) =~= shape::forest_pids(kids));
    flush::still_over(
        s1,
        s2,
        pid,
        fence,
        kh,
        kids,
        seps,
        kids2,
        shape::forest_recs(kids).union(more),
        t->buffer,
    );
    assert(!shape::some_has_pid(kids2, pid)) by {
        assert(!shape::forest_pids(kids2).contains(pid));
    }
    shape::wf_node(t2, h);
    flush::node_is_tree(t);
    flush::node_is_tree(t2);
    grafted_recs(t->buffer, kids, kids2, more);
    t2
}

proof fn grafted_recs(
    buffer: Seq<MessageView>,
    kids: Seq<TreeView>,
    kids2: Seq<TreeView>,
    more: Set<MessageView>,
)
    requires
        shape::refine(shape::forest_recs(kids2), shape::forest_recs(kids).union(more)),
    ensures
        shape::refine(
            rewrite::node_recs(buffer, kids2),
            rewrite::node_recs(buffer, kids).union(more),
        ),
{
    let b = shape::message_recs(buffer);
    shape::refine_refl(b);
    shape::refine_union(b, b, shape::forest_recs(kids2), shape::forest_recs(kids).union(more));
    assert(b.union(shape::forest_recs(kids).union(more)) =~= rewrite::node_recs(
        buffer,
        kids,
    ).union(more));
}

// ---------------------------------------------------------------------------
// One page.

/// Where a write goes on from a page.
pub enum WriteRouteStep {
    Leaf,
    Internal { child_page_id: u64 },
}

/// Where a write of `key` goes on from the root page of a tree.
pub fn write_route_step(
    pool: &PagePool,
    pid: u64,
    key: &[u8],
    Ghost(t): Ghost<TreeView>,
    Ghost(h): Ghost<nat>,
) -> (r: Result<WriteRouteStep, CowBeTreeError>)
    requires
        pool.wf(),
        shape::rep(pool.view().pages, t),
        shape::wf(t, h),
        pid == shape::pid_of(t),
    ensures
        r is Ok,
        match r->Ok_0 {
            WriteRouteStep::Leaf => t is Leaf,
            WriteRouteStep::Internal { child_page_id } => {
                let i = node::route(t->separators, key@) as int;
                &&& t is Node
                &&& 0 <= i < t->kids.len()
                &&& child_page_id == shape::pid_of(t->kids[i])
                &&& shape::rep(pool.view().pages, t->kids[i])
                &&& h > 0
                &&& shape::wf(t->kids[i], (h - 1) as nat)
            },
        },
{
    proof {
        crate::betree::read::page_of_tree(pool.view().pages, t, h, key@, u64::MAX);
    }
    let step = lookup::lookup_step(pool.page(pid), key, u64::MAX)?;
    Ok(
        match step {
            LookupStep::Leaf { .. } => WriteRouteStep::Leaf,
            LookupStep::Internal { child_swip, .. } => WriteRouteStep::Internal {
                child_page_id: child_swip,
            },
        },
    )
}

/// Appending a message in place to a leaf.
proof fn leaf_append_in_place(
    s1: PoolView,
    s2: PoolView,
    t: TreeView,
    h: nat,
    m: MessageView,
    max_leaf_entries: usize,
)
    requires
        t is Leaf,
        pool::pool_ok(s1),
        shape::wf(t, h),
        shape::rep(s1.pages, t),
        leaf_append::batch_plan(
            s1.pages[shape::pid_of(t) as int],
            seq![m],
            max_leaf_entries as int,
        ) matches Ok(Some(_)),
        shape::wf(leaf_work::appended_leaf(t, seq![m]), h),
        shape::rep(s2.pages, leaf_work::appended_leaf(t, seq![m])),
        pool::step(
            s1,
            s2,
            shape::tree_pids(t),
            shape::tree_pids(leaf_work::appended_leaf(t, seq![m])),
        ),
        shape::tree_recs(leaf_work::appended_leaf(t, seq![m])) == shape::tree_recs(t).union(
            shape::message_recs(seq![m]),
        ),
        shape::tree_pids(leaf_work::appended_leaf(t, seq![m])) == shape::tree_pids(t),
    ensures
        leaf_work::appended_leaf(t, seq![m]) == taken(t, m),
        changed_in_place(s1, s2, t, taken(t, m), h, shape::message_recs(seq![m])),
{
    let page = s1.pages[shape::pid_of(t) as int];
    shape::refine_refl(shape::tree_recs(leaf_work::appended_leaf(t, seq![m])));
    leaf_append::batch_append_pushes(page, seq![m], max_leaf_entries as int);
    assert(seq![m][0] == m);
    takes::entry_behind(t->entries, m);
    assert(t->entries + leaf_append::single_entries(seq![m]) =~= t->entries.push(
        leaf_append::single_entry(m),
    ));
}

/// The outcome of a write: whether it was made on one page, and the tree then.
pub open spec fn made_or_not(
    s1: PoolView,
    s2: PoolView,
    t: TreeView,
    h: nat,
    m: MessageView,
    made: bool,
    t2: TreeView,
) -> bool {
    if made {
        changed_in_place(s1, s2, t, t2, h, shape::message_recs(seq![m]))
    } else {
        s2 == s1 && t2 == t
    }
}

/// The outcome of a write on page `p`.
pub open spec fn local_result(
    s1: PoolView,
    s2: PoolView,
    t: TreeView,
    h: nat,
    m: MessageView,
    made: bool,
    t2: TreeView,
    p: u64,
) -> bool {
    &&& made_or_not(s1, s2, t, h, m, made, t2)
    &&& made ==> t2 == taken_at(t, p, m)
}

/// Rewrite a leaf with a message applied, unless it would become too large.
fn rewrite_leaf_in_place(
    pool: &mut PagePool,
    config: &CowBeTreeConfig,
    pid: u64,
    m: &BufferedMessage,
    Ghost(t): Ghost<TreeView>,
) -> (r: Result<(bool, Ghost<TreeView>), CowBeTreeError>)
    requires
        old(pool).wf(),
        shape::rep(old(pool).view().pages, t),
        shape::wf(t, 0),
        t is Leaf,
        pid == shape::pid_of(t),
        work::own_root(old(pool).view(), t),
        node::in_fence(shape::fence_of(t), m@.key),
    ensures
        final(pool).wf(),
        r is Ok,
        local_result(
            old(pool).view(),
            final(pool).view(),
            t,
            0,
            m@,
            r->Ok_0.0,
            r->Ok_0.1@,
            pid,
        ),
        r->Ok_0.0 <==> !rewrite::leaf_splits(
            config.max_leaf_entries,
            shape::fence_of(t),
            node::apply_message(t->entries, m@),
        ),
{
    let ghost s1 = pool.view();
    let ghost ms = seq![m@];
    match pool.read_node(pid)? {
        NodePage::Internal { .. } => {
            proof {
                assert(false);
            }
            Ok((false, Ghost(t)))
        },
        NodePage::Leaf { fence, entries } => {
            let mut entries = entries;
            node::apply_message_to_entries(&mut entries, m);
            let ghost es = node::entries_view(entries@);
            proof {
                assert(ms.drop_last() =~= Seq::<MessageView>::empty());
                assert(node::apply_messages(t->entries, ms.drop_last()) == t->entries);
                assert(ms.last() == m@);
                assert(node::apply_messages(t->entries, ms) == es);
                assert(shape::messages_inside(fence@, ms));
                shape::apply_messages_refine(t->entries, ms, fence@);
                shape::tree_parts(t);
            }
            if config.leaf_should_split(&fence, entries.as_slice()) {
                return Ok((false, Ghost(t)));
            }
            work::write_leaf_at(pool, pid, &fence, entries.as_slice())?;
            let ghost t2 = TreeView::Leaf { pid, fence: fence@, entries: es };
            proof {
                work::leaf_written(s1, pid, fence@, es);
            }
            Ok((true, Ghost(t2)))
        },
    }
}

/// A leaf has an entry for `key`.
pub open spec fn has_entry(entries: Seq<EntryView>, key: Seq<u8>) -> bool {
    let p = node::lower_bound(entries, key) as int;
    p < entries.len() && entries[p].key == key
}

/// How the page of a leaf answers when it is asked for room for a message behind its
/// entries.
pub open spec fn leaf_plan(
    pages: Seq<Seq<u8>>,
    t: TreeView,
    m: MessageView,
    config: CowBeTreeConfig,
) -> Result<Option<leaf_append::LeafLayoutView>, CowBeTreeError> {
    leaf_append::batch_plan(
        pages[shape::pid_of(t) as int],
        seq![m],
        config.max_leaf_entries as int,
    )
}

/// A leaf is small enough to be rewritten with a message in it.
pub open spec fn can_be_rewritten(t: TreeView, m: MessageView, config: CowBeTreeConfig) -> bool {
    !rewrite::leaf_splits(
        config.max_leaf_entries,
        shape::fence_of(t),
        node::apply_message(t->entries, m),
    )
}

/// Write a message to a leaf: append it as an entry, or rewrite the leaf if it
/// has the key already and stays small enough.
pub fn try_rewrite_leaf_page_local(
    pool: &mut PagePool,
    config: &CowBeTreeConfig,
    pid: u64,
    m: &BufferedMessage,
    hint: &mut u64,
    Ghost(t): Ghost<TreeView>,
) -> (r: Result<(bool, Ghost<TreeView>), CowBeTreeError>)
    requires
        old(pool).wf(),
        shape::rep(old(pool).view().pages, t),
        shape::wf(t, 0),
        t is Leaf,
        pid == shape::pid_of(t),
        work::own_root(old(pool).view(), t),
        node::in_fence(shape::fence_of(t), m@.key),
    ensures
        final(pool).wf(),
        *final(hint) == *old(hint) || *final(hint) == pid,
        match r {
            Ok((made, t2)) => local_result(
                old(pool).view(),
                final(pool).view(),
                t,
                0,
                m@,
                made,
                t2@,
                pid,
            ),
            Err(_) => final(pool).view() == old(pool).view() && *final(hint) == *old(hint),
        },
        match leaf_plan(old(pool).view().pages, t, m@, *config) {
            Ok(plan) => r is Ok && (r->Ok_0.0 <==> plan is Some || has_entry(t->entries, m@.key)
                && can_be_rewritten(t, m@, *config)),
            Err(e) => r is Err && r->Err_0 == e,
        },
{
    let ghost s1 = pool.view();
    let appended = leaf_work::try_append_leaf_message(
        pool,
        pid,
        m,
        config.max_leaf_entries,
        hint,
        Ghost(t),
        Ghost(0nat),
    )?;
    if appended {
        proof {
            leaf_append_in_place(s1, pool.view(), t, 0, m@, config.max_leaf_entries);
        }
        return Ok((true, Ghost(taken(t, m@))));
    }
    let has_key = match pool.read_node(pid)? {
        NodePage::Internal { .. } => false,
        NodePage::Leaf { fence: _, entries } => {
            let pos: usize = node::lower_bound_entries(entries.as_slice(), m.key.as_slice());
            pos < entries.len() && bytes::keys_equal(entries[pos].key.as_slice(), m.key.as_slice())
        },
    };
    if !has_key {
        return Ok((false, Ghost(t)));
    }
    rewrite_leaf_in_place(pool, config, pid, m, Ghost(t))
}

/// Write a put to a leaf: append it as an entry, or rewrite the leaf if a reader
/// sees a version of the key there and the leaf stays small enough.
pub fn try_append_leaf_kv_page_local(
    pool: &mut PagePool,
    config: &CowBeTreeConfig,
    pid: u64,
    m: &BufferedMessage,
    hint: &mut u64,
    Ghost(t): Ghost<TreeView>,
) -> (r: Result<(bool, Ghost<TreeView>), CowBeTreeError>)
    requires
        old(pool).wf(),
        shape::rep(old(pool).view().pages, t),
        shape::wf(t, 0),
        t is Leaf,
        pid == shape::pid_of(t),
        work::own_root(old(pool).view(), t),
        node::in_fence(shape::fence_of(t), m@.key),
    ensures
        final(pool).wf(),
        *final(hint) == *old(hint) || *final(hint) == pid,
        match r {
            Ok((made, t2)) => local_result(
                old(pool).view(),
                final(pool).view(),
                t,
                0,
                m@,
                made,
                t2@,
                pid,
            ),
            Err(_) => final(pool).view() == old(pool).view() && *final(hint) == *old(hint),
        },
        match leaf_plan(old(pool).view().pages, t, m@, *config) {
            Ok(plan) => r is Ok && (r->Ok_0.0 <==> plan is Some || lookup::leaf_visible(
                t->entries,
                m@.key,
                u64::MAX,
            ) is Some && can_be_rewritten(t, m@, *config)),
            Err(e) => r is Err && r->Err_0 == e,
        },
{
    let ghost s1 = pool.view();
    let appended = leaf_work::try_append_leaf_message(
        pool,
        pid,
        m,
        config.max_leaf_entries,
        hint,
        Ghost(t),
        Ghost(0nat),
    )?;
    if appended {
        proof {
            leaf_append_in_place(s1, pool.view(), t, 0, m@, config.max_leaf_entries);
        }
        return Ok((true, Ghost(taken(t, m@))));
    }
    proof {
        crate::betree::read::page_of_tree(pool.view().pages, t, 0, m@.key, u64::MAX);
    }
    let seen = match lookup::lookup_step(pool.page(pid), m.key.as_slice(), u64::MAX)? {
        LookupStep::Leaf { visible } => visible.is_some(),
        LookupStep::Internal { .. } => false,
    };
    if !seen {
        return Ok((false, Ghost(t)));
    }
    rewrite_leaf_in_place(pool, config, pid, m, Ghost(t))
}

// ---------------------------------------------------------------------------
// The page that a write belongs to.

/// Which way of writing to one page is tried.
pub enum LocalWrite {
    /// A put: append to a leaf, or rewrite it where the key can be seen.
    Put,
    /// A message with a key that is new: append to a leaf.
    New,
    /// Any message: append to a leaf, or rewrite it where it has the key.
    Any,
}

/// Whether a write is made in a leaf: behind its entries, or, but for a new key, by
/// rewriting it where it has the key. It fails where the page refuses the message.
pub open spec fn lands_in_leaf(
    pages: Seq<Seq<u8>>,
    t: TreeView,
    m: MessageView,
    config: CowBeTreeConfig,
    way: LocalWrite,
) -> Result<bool, CowBeTreeError> {
    match leaf_plan(pages, t, m, config) {
        Err(e) => Err(e),
        Ok(Some(_)) => Ok(true),
        Ok(None) => Ok(
            can_be_rewritten(t, m, config) && match way {
                LocalWrite::Put => lookup::leaf_visible(t->entries, m.key, u64::MAX) is Some,
                LocalWrite::New => false,
                LocalWrite::Any => has_entry(t->entries, m.key),
            },
        ),
    }
}

/// On which page a write is made, if on one: on the leaf of the key if that is the
/// root or hangs under it, or on the first node below the root, on the way to the
/// key, that has room in its buffer, or else on the leaf. It fails where a page that
/// is asked for room refuses the message.
pub open spec fn landing(
    pages: Seq<Seq<u8>>,
    t: TreeView,
    m: MessageView,
    config: CowBeTreeConfig,
    way: LocalWrite,
) -> Result<Option<u64>, CowBeTreeError>
    decreases t,
{
    match t {
        TreeView::Leaf { .. } => leaf_landing(pages, t, m, config, way),
        TreeView::Node { separators, kids, .. } => {
            let i = node::route(separators, m.key) as int;
            if 0 <= i < kids.len() {
                let c = kids[i];
                if c is Leaf {
                    leaf_landing(pages, c, m, config, way)
                } else {
                    match buffer_plan(pages, c, m, config, way is Put) {
                        Err(e) => Err(e),
                        Ok(Some(_)) => Ok(Some(shape::pid_of(c))),
                        Ok(None) => landing(pages, c, m, config, way),
                    }
                }
            } else {
                Ok(None)
            }
        },
    }
}

pub open spec fn leaf_landing(
    pages: Seq<Seq<u8>>,
    t: TreeView,
    m: MessageView,
    config: CowBeTreeConfig,
    way: LocalWrite,
) -> Result<Option<u64>, CowBeTreeError> {
    match lands_in_leaf(pages, t, m, config, way) {
        Err(e) => Err(e),
        Ok(true) => Ok(Some(shape::pid_of(t))),
        Ok(false) => Ok(None),
    }
}

/// How the page of a node answers when it is asked for room for a message in its
/// buffer.
pub open spec fn buffer_plan(
    pages: Seq<Seq<u8>>,
    t: TreeView,
    m: MessageView,
    config: CowBeTreeConfig,
    early: bool,
) -> Result<Option<append::InternalBufferLayout>, CowBeTreeError> {
    append::buffer_append_plan(
        pages[shape::pid_of(t) as int],
        m,
        config.flush_threshold_messages as int,
        config.flush_threshold_bytes as int,
        config.max_internal_children as int,
        early,
    )
}

fn write_leaf(
    pool: &mut PagePool,
    config: &CowBeTreeConfig,
    pid: u64,
    m: &BufferedMessage,
    way: &LocalWrite,
    hint: &mut u64,
    Ghost(t): Ghost<TreeView>,
) -> (r: Result<(bool, Ghost<TreeView>), CowBeTreeError>)
    requires
        old(pool).wf(),
        shape::rep(old(pool).view().pages, t),
        shape::wf(t, 0),
        t is Leaf,
        pid == shape::pid_of(t),
        work::own_root(old(pool).view(), t),
        node::in_fence(shape::fence_of(t), m@.key),
    ensures
        final(pool).wf(),
        *final(hint) == *old(hint) || *final(hint) == pid,
        match r {
            Ok((made, t2)) => local_result(
                old(pool).view(),
                final(pool).view(),
                t,
                0,
                m@,
                made,
                t2@,
                pid,
            ),
            Err(_) => final(pool).view() == old(pool).view() && *final(hint) == *old(hint),
        },
        match lands_in_leaf(old(pool).view().pages, t, m@, *config, *way) {
            Ok(lands) => r is Ok && r->Ok_0.0 == lands,
            Err(e) => r is Err && r->Err_0 == e,
        },
{
    match way {
        LocalWrite::Put => try_append_leaf_kv_page_local(pool, config, pid, m, hint, Ghost(t)),
        LocalWrite::Any => try_rewrite_leaf_page_local(pool, config, pid, m, hint, Ghost(t)),
        LocalWrite::New => {
            let ghost s1 = pool.view();
            let appended = leaf_work::try_append_leaf_message(
                pool,
                pid,
                m,
                config.max_leaf_entries,
                hint,
                Ghost(t),
                Ghost(0nat),
            )?;
            if !appended {
                return Ok((false, Ghost(t)));
            }
            proof {
                leaf_append_in_place(s1, pool.view(), t, 0, m@, config.max_leaf_entries);
            }
            Ok((true, Ghost(taken(t, m@))))
        },
    }
}

fn write_buffer(
    pool: &mut PagePool,
    config: &CowBeTreeConfig,
    pid: u64,
    m: &BufferedMessage,
    way: &LocalWrite,
    Ghost(t): Ghost<TreeView>,
    Ghost(h): Ghost<nat>,
) -> (r: Result<(bool, Ghost<TreeView>), CowBeTreeError>)
    requires
        old(pool).wf(),
        shape::rep(old(pool).view().pages, t),
        shape::wf(t, h),
        t is Node,
        pid == shape::pid_of(t),
        work::own_root(old(pool).view(), t),
        node::in_fence(shape::fence_of(t), m@.key),
        way is Put ==> !m@.version.deleted,
    ensures
        final(pool).wf(),
        match buffer_plan(old(pool).view().pages, t, m@, *config, way is Put) {
            Ok(plan) => r is Ok && r->Ok_0.0 == (plan is Some) && local_result(
                old(pool).view(),
                final(pool).view(),
                t,
                h,
                m@,
                r->Ok_0.0,
                r->Ok_0.1@,
                pid,
            ),
            Err(e) => r is Err && r->Err_0 == e && final(pool).view() == old(pool).view(),
        },
{
    let ghost t2 = leaf_work::appended_node(t, m@);
    let appended = match way {
        LocalWrite::Put => {
            proof {
                assert(message::put_view(m@.key, m@.version.commit_ts, m@.version.value) =~= m@);
            }
            leaf_work::try_append_buffer_kv(
                pool,
                pid,
                m.key.as_slice(),
                m.version.value.as_slice(),
                m.version.commit_ts,
                config,
                Ghost(t),
                Ghost(h),
            )?
        },
        _ => leaf_work::try_append_buffer_message(pool, pid, m, config, Ghost(t), Ghost(h))?,
    };
    if !appended {
        return Ok((false, Ghost(t)));
    }
    proof {
        shape::refine_refl(shape::tree_recs(t2));
    }
    Ok((true, Ghost(t2)))
}

/// Write to a leaf of a tree.
fn write_leaf_of(
    pool: &mut PagePool,
    config: &CowBeTreeConfig,
    pid: u64,
    m: &BufferedMessage,
    way: &LocalWrite,
    hint: &mut u64,
    Ghost(t): Ghost<TreeView>,
    Ghost(h): Ghost<nat>,
    Ghost(sub): Ghost<TreeView>,
) -> (r: Result<(bool, Ghost<TreeView>), CowBeTreeError>)
    requires
        old(pool).wf(),
        old(pool).view().active_roots <= 1,
        shape::rep(old(pool).view().pages, t),
        shape::wf(t, h),
        is_sub(t, sub),
        shape::rep(old(pool).view().pages, sub),
        shape::wf(sub, 0),
        sub is Leaf,
        pid == shape::pid_of(sub),
        node::in_fence(shape::fence_of(sub), m@.key),
    ensures
        final(pool).wf(),
        match r {
            Ok((made, t2)) => {
                &&& local_result(old(pool).view(), final(pool).view(), t, h, m@, made, t2@, pid)
                &&& *final(hint) == *old(hint) || shape::tree_pids(t).contains(*final(hint))
            },
            Err(_) => final(pool).view() == old(pool).view() && *final(hint) == *old(hint),
        },
        match lands_in_leaf(old(pool).view().pages, sub, m@, *config, *way) {
            Ok(lands) => r is Ok && r->Ok_0.0 == lands,
            Err(e) => r is Err && r->Err_0 == e,
        },
{
    let ghost s1 = pool.view();
    proof {
        sub_has_pid(t, sub);
    }
    let (made, Ghost(sub2)) = write_leaf(pool, config, pid, m, way, hint, Ghost(sub))?;
    if !made {
        return Ok((false, Ghost(t)));
    }
    proof {
        graft(s1, pool.view(), t, h, sub, 0, m@);
    }
    Ok((true, Ghost(taken_at(t, pid, m@))))
}

/// Write to the buffer of a node of a tree.
fn write_buffer_of(
    pool: &mut PagePool,
    config: &CowBeTreeConfig,
    pid: u64,
    m: &BufferedMessage,
    way: &LocalWrite,
    Ghost(t): Ghost<TreeView>,
    Ghost(h): Ghost<nat>,
    Ghost(sub): Ghost<TreeView>,
    Ghost(sh): Ghost<nat>,
) -> (r: Result<(bool, Ghost<TreeView>), CowBeTreeError>)
    requires
        old(pool).wf(),
        old(pool).view().active_roots <= 1,
        shape::rep(old(pool).view().pages, t),
        shape::wf(t, h),
        is_sub(t, sub),
        shape::rep(old(pool).view().pages, sub),
        shape::wf(sub, sh),
        sub is Node,
        pid == shape::pid_of(sub),
        node::in_fence(shape::fence_of(sub), m@.key),
        way is Put ==> !m@.version.deleted,
    ensures
        final(pool).wf(),
        match buffer_plan(old(pool).view().pages, sub, m@, *config, way is Put) {
            Ok(plan) => r is Ok && r->Ok_0.0 == (plan is Some) && local_result(
                old(pool).view(),
                final(pool).view(),
                t,
                h,
                m@,
                r->Ok_0.0,
                r->Ok_0.1@,
                pid,
            ),
            Err(e) => r is Err && r->Err_0 == e && final(pool).view() == old(pool).view(),
        },
{
    let ghost s1 = pool.view();
    let (made, Ghost(sub2)) = write_buffer(pool, config, pid, m, way, Ghost(sub), Ghost(sh))?;
    if !made {
        return Ok((false, Ghost(t)));
    }
    proof {
        graft(s1, pool.view(), t, h, sub, sh, m@);
    }
    Ok((true, Ghost(taken_at(t, pid, m@))))
}

/// A write goes on at the child that the key is routed to.
proof fn write_goes_on(t: TreeView, sub: TreeView, sh: nat, key: Seq<u8>)
    requires
        is_sub(t, sub),
        sub is Node,
        shape::wf(sub, sh),
        node::in_fence(shape::fence_of(sub), key),
    ensures
        ({
            let i = node::route(sub->separators, key) as int;
            &&& 0 <= i < sub->kids.len()
            &&& is_sub(t, sub->kids[i])
            &&& node::in_fence(shape::fence_of(sub->kids[i]), key)
        }),
{
    let i = node::route(sub->separators, key) as int;
    shape::route_to_child(shape::fence_of(sub), sub->separators, key);
    shape::wf_node(sub, sh);
    sub_child(t, sub, i);
    assert(shape::fence_of(sub->kids[i]) == shape::child_fence(
        shape::fence_of(sub),
        sub->separators,
        i,
    ));
}

/// Try to write a message to one page of the only tree of a pool: to the leaf of
/// its key, or to the first buffer below the root that has room.
pub fn try_write_page_local(
    pool: &mut PagePool,
    config: &CowBeTreeConfig,
    root: u64,
    m: &BufferedMessage,
    way: &LocalWrite,
    hint: &mut u64,
    Ghost(t): Ghost<TreeView>,
    Ghost(h): Ghost<nat>,
) -> (r: Result<(bool, Ghost<TreeView>), CowBeTreeError>)
    requires
        old(pool).wf(),
        shape::rep(old(pool).view().pages, t),
        shape::wf(t, h),
        root == shape::pid_of(t),
        node::in_fence(shape::fence_of(t), m@.key),
        way is Put ==> !m@.version.deleted,
    ensures
        final(pool).wf(),
        match r {
            Ok((made, t2)) => {
                &&& made_or_not(old(pool).view(), final(pool).view(), t, h, m@, made, t2@)
                &&& *final(hint) == *old(hint) || shape::tree_pids(t).contains(*final(hint))
            },
            Err(_) => final(pool).view() == old(pool).view() && *final(hint) == *old(hint),
        },
        old(pool).view().active_roots > 1 ==> r is Ok && !r->Ok_0.0,
        old(pool).view().active_roots <= 1 ==> match landing(
            old(pool).view().pages,
            t,
            m@,
            *config,
            *way,
        ) {
            Ok(Some(p)) => r is Ok && r->Ok_0.0 && r->Ok_0.1@ == taken_at(t, p, m@),
            Ok(None) => r is Ok && !r->Ok_0.0,
            Err(e) => r is Err && r->Err_0 == e,
        },
{
    let ghost s1 = pool.view();
    if pool.active_roots() > 1 {
        return Ok((false, Ghost(t)));
    }
    let mut page_id: u64 = root;
    let ghost mut cur = t;
    let ghost mut ch = h;
    proof {
        assert(is_sub(t, t));
    }
    loop
        invariant
            pool.wf(),
            pool.view() == s1,
            s1 == old(pool).view(),
            *hint == *old(hint),
            s1.active_roots <= 1,
            shape::rep(s1.pages, t),
            shape::wf(t, h),
            shape::rep(s1.pages, cur),
            shape::wf(cur, ch),
            page_id == shape::pid_of(cur),
            is_sub(t, cur),
            node::in_fence(shape::fence_of(cur), m@.key),
            way is Put ==> !m@.version.deleted,
            landing(s1.pages, t, m@, *config, *way) == landing(s1.pages, cur, m@, *config, *way),
        decreases ch,
    {
        let key = m.key.as_slice();
        match write_route_step(pool, page_id, key, Ghost(cur), Ghost(ch))? {
            WriteRouteStep::Leaf => {
                return write_leaf_of(
                    pool,
                    config,
                    page_id,
                    m,
                    way,
                    hint,
                    Ghost(t),
                    Ghost(h),
                    Ghost(cur),
                );
            },
            WriteRouteStep::Internal { child_page_id } => {
                page_id = child_page_id;
                proof {
                    write_goes_on(t, cur, ch, m@.key);
                    let i = node::route(cur->separators, m@.key) as int;
                    cur = cur->kids[i];
                    ch = (ch - 1) as nat;
                }
                match write_route_step(pool, page_id, key, Ghost(cur), Ghost(ch))? {
                    WriteRouteStep::Leaf => {
                        return write_leaf_of(
                            pool,
                            config,
                            page_id,
                            m,
                            way,
                            hint,
                            Ghost(t),
                            Ghost(h),
                            Ghost(cur),
                        );
                    },
                    WriteRouteStep::Internal { .. } => {
                        let (made, Ghost(t2)) = write_buffer_of(
                            pool,
                            config,
                            page_id,
                            m,
                            way,
                            Ghost(t),
                            Ghost(h),
                            Ghost(cur),
                            Ghost(ch),
                        )?;
                        if made {
                            return Ok((true, Ghost(t2)));
                        }
                    },
                }
            },
        }
    }
}

/// The root page of a subtree belongs to the tree.
pub proof fn sub_has_pid(t: TreeView, sub: TreeView)
    requires
        is_sub(t, sub),
    ensures
        shape::has_pid(t, shape::pid_of(sub)),
        shape::tree_pids(t).contains(shape::pid_of(sub)),
    decreases t,
{
    if t != sub {
        let kids = t->kids;
        let i = choose|i: int| 0 <= i < kids.len() && is_sub(#[trigger] kids[i], sub);
        sub_has_pid(kids[i], sub);
    }
}

/// Whether the page that the last append went to is a leaf with room for a message
/// behind its entries. It fails where that page refuses the message.
pub open spec fn lands_at_hint(
    pages: Seq<Seq<u8>>,
    hint: u64,
    m: MessageView,
    config: CowBeTreeConfig,
) -> Result<bool, CowBeTreeError> {
    if config.max_leaf_entries == 0 {
        Ok(false)
    } else {
        match leaf_append::batch_plan(
            pages[hint as int],
            seq![m],
            config.max_leaf_entries as int,
        ) {
            Err(e) => Err(e),
            Ok(plan) => Ok(plan is Some),
        }
    }
}

/// Try to append a message to the page that the last append went to.
pub fn try_append_at_hint(
    pool: &mut PagePool,
    config: &CowBeTreeConfig,
    m: &BufferedMessage,
    hint: &mut u64,
    Ghost(t): Ghost<TreeView>,
    Ghost(h): Ghost<nat>,
) -> (r: Result<(bool, Ghost<TreeView>), CowBeTreeError>)
    requires
        old(pool).wf(),
        shape::rep(old(pool).view().pages, t),
        shape::wf(t, h),
        old(pool).view().active_roots <= 1,
        *old(hint) != 0,
        config.max_leaf_entries > 0 ==> shape::tree_pids(t).contains(*old(hint)),
    ensures
        final(pool).wf(),
        *final(hint) == *old(hint),
        match r {
            Ok((made, t2)) => local_result(
                old(pool).view(),
                final(pool).view(),
                t,
                h,
                m@,
                made,
                t2@,
                *old(hint),
            ),
            Err(_) => final(pool).view() == old(pool).view(),
        },
        match lands_at_hint(old(pool).view().pages, *old(hint), m@, *config) {
            Ok(lands) => r is Ok && r->Ok_0.0 == lands,
            Err(e) => r is Err && r->Err_0 == e,
        },
{
    let ghost s1 = pool.view();
    let page_id: u64 = *hint;
    if config.max_leaf_entries == 0 {
        return Ok((false, Ghost(t)));
    }
    let ghost (sub, sh) = sub_with_pid(s1.pages, t, h, page_id);
    let appended = leaf_work::try_append_leaf_message(
        pool,
        page_id,
        m,
        config.max_leaf_entries,
        hint,
        Ghost(sub),
        Ghost(sh),
    )?;
    if !appended {
        return Ok((false, Ghost(t)));
    }
    proof {
        leaf_append_in_place(s1, pool.view(), sub, sh, m@, config.max_leaf_entries);
        graft(s1, pool.view(), t, h, sub, sh, m@);
    }
    Ok((true, Ghost(taken_at(t, page_id, m@))))
}

} // verus!
