//! Walks over a whole tree: which pages it has, and how large it is.
use vstd::prelude::*;

use crate::betree::message;
use crate::betree::node::{NodePage, PageKindDebug};
use crate::betree::pool;
use crate::betree::pool::PagePool;
use crate::betree::shape;
use crate::betree::shape::TreeView;

verus! {

// ---------------------------------------------------------------------------
// Pages.

pub open spec fn no_duplicates(ids: Seq<u64>) -> bool {
    forall|i: int, j: int|
        #![trigger ids[i], ids[j]]
        0 <= i < j < ids.len() ==> ids[i] != ids[j]
}

/// The page ids of a tree, each node before its children, and these from the left.
pub open spec fn in_order(t: TreeView) -> Seq<u64>
    decreases t, 0nat,
{
    match t {
        TreeView::Leaf { pid, .. } => seq![pid],
        TreeView::Node { pid, kids, .. } => seq![pid] + all_in_order(kids, kids.len()),
    }
}

/// The same of the first `n` trees, in turn.
pub open spec fn all_in_order(kids: Seq<TreeView>, n: nat) -> Seq<u64>
    decreases kids, n,
{
    if n == 0 || n > kids.len() {
        Seq::empty()
    } else {
        all_in_order(kids, (n - 1) as nat) + in_order(kids[n - 1])
    }
}

/// The page ids of a tree, each node before its children.
pub fn collect_reachable_pages(
    pool: &PagePool,
    pid: u64,
    pages: &mut Vec<u64>,
    Ghost(t): Ghost<TreeView>,
    Ghost(h): Ghost<nat>,
)
    requires
        pool.wf(),
        shape::rep(pool.view().pages, t),
        shape::wf(t, h),
        pid == shape::pid_of(t),
        no_duplicates(old(pages)@),
        forall|p: u64| #[trigger] old(pages)@.contains(p) ==> !shape::has_pid(t, p),
    ensures
        final(pages)@ == old(pages)@ + in_order(t),
        no_duplicates(final(pages)@),
        forall|p: u64| #[trigger]
            final(pages)@.contains(p) <==> old(pages)@.contains(p) || shape::has_pid(t, p),
    decreases h,
{
    let ghost start = pages@;
    let ghost images = pool.view().pages;
    pages.push(pid);
    proof {
        pushed(start, pid);
        if start.contains(pid) {
            assert(shape::has_pid(t, pid));
        }
    }
    match pool.read_node(pid) {
        Err(_) => {
            proof {
                assert(false);
            }
        },
        Ok(NodePage::Leaf { .. }) => {
            assert(pages@ =~= start + in_order(t));
        },
        Ok(NodePage::Internal { fence: _, children, separators: _, buffer: _ }) => {
            let ghost kids = t->kids;
            let mut i: usize = 0;
            proof {
                shape::wf_node(t, h);
                assert(pages@ =~= start + (seq![pid] + all_in_order(kids, 0)));
                assert(!shape::some_has_pid(kids, pid));
                assert(!shape::some_has_pid(kids.take(0), pid));
            }
            while i < children.len()
                invariant
                    i <= children@.len(),
                    h > 0,
                    pool.wf(),
                    images == pool.view().pages,
                    shape::rep_all(images, kids),
                    forall|k: int|
                        0 <= k < kids.len() ==> shape::wf(#[trigger] kids[k], (h - 1) as nat),
                    forall|a: int, b: int|
                        #![trigger kids[a], kids[b]]
                        0 <= a < b < kids.len() ==> shape::disjoint_pids(kids[a], kids[b]),
                    children@ == shape::pids_of(kids),
                    pages@ == start + (seq![pid] + all_in_order(kids, i as nat)),
                    no_duplicates(pages@),
                    forall|p: u64| #[trigger]
                        pages@.contains(p) <==> start.contains(p) || p == pid
                            || shape::some_has_pid(kids.take(i as int), p),
                    forall|p: u64| #[trigger]
                        start.contains(p) ==> !shape::some_has_pid(kids, p),
                    !shape::some_has_pid(kids, pid),
                decreases children@.len() - i,
            {
                let ghost k = i as int;
                proof {
                    assert(children@[k] == shape::pid_of(kids[k]));
                    assert(shape::rep(images, kids[k]));
                    assert forall|p: u64| #[trigger] pages@.contains(p) implies !shape::has_pid(
                        kids[k],
                        p,
                    ) by {
                        if shape::has_pid(kids[k], p) {
                            assert(shape::some_has_pid(kids, p));
                            let f = kids.take(k);
                            let j = choose|j: int|
                                0 <= j < f.len() && shape::has_pid(#[trigger] f[j], p);
                            assert(f[j] == kids[j]);
                            assert(shape::disjoint_pids(kids[j], kids[k]));
                        }
                    }
                }
                collect_reachable_pages(
                    pool,
                    children[i],
                    pages,
                    Ghost(kids[k]),
                    Ghost((h - 1) as nat),
                );
                proof {
                    assert(pages@ =~= start + (seq![pid] + all_in_order(kids, (i + 1) as nat)));
                    assert forall|p: u64| #[trigger]
                        pages@.contains(p) <==> start.contains(p) || p == pid
                            || shape::some_has_pid(kids.take(k + 1), p) by {
                        more_kids(kids, k, p);
                    }
                }
                i += 1;
            }
            proof {
                assert(kids.take(i as int) =~= kids);
            }
        },
    }
}

proof fn more_kids(kids: Seq<TreeView>, k: int, p: u64)
    requires
        0 <= k < kids.len(),
    ensures
        shape::some_has_pid(kids.take(k + 1), p) <==> shape::some_has_pid(kids.take(k), p)
            || shape::has_pid(kids[k], p),
{
    let a = kids.take(k);
    let b = kids.take(k + 1);
    if shape::some_has_pid(b, p) {
        let j = choose|j: int| 0 <= j < b.len() && shape::has_pid(#[trigger] b[j], p);
        if j < k {
            assert(shape::has_pid(a[j], p));
        }
    }
    if shape::some_has_pid(a, p) {
        let j = choose|j: int| 0 <= j < a.len() && shape::has_pid(#[trigger] a[j], p);
        assert(shape::has_pid(b[j], p));
    }
    if shape::has_pid(kids[k], p) {
        assert(shape::has_pid(b[k], p));
    }
}

proof fn pushed(ids: Seq<u64>, x: u64)
    requires
        no_duplicates(ids),
    ensures
        !ids.contains(x) ==> no_duplicates(ids.push(x)),
        forall|p: u64| #[trigger] ids.push(x).contains(p) <==> ids.contains(p) || p == x,
{
    let r = ids.push(x);
    assert forall|p: u64| #[trigger] r.contains(p) <==> ids.contains(p) || p == x by {
        if r.contains(p) {
            let i = choose|i: int| 0 <= i < r.len() && r[i] == p;
            if i < ids.len() {
                assert(ids[i] == p);
            }
        }
        if ids.contains(p) {
            let i = choose|i: int| 0 <= i < ids.len() && ids[i] == p;
            assert(r[i] == p);
        }
        assert(r[ids.len() as int] == x);
    }
    if !ids.contains(x) {
        assert forall|i: int, j: int|
            #![trigger r[i], r[j]]
            0 <= i < j < r.len() implies r[i] != r[j] by {
            if j == ids.len() {
                assert(ids[i] == r[i]);
            }
        }
    }
}

pub open spec fn ascending(ids: Seq<u64>) -> bool {
    forall|i: int, j: int|
        #![trigger ids[i], ids[j]]
        0 <= i < j < ids.len() ==> ids[i] < ids[j]
}

/// The ids in ascending order.
pub fn sort_ids(ids: &Vec<u64>) -> (r: Vec<u64>)
    requires
        no_duplicates(ids@),
    ensures
        ascending(r@),
        forall|p: u64| #[trigger] r@.contains(p) <==> ids@.contains(p),
        r@.len() == ids@.len(),
{
    let mut r: Vec<u64> = Vec::new();
    let mut i: usize = 0;
    while i < ids.len()
        invariant
            i <= ids@.len(),
            no_duplicates(ids@),
            ascending(r@),
            r@.len() == i,
            forall|p: u64| #[trigger] r@.contains(p) <==> ids@.take(i as int).contains(p),
        decreases ids@.len() - i,
    {
        let x: u64 = ids[i];
        let ghost before = r@;
        let ghost front = ids@.take(i as int);
        proof {
            if before.contains(x) {
                assert(front.contains(x));
                let k = choose|k: int| 0 <= k < front.len() && front[k] == x;
                assert(ids@[k] == ids@[i as int]);
            }
        }
        let mut pos: usize = 0;
        while pos < r.len() && r[pos] < x
            invariant
                pos <= r@.len(),
                r@ == before,
                forall|k: int| 0 <= k < pos ==> #[trigger] r@[k] < x,
            decreases r@.len() - pos,
        {
            pos += 1;
        }
        r.insert(pos, x);
        proof {
            inserted(before, pos as int, x);
            assert(r@ =~= before.insert(pos as int, x));
            assert(ids@.take(i + 1) =~= front.push(x));
            taken(front, x);
        }
        i += 1;
    }
    assert(ids@.take(i as int) =~= ids@);
    r
}

proof fn taken(front: Seq<u64>, x: u64)
    ensures
        forall|p: u64| #[trigger] front.push(x).contains(p) <==> front.contains(p) || p == x,
{
    let r = front.push(x);
    assert forall|p: u64| #[trigger] r.contains(p) <==> front.contains(p) || p == x by {
        if r.contains(p) {
            let i = choose|i: int| 0 <= i < r.len() && r[i] == p;
            if i < front.len() {
                assert(front[i] == p);
            }
        }
        if front.contains(p) {
            let i = choose|i: int| 0 <= i < front.len() && front[i] == p;
            assert(r[i] == p);
        }
        assert(r[front.len() as int] == x);
    }
}

proof fn inserted(ids: Seq<u64>, pos: int, x: u64)
    requires
        ascending(ids),
        0 <= pos <= ids.len(),
        forall|k: int| 0 <= k < pos ==> #[trigger] ids[k] < x,
        pos < ids.len() ==> ids[pos] >= x,
        !ids.contains(x),
    ensures
        ascending(ids.insert(pos, x)),
        forall|p: u64| #[trigger] ids.insert(pos, x).contains(p) <==> ids.contains(p) || p == x,
{
    let r = ids.insert(pos, x);
    if pos < ids.len() {
        assert(ids.contains(ids[pos]));
    }
    assert forall|i: int, j: int|
        #![trigger r[i], r[j]]
        0 <= i < j < r.len() implies r[i] < r[j] by {
        if j < pos {
            assert(ids[i] < ids[j]);
        } else if j == pos {
            assert(ids[i] < x);
        } else {
            if i < pos {
                assert(ids[i] < ids[j - 1]);
            } else if i == pos {
                if pos < j - 1 {
                    assert(ids[pos] < ids[j - 1]);
                }
            } else {
                assert(ids[i - 1] < ids[j - 1]);
            }
        }
    }
    assert forall|p: u64| #[trigger] r.contains(p) <==> ids.contains(p) || p == x by {
        if r.contains(p) {
            let i = choose|i: int| 0 <= i < r.len() && r[i] == p;
            if i < pos {
                assert(ids[i] == p);
            } else if i > pos {
                assert(ids[i - 1] == p);
            }
        }
        if ids.contains(p) {
            let i = choose|i: int| 0 <= i < ids.len() && ids[i] == p;
            if i < pos {
                assert(r[i] == p);
            } else {
                assert(r[i + 1] == p);
            }
        }
        assert(r[pos] == x);
    }
}

// ---------------------------------------------------------------------------
// Size.

/// How large a tree is.
#[derive(Clone, Copy, Debug, PartialEq, Eq)]
pub struct CowBeTreeDebugState {
    pub root_kind: Option<PageKindDebug>,
    pub height: u32,
    pub leaf_pages: usize,
    pub internal_pages: usize,
    pub leaf_entries: usize,
    pub buffered_messages: usize,
    pub max_buffered_messages_on_page: usize,
}

impl Default for CowBeTreeDebugState {
    fn default() -> (r: Self)
        ensures
            r == (CowBeTreeDebugState {
                root_kind: None,
                height: 0,
                leaf_pages: 0,
                internal_pages: 0,
                leaf_entries: 0,
                buffered_messages: 0,
                max_buffered_messages_on_page: 0,
            }),
    {
        CowBeTreeDebugState {
            root_kind: None,
            height: 0,
            leaf_pages: 0,
            internal_pages: 0,
            leaf_entries: 0,
            buffered_messages: 0,
            max_buffered_messages_on_page: 0,
        }
    }
}

/// Pages, entries and messages of a tree.
pub struct TreeCounts {
    pub leaf_pages: int,
    pub internal_pages: int,
    pub leaf_entries: int,
    pub buffered_messages: int,
    pub max_buffered: int,
}

pub open spec fn no_counts() -> TreeCounts {
    TreeCounts {
        leaf_pages: 0,
        internal_pages: 0,
        leaf_entries: 0,
        buffered_messages: 0,
        max_buffered: 0,
    }
}

pub open spec fn add_counts(a: TreeCounts, b: TreeCounts) -> TreeCounts {
    TreeCounts {
        leaf_pages: a.leaf_pages + b.leaf_pages,
        internal_pages: a.internal_pages + b.internal_pages,
        leaf_entries: a.leaf_entries + b.leaf_entries,
        buffered_messages: a.buffered_messages + b.buffered_messages,
        max_buffered: if a.max_buffered >= b.max_buffered {
            a.max_buffered
        } else {
            b.max_buffered
        },
    }
}

pub open spec fn tree_counts(t: TreeView) -> TreeCounts
    decreases t, 0nat,
{
    match t {
        TreeView::Leaf { entries, .. } => TreeCounts {
            leaf_pages: 1,
            leaf_entries: entries.len() as int,
            ..no_counts()
        },
        TreeView::Node { buffer, kids, .. } => add_counts(
            TreeCounts {
                internal_pages: 1,
                buffered_messages: buffer.len() as int,
                max_buffered: buffer.len() as int,
                ..no_counts()
            },
            forest_counts(kids, kids.len()),
        ),
    }
}

/// The first `n` trees together.
pub open spec fn forest_counts(kids: Seq<TreeView>, n: nat) -> TreeCounts
    decreases kids, n,
{
    if n == 0 || n > kids.len() {
        no_counts()
    } else {
        add_counts(forest_counts(kids, (n - 1) as nat), tree_counts(kids[n - 1]))
    }
}

pub open spec fn clamp_u32(x: int) -> u32 {
    if x > u32::MAX {
        u32::MAX
    } else {
        x as u32
    }
}

/// The state with the counts of a tree of height `h` at `depth` added; counters
/// stop at their maximum.
pub open spec fn with_counts(
    s: CowBeTreeDebugState,
    c: TreeCounts,
    depth: int,
) -> CowBeTreeDebugState {
    CowBeTreeDebugState {
        root_kind: s.root_kind,
        height: if clamp_u32(depth) > s.height {
            clamp_u32(depth)
        } else {
            s.height
        },
        leaf_pages: message::clamp_usize(s.leaf_pages + c.leaf_pages),
        internal_pages: message::clamp_usize(s.internal_pages + c.internal_pages),
        leaf_entries: message::clamp_usize(s.leaf_entries + c.leaf_entries),
        buffered_messages: message::clamp_usize(s.buffered_messages + c.buffered_messages),
        max_buffered_messages_on_page: if message::clamp_usize(c.max_buffered)
            > s.max_buffered_messages_on_page {
            message::clamp_usize(c.max_buffered)
        } else {
            s.max_buffered_messages_on_page
        },
    }
}

pub open spec fn counts_ok(c: TreeCounts) -> bool {
    c.leaf_pages >= 0 && c.internal_pages >= 0 && c.leaf_entries >= 0 && c.buffered_messages >= 0
        && c.max_buffered >= 0
}

proof fn tree_counts_ok(t: TreeView)
    ensures
        counts_ok(tree_counts(t)),
    decreases t, 0nat,
{
    match t {
        TreeView::Leaf { .. } => {},
        TreeView::Node { kids, .. } => {
            forest_counts_ok(kids, kids.len());
        },
    }
}

proof fn forest_counts_ok(kids: Seq<TreeView>, n: nat)
    ensures
        counts_ok(forest_counts(kids, n)),
    decreases kids, n,
{
    if n > 0 && n <= kids.len() {
        forest_counts_ok(kids, (n - 1) as nat);
        tree_counts_ok(kids[n - 1]);
    }
}

/// Add a tree at `depth` to the state.
#[verifier::rlimit(40)]
#[verifier::spinoff_prover]
pub fn debug_walk(
    pool: &PagePool,
    pid: u64,
    depth: u32,
    state: &mut CowBeTreeDebugState,
    Ghost(t): Ghost<TreeView>,
    Ghost(h): Ghost<nat>,
    Ghost(d): Ghost<int>,
)
    requires
        pool.wf(),
        shape::rep(pool.view().pages, t),
        shape::wf(t, h),
        pid == shape::pid_of(t),
        d >= 0,
        depth == clamp_u32(d),
    ensures
        *final(state) == with_counts(*old(state), tree_counts(t), d + h),
    decreases h,
{
    let ghost images = pool.view().pages;
    let ghost before = *state;
    if depth > state.height {
        state.height = depth;
    }
    match pool.read_node(pid) {
        Err(_) => {
            proof {
                assert(false);
            }
        },
        Ok(NodePage::Leaf { fence: _, entries }) => {
            state.leaf_pages = state.leaf_pages.saturating_add(1);
            state.leaf_entries = state.leaf_entries.saturating_add(entries.len());
            assert(entries@.len() == t->entries.len());
        },
        Ok(NodePage::Internal { fence: _, children, separators: _, buffer }) => {
            let ghost kids = t->kids;
            assert(buffer@.len() == t->buffer.len());
            state.internal_pages = state.internal_pages.saturating_add(1);
            state.buffered_messages = state.buffered_messages.saturating_add(buffer.len());
            if buffer.len() > state.max_buffered_messages_on_page {
                state.max_buffered_messages_on_page = buffer.len();
            }
            let ghost own = TreeCounts {
                internal_pages: 1,
                buffered_messages: t->buffer.len() as int,
                max_buffered: t->buffer.len() as int,
                ..no_counts()
            };
            let child_depth: u32 = if depth == u32::MAX {
                depth
            } else {
                depth + 1
            };
            proof {
                kids_of_node(images, t, h);
                assert(forest_counts(kids, 0) == no_counts());
                assert(*state == with_counts(before, add_counts(own, no_counts()), d));
            }
            let mut i: usize = 0;
            while i < children.len()
                invariant
                    i <= children@.len(),
                    h > 0,
                    d >= 0,
                    pool.wf(),
                    images == pool.view().pages,
                    shape::rep_all(images, kids),
                    forall|k: int|
                        0 <= k < kids.len() ==> shape::wf(#[trigger] kids[k], (h - 1) as nat),
                    children@ == shape::pids_of(kids),
                    child_depth == clamp_u32(d + 1),
                    counts_ok(own),
                    *state == with_counts(
                        before,
                        add_counts(own, forest_counts(kids, i as nat)),
                        if i == 0 {
                            d
                        } else {
                            d + h
                        },
                    ),
                decreases children@.len() - i,
            {
                proof {
                    assert(children@[i as int] == shape::pid_of(kids[i as int]));
                    assert(shape::rep(images, kids[i as int]));
                    forest_counts_ok(kids, i as nat);
                    tree_counts_ok(kids[i as int]);
                }
                debug_walk(
                    pool,
                    children[i],
                    child_depth,
                    state,
                    Ghost(kids[i as int]),
                    Ghost((h - 1) as nat),
                    Ghost(d + 1),
                );
                i += 1;
            }
            proof {
                assert(i as nat == kids.len());
                assert(tree_counts(t) == add_counts(own, forest_counts(kids, kids.len())));
            }
        },
    }
}

proof fn kids_of_node(images: Seq<Seq<u8>>, t: TreeView, h: nat)
    requires
        t is Node,
        shape::wf(t, h),
        shape::rep(images, t),
    ensures
        h > 0,
        t->kids.len() > 0,
        shape::rep_all(images, t->kids),
        forall|k: int|
            0 <= k < t->kids.len() ==> shape::wf(#[trigger] t->kids[k], (h - 1) as nat),
{
}

} // verus!
