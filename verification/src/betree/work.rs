//! Work on the pages of a tree: writing nodes, copying shared pages, appending
//! in place; and how such work puts a tree together.
use vstd::prelude::*;

use crate::betree::layout;
use crate::betree::layout_laws;
use crate::betree::message;
use crate::betree::message::{BufferedMessage, MessageView};
use crate::betree::node;
use crate::betree::node::{CowBeTreeError, EntryView, Fence, FenceView, LeafEntry, NodePage, NodeView};
use crate::betree::pool;
use crate::betree::pool::{DirtyPage, PagePool, PoolView};
use crate::betree::shape;
use crate::betree::shape::TreeView;
use crate::betree::writer;
use crate::page_id::PAGE_SIZE;

verus! {

// ---------------------------------------------------------------------------
// Nodes on pages.

/// The page of a node.
pub open spec fn image(n: NodeView) -> Seq<u8> {
    writer::node_image(n, PAGE_SIZE as nat)
}

/// The node has a place on a page.
pub open spec fn fits_page(n: NodeView) -> bool {
    writer::page_len(n, PAGE_SIZE as int) is Ok
}

/// The keys of the node are in order.
pub open spec fn ordered(n: NodeView) -> bool {
    match n {
        NodeView::Leaf { entries, .. } => node::sorted_entries(entries),
        NodeView::Internal { separators, .. } => node::sorted_keys(separators),
    }
}

pub open spec fn one(p: u64) -> Set<u64> {
    Set::<u64>::empty().insert(p)
}

/// A pool after the node was written on page `pid`.
pub open spec fn written(s: PoolView, pid: u64, n: NodeView) -> PoolView {
    PoolView {
        pages: s.pages.update(pid as int, image(n)),
        dirty: s.dirty.push(DirtyPage { pid, lsn: s.lsn }),
        ..s
    }
}

/// A pool after the node was written on a new page.
pub open spec fn allocated(s: PoolView, n: NodeView) -> PoolView {
    PoolView {
        pages: s.pages.push(image(n)),
        dirty: s.dirty.push(DirtyPage { pid: s.pages.len() as u64, lsn: s.lsn }),
        ..s
    }
}

pub proof fn fits_page_writes(n: NodeView)
    ensures
        fits_page(n) <==> writer::write_result(n, PAGE_SIZE as int) is Ok,
        !fits_page(n) ==> writer::write_result(n, PAGE_SIZE as int) == writer::page_len(
            n,
            PAGE_SIZE as int,
        ),
{
}

proof fn image_holds(n: NodeView)
    requires
        fits_page(n),
        ordered(n),
    ensures
        layout::parse_page(image(n)) == Ok::<_, CowBeTreeError>(n),
        image(n).len() == PAGE_SIZE,
{
    fits_page_writes(n);
    writer::node_image_is_read_back(n, PAGE_SIZE as nat);
}

/// A node that was read from a page has a place on a page.
pub proof fn read_node_fits(page: Seq<u8>)
    requires
        page.len() == PAGE_SIZE,
        layout::parse_page(page) is Ok,
    ensures
        fits_page(layout::parse_page(page)->Ok_0),
        ordered(layout::parse_page(page)->Ok_0),
{
    layout_laws::read_page_is_canonical(page);
    writer::no_error_means_fits(layout::parse_page(page)->Ok_0);
}

proof fn pushed_is_listed(s1: PoolView, s2: PoolView, d: DirtyPage)
    requires
        s2.dirty == s1.dirty.push(d),
    ensures
        forall|p: u64, lsn: Option<u64>| #[trigger]
            pool::is_listed(s1, p, lsn) ==> pool::is_listed(s2, p, lsn),
        pool::is_listed(s2, d.pid, d.lsn),
{
    assert forall|p: u64, lsn: Option<u64>| #[trigger] pool::is_listed(s1, p, lsn) implies
        pool::is_listed(s2, p, lsn) by {
        let x = DirtyPage { pid: p, lsn };
        let i = choose|i: int| 0 <= i < s1.dirty.len() && s1.dirty[i] == x;
        assert(s2.dirty[i] == x);
    }
    assert(s2.dirty[s1.dirty.len() as int] == d);
}

/// Writing on a page of one's own.
pub proof fn written_step(s: PoolView, pid: u64, n: NodeView)
    requires
        pool::pool_ok(s),
        0 < pid < s.pages.len(),
        !pool::is_shared(s, pid),
        fits_page(n),
        ordered(n),
    ensures
        pool::step(s, written(s, pid, n), one(pid), one(pid)),
        layout::parse_page(written(s, pid, n).pages[pid as int]) == Ok::<_, CowBeTreeError>(n),
{
    image_holds(n);
    changed_step(s, written(s, pid, n), pid, image(n));
}

/// Changing a page of one's own.
pub proof fn changed_step(s: PoolView, s2: PoolView, pid: u64, page: Seq<u8>)
    requires
        pool::pool_ok(s),
        0 < pid < s.pages.len(),
        !pool::is_shared(s, pid),
        page.len() == PAGE_SIZE,
        s2 == (PoolView {
            pages: s.pages.update(pid as int, page),
            dirty: s.dirty.push(DirtyPage { pid, lsn: s.lsn }),
            ..s
        }),
    ensures
        pool::step(s, s2, one(pid), one(pid)),
{
    pushed_is_listed(s, s2, DirtyPage { pid, lsn: s.lsn });
    assert(pool::pool_ok(s2)) by {
        assert forall|i: int| 0 <= i < s2.pages.len() implies (#[trigger] s2.pages[i]).len()
            == PAGE_SIZE by {
            if i != pid {
                assert(s2.pages[i] == s.pages[i]);
            }
        }
        assert forall|p: u64| #[trigger] s2.shared.contains_key(p) implies p < s2.pages.len() && 1
            <= s2.shared[p] <= s2.active_roots by {
            assert(s.shared.contains_key(p));
        }
    }
    assert forall|p: u64| p < s.pages.len() implies pool::owners(s2, p) == pool::owners(s, p) by {}
    assert forall|p: u64| p >= s.pages.len() implies pool::owners(s2, p) == 1 by {
        assert(!s.shared.contains_key(p));
    }
}

/// A new page.
pub proof fn pushed_step(s: PoolView, s2: PoolView, page: Seq<u8>)
    requires
        pool::pool_ok(s),
        pool::pool_ok(s2),
        s2 == (PoolView {
            pages: s.pages.push(page),
            dirty: s.dirty.push(DirtyPage { pid: s.pages.len() as u64, lsn: s.lsn }),
            ..s
        }),
    ensures
        pool::step(s, s2, Set::<u64>::empty(), one(s.pages.len() as u64)),
        s.pages.len() <= u64::MAX,
{
    let pid = s.pages.len() as u64;
    pushed_is_listed(s, s2, DirtyPage { pid, lsn: s.lsn });
    assert forall|p: u64| p < s.pages.len() implies pool::owners(s2, p) == pool::owners(s, p) by {}
    assert forall|p: u64| p >= s.pages.len() implies pool::owners(s2, p) == 1 by {
        assert(!s.shared.contains_key(p));
    }
    assert forall|p: u64| #[trigger] pool::differs(s, s2, p) implies pool::is_listed(
        s2,
        p,
        s.lsn,
    ) by {
        assert(p == pid);
    }
}

/// Writing on a new page.
pub proof fn allocated_step(s: PoolView, n: NodeView)
    requires
        pool::pool_ok(s),
        pool::pool_ok(allocated(s, n)),
        fits_page(n),
        ordered(n),
    ensures
        pool::step(s, allocated(s, n), Set::<u64>::empty(), one(s.pages.len() as u64)),
        layout::parse_page(allocated(s, n).pages[s.pages.len() as int]) == Ok::<
            _,
            CowBeTreeError,
        >(n),
        !pool::is_shared(allocated(s, n), s.pages.len() as u64),
        s.pages.len() <= u64::MAX,
{
    image_holds(n);
    let s2 = allocated(s, n);
    let pid = s.pages.len() as u64;
    pushed_is_listed(s, s2, DirtyPage { pid, lsn: s.lsn });
    assert forall|p: u64| p < s.pages.len() implies pool::owners(s2, p) == pool::owners(s, p) by {}
    assert forall|p: u64| p >= s.pages.len() implies pool::owners(s2, p) == 1 by {
        assert(!s.shared.contains_key(p));
    }
    assert forall|p: u64| #[trigger] pool::differs(s, s2, p) implies pool::is_listed(
        s2,
        p,
        s.lsn,
    ) by {
        assert(p == pid);
    }
}

/// Write a leaf on a page.
pub fn write_leaf_at(pool: &mut PagePool, pid: u64, fence: &Fence, entries: &[LeafEntry]) -> (r:
    Result<(), CowBeTreeError>)
    requires
        old(pool).wf(),
        pid < old(pool).view().pages.len(),
    ensures
        ({
            let n = NodeView::Leaf { fence: fence@, entries: node::entries_view(entries@) };
            match writer::page_len(n, PAGE_SIZE as int) {
                Ok(_) => r is Ok && final(pool).view() == written(old(pool).view(), pid, n),
                Err(e) => r is Err && r->Err_0 == e && final(pool).view() == old(pool).view(),
            }
        }),
        final(pool).wf(),
{
    let ghost n = NodeView::Leaf { fence: fence@, entries: node::entries_view(entries@) };
    proof {
        fits_page_writes(n);
    }
    let mut page = pool::blank_page();
    writer::encode_leaf_page(page.as_mut_slice(), fence, entries)?;
    pool.write(pid, page);
    Ok(())
}

/// Write an internal node on a page.
pub fn write_internal_at(
    pool: &mut PagePool,
    pid: u64,
    fence: &Fence,
    children: &[u64],
    separators: &[Vec<u8>],
    buffer: &[BufferedMessage],
) -> (r: Result<(), CowBeTreeError>)
    requires
        old(pool).wf(),
        pid < old(pool).view().pages.len(),
    ensures
        ({
            let n = NodeView::Internal {
                fence: fence@,
                children: children@,
                separators: node::keys_view(separators@),
                buffer: message::messages_view(buffer@),
            };
            match writer::page_len(n, PAGE_SIZE as int) {
                Ok(_) => r is Ok && final(pool).view() == written(old(pool).view(), pid, n),
                Err(e) => r is Err && r->Err_0 == e && final(pool).view() == old(pool).view(),
            }
        }),
        final(pool).wf(),
{
    let ghost n = NodeView::Internal {
        fence: fence@,
        children: children@,
        separators: node::keys_view(separators@),
        buffer: message::messages_view(buffer@),
    };
    proof {
        fits_page_writes(n);
    }
    let mut page = pool::blank_page();
    writer::encode_internal_page(page.as_mut_slice(), fence, children, separators, buffer)?;
    pool.write(pid, page);
    Ok(())
}

/// Write a node on a page.
pub fn write_node_at(pool: &mut PagePool, pid: u64, n: &NodePage) -> (r: Result<
    (),
    CowBeTreeError,
>)
    requires
        old(pool).wf(),
        pid < old(pool).view().pages.len(),
    ensures
        match writer::page_len(n@, PAGE_SIZE as int) {
            Ok(_) => r is Ok && final(pool).view() == written(old(pool).view(), pid, n@),
            Err(e) => r is Err && r->Err_0 == e && final(pool).view() == old(pool).view(),
        },
        final(pool).wf(),
{
    match n {
        NodePage::Leaf { fence, entries } => write_leaf_at(pool, pid, fence, entries.as_slice()),
        NodePage::Internal { fence, children, separators, buffer } => write_internal_at(
            pool,
            pid,
            fence,
            children.as_slice(),
            separators.as_slice(),
            buffer.as_slice(),
        ),
    }
}

/// Write a leaf on a new page.
pub fn allocate_leaf(pool: &mut PagePool, fence: &Fence, entries: &[LeafEntry]) -> (r: Result<
    u64,
    CowBeTreeError,
>)
    requires
        old(pool).wf(),
    ensures
        ({
            let n = NodeView::Leaf { fence: fence@, entries: node::entries_view(entries@) };
            match writer::page_len(n, PAGE_SIZE as int) {
                Ok(_) => r is Ok && r->Ok_0 == old(pool).view().pages.len() && final(pool).view()
                    == allocated(old(pool).view(), n),
                Err(e) => r is Err && r->Err_0 == e && final(pool).view() == old(pool).view(),
            }
        }),
        final(pool).wf(),
{
    let ghost n = NodeView::Leaf { fence: fence@, entries: node::entries_view(entries@) };
    proof {
        fits_page_writes(n);
    }
    let mut page = pool::blank_page();
    writer::encode_leaf_page(page.as_mut_slice(), fence, entries)?;
    let pid: u64 = pool.allocate(page);
    Ok(pid)
}

/// Write an internal node on a new page.
pub fn allocate_internal(
    pool: &mut PagePool,
    fence: &Fence,
    children: &[u64],
    separators: &[Vec<u8>],
    buffer: &[BufferedMessage],
) -> (r: Result<u64, CowBeTreeError>)
    requires
        old(pool).wf(),
    ensures
        ({
            let n = NodeView::Internal {
                fence: fence@,
                children: children@,
                separators: node::keys_view(separators@),
                buffer: message::messages_view(buffer@),
            };
            match writer::page_len(n, PAGE_SIZE as int) {
                Ok(_) => r is Ok && r->Ok_0 == old(pool).view().pages.len() && final(pool).view()
                    == allocated(old(pool).view(), n),
                Err(e) => r is Err && r->Err_0 == e && final(pool).view() == old(pool).view(),
            }
        }),
        final(pool).wf(),
{
    let ghost n = NodeView::Internal {
        fence: fence@,
        children: children@,
        separators: node::keys_view(separators@),
        buffer: message::messages_view(buffer@),
    };
    proof {
        fits_page_writes(n);
    }
    let mut page = pool::blank_page();
    writer::encode_internal_page(page.as_mut_slice(), fence, children, separators, buffer)?;
    let pid: u64 = pool.allocate(page);
    Ok(pid)
}

/// Write a node on a new page.
pub fn allocate_node(pool: &mut PagePool, n: &NodePage) -> (r: Result<u64, CowBeTreeError>)
    requires
        old(pool).wf(),
    ensures
        match writer::page_len(n@, PAGE_SIZE as int) {
            Ok(_) => r is Ok && r->Ok_0 == old(pool).view().pages.len() && final(pool).view()
                == allocated(old(pool).view(), n@),
            Err(e) => r is Err && r->Err_0 == e && final(pool).view() == old(pool).view(),
        },
        final(pool).wf(),
{
    match n {
        NodePage::Leaf { fence, entries } => allocate_leaf(pool, fence, entries.as_slice()),
        NodePage::Internal { fence, children, separators, buffer } => allocate_internal(
            pool,
            fence,
            children.as_slice(),
            separators.as_slice(),
            buffer.as_slice(),
        ),
    }
}

// ---------------------------------------------------------------------------
// Trees put together.

/// A node written over a forest is a tree.
pub proof fn node_written(
    s: PoolView,
    pid: u64,
    fence: FenceView,
    separators: Seq<Seq<u8>>,
    buffer: Seq<MessageView>,
    kids: Seq<TreeView>,
    h: nat,
)
    requires
        pool::pool_ok(s),
        0 < pid < s.pages.len(),
        !pool::is_shared(s, pid),
        shape::forest(fence, separators, kids, h),
        shape::rep_all(s.pages, kids),
        shape::messages_inside(fence, buffer),
        !shape::forest_pids(kids).contains(pid),
        fits_page(
            NodeView::Internal { fence, children: shape::pids_of(kids), separators, buffer },
        ),
    ensures
        ({
            let n = NodeView::Internal {
                fence,
                children: shape::pids_of(kids),
                separators,
                buffer,
            };
            let s2 = written(s, pid, n);
            let t = TreeView::Node { pid, fence, separators, buffer, kids };
            &&& shape::wf(t, h + 1)
            &&& shape::rep(s2.pages, t)
            &&& pool::step(s, s2, shape::tree_pids(t), shape::tree_pids(t))
            &&& shape::tree_pids(t) == shape::forest_pids(kids).insert(pid)
            &&& shape::tree_recs(t) == shape::message_recs(buffer).union(shape::forest_recs(kids))
        }),
{
    let n = NodeView::Internal { fence, children: shape::pids_of(kids), separators, buffer };
    let s2 = written(s, pid, n);
    let t = TreeView::Node { pid, fence, separators, buffer, kids };
    written_step(s, pid, n);
    assert(!shape::some_has_pid(kids, pid));
    shape::wf_node(t, h + 1);
    shape::tree_parts(t);
    rep_others(s, s2, kids, one(pid), one(pid));
    pool::step_widen(s, s2, one(pid), one(pid), shape::forest_pids(kids));
    assert(one(pid).union(shape::forest_pids(kids)) =~= shape::tree_pids(t));
    assert(shape::node_of(t) == n);
}

/// A node written over a forest on a new page is a tree.
pub proof fn node_allocated(
    s: PoolView,
    fence: FenceView,
    separators: Seq<Seq<u8>>,
    buffer: Seq<MessageView>,
    kids: Seq<TreeView>,
    h: nat,
)
    requires
        pool::pool_ok(s),
        shape::forest(fence, separators, kids, h),
        shape::rep_all(s.pages, kids),
        shape::messages_inside(fence, buffer),
        ({
            let n = NodeView::Internal {
                fence,
                children: shape::pids_of(kids),
                separators,
                buffer,
            };
            fits_page(n) && pool::pool_ok(allocated(s, n))
        }),
    ensures
        ({
            let n = NodeView::Internal {
                fence,
                children: shape::pids_of(kids),
                separators,
                buffer,
            };
            let s2 = allocated(s, n);
            let pid = s.pages.len() as u64;
            let t = TreeView::Node { pid, fence, separators, buffer, kids };
            &&& shape::wf(t, h + 1)
            &&& shape::rep(s2.pages, t)
            &&& pool::step(s, s2, shape::forest_pids(kids), shape::tree_pids(t))
            &&& shape::tree_pids(t) == shape::forest_pids(kids).insert(pid)
            &&& shape::tree_recs(t) == shape::message_recs(buffer).union(shape::forest_recs(kids))
            &&& !pool::is_shared(s2, pid)
        }),
{
    let n = NodeView::Internal { fence, children: shape::pids_of(kids), separators, buffer };
    let s2 = allocated(s, n);
    let pid = s.pages.len() as u64;
    let t = TreeView::Node { pid, fence, separators, buffer, kids };
    allocated_step(s, n);
    if shape::some_has_pid(kids, pid) {
        pid_in_bounds(s.pages, kids, pid);
    }
    shape::wf_node(t, h + 1);
    shape::tree_parts(t);
    rep_others(s, s2, kids, Set::<u64>::empty(), one(pid));
    pool::step_widen(s, s2, Set::<u64>::empty(), one(pid), shape::forest_pids(kids));
    assert(Set::<u64>::empty().union(shape::forest_pids(kids)) =~= shape::forest_pids(kids));
    assert(one(pid).union(shape::forest_pids(kids)) =~= shape::tree_pids(t));
    assert(shape::node_of(t) == n);
}

/// A leaf written on a page of one's own is a tree.
pub proof fn leaf_written(s: PoolView, pid: u64, fence: FenceView, entries: Seq<EntryView>)
    requires
        pool::pool_ok(s),
        0 < pid < s.pages.len(),
        !pool::is_shared(s, pid),
        node::sorted_entries(entries),
        node::entries_newest_first(entries),
        shape::entries_inside(fence, entries),
        fits_page(NodeView::Leaf { fence, entries }),
    ensures
        ({
            let s2 = written(s, pid, NodeView::Leaf { fence, entries });
            let t = TreeView::Leaf { pid, fence, entries };
            &&& shape::wf(t, 0)
            &&& shape::rep(s2.pages, t)
            &&& pool::step(s, s2, one(pid), one(pid))
            &&& shape::tree_pids(t) == one(pid)
            &&& shape::tree_recs(t) == shape::entry_recs(entries)
        }),
{
    let t = TreeView::Leaf { pid, fence, entries };
    written_step(s, pid, NodeView::Leaf { fence, entries });
    shape::tree_parts(t);
}

/// A leaf written on a new page is a tree.
pub proof fn leaf_allocated(s: PoolView, fence: FenceView, entries: Seq<EntryView>)
    requires
        pool::pool_ok(s),
        node::sorted_entries(entries),
        node::entries_newest_first(entries),
        shape::entries_inside(fence, entries),
        fits_page(NodeView::Leaf { fence, entries }),
        pool::pool_ok(allocated(s, NodeView::Leaf { fence, entries })),
    ensures
        ({
            let s2 = allocated(s, NodeView::Leaf { fence, entries });
            let pid = s.pages.len() as u64;
            let t = TreeView::Leaf { pid, fence, entries };
            &&& shape::wf(t, 0)
            &&& shape::rep(s2.pages, t)
            &&& pool::step(s, s2, Set::<u64>::empty(), one(pid))
            &&& shape::tree_pids(t) == one(pid)
            &&& shape::tree_recs(t) == shape::entry_recs(entries)
            &&& !pool::is_shared(s2, pid)
        }),
{
    let t = TreeView::Leaf { pid: s.pages.len() as u64, fence, entries };
    allocated_step(s, NodeView::Leaf { fence, entries });
    shape::tree_parts(t);
}

pub proof fn pid_in_bounds(pages: Seq<Seq<u8>>, kids: Seq<TreeView>, p: u64)
    requires
        shape::rep_all(pages, kids),
        shape::some_has_pid(kids, p),
    ensures
        0 < p < pages.len(),
{
    let i = choose|i: int| 0 <= i < kids.len() && shape::has_pid(#[trigger] kids[i], p);
    shape::rep_in_bounds(pages, kids[i], p);
}

/// Trees that work does not touch are still there.
pub proof fn rep_others(
    s1: PoolView,
    s2: PoolView,
    kids: Seq<TreeView>,
    before: Set<u64>,
    after: Set<u64>,
)
    requires
        pool::step(s1, s2, before, after),
        shape::rep_all(s1.pages, kids),
        before.disjoint(shape::forest_pids(kids)),
    ensures
        shape::rep_all(s2.pages, kids),
{
    assert forall|i: int| 0 <= i < kids.len() implies shape::rep(s2.pages, #[trigger] kids[i]) by {
        assert forall|p: u64| #[trigger]
            shape::has_pid(kids[i], p) && p < s1.pages.len() implies p < s2.pages.len()
            && s2.pages[p as int] == s1.pages[p as int] by {
            assert(shape::some_has_pid(kids, p));
            assert(shape::forest_pids(kids).contains(p));
            assert(!before.contains(p));
        }
        shape::rep_frame(s1.pages, s2.pages, kids[i]);
    }
}

// ---------------------------------------------------------------------------
// Copy on write.

/// The tree with its root page under another page id.
pub open spec fn with_pid(t: TreeView, p: u64) -> TreeView {
    match t {
        TreeView::Leaf { fence, entries, .. } => TreeView::Leaf { pid: p, fence, entries },
        TreeView::Node { fence, separators, buffer, kids, .. } => TreeView::Node {
            pid: p,
            fence,
            separators,
            buffer,
            kids,
        },
    }
}

/// The root page of the tree may be changed in place.
pub open spec fn own_root(s: PoolView, t: TreeView) -> bool {
    !pool::is_shared(s, shape::pid_of(t))
}

/// No page of the tree is given up.
pub open spec fn keeps(s: PoolView, before: Set<u64>, after: Set<u64>) -> bool {
    s.active_roots <= 1 ==> before.subset_of(after)
}

pub proof fn with_pid_facts(t: TreeView, h: nat, p: u64)
    requires
        shape::wf(t, h),
        p == shape::pid_of(t) || !shape::has_pid(t, p),
    ensures
        shape::wf(with_pid(t, p), h),
        shape::fence_of(with_pid(t, p)) == shape::fence_of(t),
        shape::tree_recs(with_pid(t, p)) == shape::tree_recs(t),
        shape::node_of(with_pid(t, p)) == shape::node_of(t),
        shape::pid_of(with_pid(t, p)) == p,
{
    let t2 = with_pid(t, p);
    shape::tree_parts(t);
    shape::tree_parts(t2);
    match t {
        TreeView::Leaf { .. } => {},
        TreeView::Node { kids, .. } => {
            assert forall|i: int| 0 <= i < kids.len() implies !shape::has_pid(
                #[trigger] kids[i],
                p,
            ) by {
                if shape::has_pid(kids[i], p) {
                    assert(shape::has_pid(t, p));
                }
            }
        },
    }
}

/// Make the root page of a tree one's own: copy it if it is shared. The copy
/// stands in the tree in its place.
pub fn ensure_mutable(
    pool: &mut PagePool,
    pid: u64,
    Ghost(t): Ghost<TreeView>,
    Ghost(h): Ghost<nat>,
) -> (r: Result<u64, CowBeTreeError>)
    requires
        old(pool).wf(),
        shape::rep(old(pool).view().pages, t),
        shape::wf(t, h),
        pid == shape::pid_of(t),
    ensures
        r is Ok,
        ({
            let s1 = old(pool).view();
            let s2 = final(pool).view();
            let t2 = with_pid(t, r->Ok_0);
            &&& shape::rep(s2.pages, t2)
            &&& shape::wf(t2, h)
            &&& shape::fence_of(t2) == shape::fence_of(t)
            &&& shape::tree_recs(t2) == shape::tree_recs(t)
            &&& shape::pid_of(t2) == r->Ok_0
            &&& pool::step(s1, s2, shape::tree_pids(t), shape::tree_pids(t2))
            &&& own_root(s2, t2)
            &&& keeps(s1, shape::tree_pids(t), shape::tree_pids(t2))
            &&& (s1.active_roots <= 1 ==> t2 == t && s2 == s1)
            &&& (own_root(s1, t) ==> t2 == t && s2.pages == s1.pages)
            &&& (!own_root(s1, t) ==> r->Ok_0 >= s1.pages.len())
        }),
        final(pool).wf(),
{
    let ghost s0 = pool.view();
    proof {
        with_pid_facts(t, h, pid);
        assert(with_pid(t, pid) == t);
    }
    let shared = pool.claim(pid);
    let ghost s1 = pool.view();
    proof {
        claimed_step(s0, s1, shape::tree_pids(t));
        rep_same_pages(s0.pages, s1.pages, t);
    }
    assert(pool::owners(s1, pid) == pool::owners(s0, pid));
    if !shared {
        return Ok(pid);
    }
    let n = pool.read_node(pid)?;
    proof {
        read_node_fits(s1.pages[pid as int]);
    }
    let new_pid: u64 = allocate_node(pool, &n)?;
    let ghost s2 = pool.view();
    assert(pool::owners(s2, pid) == pool::owners(s1, pid));
    pool.release(pid);
    let ghost s3 = pool.view();
    proof {
        let t2 = with_pid(t, new_pid);
        allocated_step(s1, n@);
        if shape::has_pid(t, new_pid) {
            shape::rep_in_bounds(s1.pages, t, new_pid);
        }
        with_pid_facts(t, h, new_pid);
        copied_tree(s1, s2, s3, t, new_pid);
        pool::step_trans(
            s0,
            s1,
            s3,
            shape::tree_pids(t),
            shape::tree_pids(t),
            shape::tree_pids(t2),
        );
    }
    Ok(new_pid)
}

/// Make a page one's own: copy it if it is shared. The copy takes its place.
pub fn ensure_mutable_page(pool: &mut PagePool, pid: u64) -> (r: Result<u64, CowBeTreeError>)
    requires
        old(pool).wf(),
        0 < pid < old(pool).view().pages.len(),
        layout::parse_page(old(pool).view().pages[pid as int]) is Ok,
    ensures
        r is Ok,
        ({
            let s1 = old(pool).view();
            let s2 = final(pool).view();
            &&& pool::step(s1, s2, one(pid), one(r->Ok_0))
            &&& !pool::is_shared(s2, r->Ok_0)
            &&& 0 < r->Ok_0 < s2.pages.len()
            &&& (r->Ok_0 == pid || r->Ok_0 >= s1.pages.len())
            &&& (s1.active_roots <= 1 ==> r->Ok_0 == pid && s2 == s1)
            &&& (!pool::is_shared(s1, pid) ==> r->Ok_0 == pid)
            &&& (pool::is_shared(s1, pid) ==> r->Ok_0 >= s1.pages.len())
        }),
        final(pool).wf(),
{
    let ghost s0 = pool.view();
    let shared = pool.claim(pid);
    let ghost s1 = pool.view();
    proof {
        claimed_step(s0, s1, one(pid));
    }
    assert(pool::owners(s1, pid) == pool::owners(s0, pid));
    if !shared {
        return Ok(pid);
    }
    let n = pool.read_node(pid)?;
    proof {
        read_node_fits(s1.pages[pid as int]);
    }
    let new_pid: u64 = allocate_node(pool, &n)?;
    let ghost s2 = pool.view();
    assert(pool::owners(s2, pid) == pool::owners(s1, pid));
    pool.release(pid);
    let ghost s3 = pool.view();
    proof {
        allocated_step(s1, n@);
        released_step(s1, s2, s3, pid, new_pid);
        pool::step_trans(s0, s1, s3, one(pid), one(pid), one(new_pid));
    }
    Ok(new_pid)
}

/// A page of one tree was copied to a new page, and given up.
proof fn released_step(s1: PoolView, s2: PoolView, s3: PoolView, pid: u64, new_pid: u64)
    requires
        pool::pool_ok(s3),
        pool::step(s1, s2, Set::<u64>::empty(), one(new_pid)),
        pid < s1.pages.len() <= new_pid,
        s3.pages == s2.pages,
        s3.active_roots == s2.active_roots,
        s3.lsn == s2.lsn,
        s3.dirty == s2.dirty,
        pool::owners(s3, pid) == pool::owners(s2, pid) - 1,
        forall|p: u64|
            #![trigger pool::owners(s3, p)]
            p != pid ==> pool::owners(s3, p) == pool::owners(s2, p),
    ensures
        pool::step(s1, s3, one(pid), one(new_pid)),
        pool::owners(s3, new_pid) == 1,
{
    let a = one(pid);
    let b = one(new_pid);
    assert forall|p: u64|
        #![trigger pool::owners(s3, p)]
        p < s1.pages.len() && (!a.contains(p) || b.contains(p)) implies pool::owners(s3, p)
        == pool::owners(s1, p) by {
        assert(p != pid);
        assert(pool::owners(s2, p) == pool::owners(s2, p));
    }
    assert forall|p: u64|
        #![trigger pool::owners(s3, p)]
        p < s1.pages.len() && a.contains(p) && !b.contains(p) implies pool::owners(s1, p) - 1
        <= pool::owners(s3, p) <= pool::owners(s1, p) by {
        assert(pool::owners(s2, p) == pool::owners(s2, p));
    }
    assert forall|p: u64| #![trigger pool::owners(s3, p)] p >= s1.pages.len() implies pool::owners(
        s3,
        p,
    ) == 1 by {
        assert(pool::owners(s2, p) == 1);
    }
    assert forall|p: u64|
        #![trigger s3.pages[p as int]]
        p < s1.pages.len() && (!a.contains(p) || pool::is_shared(s1, p)) implies s3.pages[p as int]
        == s1.pages[p as int] by {
        assert(s2.pages[p as int] == s1.pages[p as int]);
    }
    assert(pool::listed(s1, s3)) by {
        assert forall|p: u64| #[trigger] pool::differs(s1, s3, p) implies pool::is_listed(
            s3,
            p,
            s1.lsn,
        ) by {
            assert(pool::differs(s1, s2, p));
            assert(pool::is_listed(s2, p, s1.lsn));
        }
        assert forall|p: u64, lsn: Option<u64>| #[trigger] pool::is_listed(s1, p, lsn) implies
            pool::is_listed(s3, p, lsn) by {
            assert(pool::is_listed(s2, p, lsn));
        }
    }
}

proof fn claimed_step(s0: PoolView, s1: PoolView, pids: Set<u64>)
    requires
        pool::pool_ok(s0),
        pool::pool_ok(s1),
        s1.pages == s0.pages,
        s1.active_roots == s0.active_roots,
        s1.lsn == s0.lsn,
        s1.dirty == s0.dirty,
        forall|p: u64|
            #![trigger pool::owners(s1, p)]
            pool::owners(s1, p) == pool::owners(s0, p),
    ensures
        pool::step(s0, s1, pids, pids),
{
    assert forall|p: u64| p >= s0.pages.len() implies pool::owners(s1, p) == 1 by {
        assert(!s1.shared.contains_key(p));
    }
    assert forall|p: u64, lsn: Option<u64>| #[trigger] pool::is_listed(s0, p, lsn) implies
        pool::is_listed(s1, p, lsn) by {}
}

proof fn rep_same_pages(p1: Seq<Seq<u8>>, p2: Seq<Seq<u8>>, t: TreeView)
    requires
        shape::rep(p1, t),
        p1 == p2,
    ensures
        shape::rep(p2, t),
{
}

/// A tree whose shared root page was copied and given up.
proof fn copied_tree(s1: PoolView, s2: PoolView, s3: PoolView, t: TreeView, new_pid: u64)
    requires
        pool::pool_ok(s1),
        pool::pool_ok(s3),
        shape::rep(s1.pages, t),
        s2 == allocated(s1, shape::node_of(t)),
        new_pid == s1.pages.len(),
        pool::step(s1, s2, Set::<u64>::empty(), one(new_pid)),
        layout::parse_page(s2.pages[new_pid as int]) == Ok::<_, CowBeTreeError>(shape::node_of(t)),
        pool::is_shared(s2, shape::pid_of(t)),
        s3.pages == s2.pages,
        s3.active_roots == s2.active_roots,
        s3.lsn == s2.lsn,
        s3.dirty == s2.dirty,
        pool::owners(s3, shape::pid_of(t)) == pool::owners(s2, shape::pid_of(t)) - 1,
        forall|p: u64|
            #![trigger pool::owners(s3, p)]
            p != shape::pid_of(t) ==> pool::owners(s3, p) == pool::owners(s2, p),
        !shape::has_pid(t, new_pid),
        forall|i: int|
            t is Node && 0 <= i < t->kids.len() ==> !shape::has_pid(
                #[trigger] t->kids[i],
                shape::pid_of(t),
            ),
    ensures
        shape::rep(s3.pages, with_pid(t, new_pid)),
        pool::step(s1, s3, shape::tree_pids(t), shape::tree_pids(with_pid(t, new_pid))),
        own_root(s3, with_pid(t, new_pid)),
{
    let t2 = with_pid(t, new_pid);
    let pid = shape::pid_of(t);
    let a = shape::tree_pids(t);
    let b = shape::tree_pids(t2);
    shape::tree_parts(t);
    shape::tree_parts(t2);
    assert(new_pid != pid);
    match t {
        TreeView::Leaf { .. } => {},
        TreeView::Node { kids, .. } => {
            assert forall|i: int| 0 <= i < kids.len() implies shape::rep(
                s3.pages,
                #[trigger] kids[i],
            ) by {
                assert forall|p: u64| #[trigger]
                    shape::has_pid(kids[i], p) && p < s1.pages.len() implies p < s3.pages.len()
                    && s3.pages[p as int] == s1.pages[p as int] by {}
                shape::rep_frame(s1.pages, s3.pages, kids[i]);
            }
            assert(!shape::some_has_pid(kids, pid));
        },
    }
    assert(!b.contains(pid));
    assert forall|p: u64|
        #![trigger pool::owners(s3, p)]
        p < s1.pages.len() && (!a.contains(p) || b.contains(p)) implies pool::owners(s3, p)
        == pool::owners(s1, p) by {
        assert(p != pid);
        assert(pool::owners(s2, p) == pool::owners(s2, p));
    }
    assert forall|p: u64|
        #![trigger pool::owners(s3, p)]
        p < s1.pages.len() && a.contains(p) && !b.contains(p) implies pool::owners(s1, p) - 1
        <= pool::owners(s3, p) <= pool::owners(s1, p) by {
        assert(pool::owners(s2, p) == pool::owners(s2, p));
    }
    assert forall|p: u64| #![trigger pool::owners(s3, p)] p >= s1.pages.len() implies pool::owners(
        s3,
        p,
    ) == 1 by {
        assert(pool::owners(s2, p) == 1);
    }
    assert forall|p: u64|
        #![trigger s3.pages[p as int]]
        p < s1.pages.len() && (!a.contains(p) || pool::is_shared(s1, p)) implies s3.pages[p as int]
        == s1.pages[p as int] by {
        assert(s2.pages[p as int] == s1.pages[p as int]);
    }
    assert(pool::listed(s1, s3)) by {
        assert forall|p: u64| #[trigger] pool::differs(s1, s3, p) implies pool::is_listed(
            s3,
            p,
            s1.lsn,
        ) by {
            assert(pool::differs(s1, s2, p));
            assert(pool::is_listed(s2, p, s1.lsn));
        }
        assert forall|p: u64, lsn: Option<u64>| #[trigger] pool::is_listed(s1, p, lsn) implies
            pool::is_listed(s3, p, lsn) by {
            assert(pool::is_listed(s2, p, lsn));
        }
    }
}

} // verus!
