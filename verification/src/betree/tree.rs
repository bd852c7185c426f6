//! Copy-on-write buffered trees: a tree of pages in a pool, with messages
//! buffered in its inner nodes, which may be forked.
use vstd::prelude::*;

use crate::betree::compact;
use crate::betree::compact_laws;
use crate::betree::config::CowBeTreeConfig;
use crate::betree::course;
use crate::betree::drain;
use crate::betree::flush;
use crate::betree::gc;
use crate::betree::gc::CowBeTreeGcResult;
use crate::betree::gc_tree;
use crate::betree::gc_tree::IncrementalGcState;
use crate::betree::layout;
use crate::betree::leaf_work;
use crate::betree::leaf_work::Rewrite;
use crate::betree::local;
use crate::betree::local::LocalWrite;
use crate::betree::message;
use crate::betree::message::{BufferedMessage, CowBeTreeMessage, MessageView, VersionView};
use crate::betree::node;
use crate::betree::node::{CowBeTreeError, EntryView, Fence, LeafEntry, NodePage, NodeView};
use crate::betree::pool;
use crate::betree::pool::{PagePool, PoolView};
use crate::betree::read;
use crate::betree::reclaim;
use crate::betree::read::CowBeTreeVisibleVersion;
use crate::betree::rewrite;
use crate::betree::root;
use crate::betree::scan;
use crate::betree::scan::{Bound, Row};
use crate::betree::shape;
use crate::betree::shape::TreeView;
use crate::betree::takes;
use crate::betree::walk;
use crate::betree::walk::CowBeTreeDebugState;
use crate::betree::work;
use crate::bytes;
use crate::page_id::Lsn;

verus! {

/// A tree in a pool of pages. The pool is handed to every operation; a family of
/// forked trees shares one.
pub struct CowBeTree {
    root: u64,
    append_hint: u64,
    config: CowBeTreeConfig,
    shape: Ghost<TreeView>,
    levels: Ghost<nat>,
}

/// The pages hold a whole tree of height `h` with its root on page `root`.
pub open spec fn is_whole_tree(s: PoolView, root: u64, t: TreeView, h: nat) -> bool {
    &&& shape::rep(s.pages, t)
    &&& shape::wf(t, h)
    &&& shape::fence_of(t) == node::root_fence()
    &&& shape::pid_of(t) == root
}

/// Some whole tree has its root on page `root`.
pub open spec fn holds_tree(s: PoolView, root: u64) -> bool {
    exists|t: TreeView, h: nat| is_whole_tree(s, root, t, h)
}

/// What a write to a tree comes to: only its pages and new pages were touched,
/// and it holds its records and `more`, up to records with the same key and
/// timestamp.
pub open spec fn written(
    pre: CowBeTree,
    s1: PoolView,
    post: CowBeTree,
    s2: PoolView,
    more: Set<MessageView>,
) -> bool {
    &&& post.stands(s2)
    &&& post.options() == pre.options()
    &&& pool::step(s1, s2, pre.pids(), post.pids())
    &&& shape::refine(post.recs(), pre.recs().union(more))
}

/// One record.
pub open spec fn only(m: MessageView) -> Set<MessageView> {
    shape::message_recs(seq![m])
}

pub open spec fn nothing() -> Set<MessageView> {
    Set::empty()
}

impl CowBeTree {
    /// The tree as mathematics.
    pub closed spec fn tree(&self) -> TreeView {
        self.shape@
    }

    pub closed spec fn depth(&self) -> nat {
        self.levels@
    }

    pub closed spec fn root_id(&self) -> u64 {
        self.root
    }

    pub closed spec fn hint(&self) -> u64 {
        self.append_hint
    }

    pub closed spec fn options(&self) -> CowBeTreeConfig {
        self.config
    }

    /// No message waits in a buffer, and no node is over the limit of children.
    pub open spec fn is_settled(&self) -> bool {
        shape::settled(self.tree(), self.options().max_internal_children)
    }

    /// The records that the tree holds.
    pub open spec fn recs(&self) -> Set<MessageView> {
        shape::tree_recs(self.tree())
    }

    /// The pages of the tree.
    pub open spec fn pids(&self) -> Set<u64> {
        shape::tree_pids(self.tree())
    }

    /// The tree stands in the pool, and while it is the only one, the page for
    /// the next append is one of its pages.
    pub open spec fn wf(&self, s: PoolView) -> bool {
        &&& pool::pool_ok(s)
        &&& s.lsn is None
        &&& self.stands(s)
    }

    pub open spec fn stands(&self, s: PoolView) -> bool {
        &&& is_whole_tree(s, self.root_id(), self.tree(), self.depth())
        &&& s.active_roots <= 1 && self.options().max_leaf_entries > 0 ==> self.hint() == 0
            || self.pids().contains(self.hint())
    }

    // -----------------------------------------------------------------------
    // Opening.

    /// A new, empty tree.
    pub fn new(pool: &mut PagePool) -> (r: Self)
        requires
            old(pool).wf(),
            old(pool).view().lsn is None,
        ensures
            r.wf(final(pool).view()),
            r.recs() == nothing(),
            r.root_id() == old(pool).view().pages.len(),
            pool::step(old(pool).view(), final(pool).view(), Set::<u64>::empty(), r.pids()),
    {
        Self::with_config(pool, CowBeTreeConfig::default())
    }

    /// A new, empty tree with the given limits.
    pub fn with_config(pool: &mut PagePool, config: CowBeTreeConfig) -> (r: Self)
        requires
            old(pool).wf(),
            old(pool).view().lsn is None,
        ensures
            r.wf(final(pool).view()),
            r.recs() == nothing(),
            r.options() == config,
            r.root_id() == old(pool).view().pages.len(),
            r.tree() is Leaf,
            pool::step(old(pool).view(), final(pool).view(), Set::<u64>::empty(), r.pids()),
    {
        let ghost s1 = pool.view();
        let entries: Vec<LeafEntry> = Vec::new();
        let fence = Fence::root();
        let ghost none = Seq::<EntryView>::empty();
        proof {
            assert(node::entries_view(entries@) =~= none);
            empty_leaf_fits();
        }
        let root: u64 = match work::allocate_leaf(pool, &fence, entries.as_slice()) {
            Ok(pid) => pid,
            Err(_) => 0,
        };
        let ghost t = TreeView::Leaf { pid: root, fence: node::root_fence(), entries: none };
        proof {
            work::leaf_allocated(s1, node::root_fence(), none);
            assert(shape::entry_recs(none) =~= nothing());
            assert(shape::has_pid(t, root));
        }
        CowBeTree { root, append_hint: root, config, shape: Ghost(t), levels: Ghost(0) }
    }

    /// The tree with its root on a page.
    pub fn open(pool: &PagePool, root_page_id: u64) -> (r: Self)
        requires
            pool.wf(),
            pool.view().lsn is None,
            holds_tree(pool.view(), root_page_id),
        ensures
            r.wf(pool.view()),
            r.root_id() == root_page_id,
            is_whole_tree(pool.view(), root_page_id, r.tree(), r.depth()),
    {
        Self::open_with_config(pool, root_page_id, CowBeTreeConfig::default())
    }

    /// The tree with its root on a page, with the given limits.
    pub fn open_with_config(pool: &PagePool, root_page_id: u64, config: CowBeTreeConfig) -> (r: Self)
        requires
            pool.wf(),
            pool.view().lsn is None,
            holds_tree(pool.view(), root_page_id),
        ensures
            r.wf(pool.view()),
            r.root_id() == root_page_id,
            r.options() == config,
            is_whole_tree(pool.view(), root_page_id, r.tree(), r.depth()),
    {
        let ghost (t, h) = choose|t: TreeView, h: nat|
            is_whole_tree(pool.view(), root_page_id, t, h);
        assert(shape::has_pid(t, root_page_id));
        CowBeTree {
            root: root_page_id,
            append_hint: root_page_id,
            config,
            shape: Ghost(t),
            levels: Ghost(h),
        }
    }

    /// A second tree with the same records, on the same pages; from now on both
    /// copy a shared page before they change it.
    pub fn fork(&self, pool: &mut PagePool) -> (r: Result<Self, CowBeTreeError>)
        requires
            self.wf(old(pool).view()),
            old(pool).view().active_roots < usize::MAX,
        ensures
            r is Ok,
            r->Ok_0.wf(final(pool).view()),
            self.wf(final(pool).view()),
            r->Ok_0.tree() == self.tree(),
            r->Ok_0.depth() == self.depth(),
            r->Ok_0.options() == self.options(),
            r->Ok_0.hint() == self.root_id(),
            final(pool).view().pages == old(pool).view().pages,
            final(pool).view().dirty == old(pool).view().dirty,
            final(pool).view().active_roots == old(pool).view().active_roots + 1,
            forall|p: u64|
                #![trigger pool::owners(final(pool).view(), p)]
                pool::owners(final(pool).view(), p) == pool::owners(old(pool).view(), p) + (
                if self.pids().contains(p) {
                    1int
                } else {
                    0
                }),
    {
        let ghost s1 = pool.view();
        let mut pages: Vec<u64> = Vec::new();
        walk::collect_reachable_pages(
            pool,
            self.root,
            &mut pages,
            Ghost(self.shape@),
            Ghost(self.levels@),
        );
        proof {
            assert forall|i: int| 0 <= i < pages@.len() implies #[trigger] pages@[i]
                < s1.pages.len() by {
                assert(pages@.contains(pages@[i]));
                shape::rep_in_bounds(s1.pages, self.shape@, pages@[i]);
            }
        }
        pool.share_all(&pages);
        let r = CowBeTree {
            root: self.root,
            append_hint: self.root,
            config: self.config,
            shape: Ghost(self.shape@),
            levels: Ghost(self.levels@),
        };
        proof {
            assert forall|p: u64|
                #![trigger pool::owners(pool.view(), p)]
                pool::owners(pool.view(), p) == pool::owners(s1, p) + (if self.pids().contains(
                    p,
                ) {
                    1int
                } else {
                    0
                }) by {
                assert(pages@.contains(p) <==> shape::has_pid(self.shape@, p));
            }
        }
        Ok(r)
    }

    pub fn root_page_id(&self) -> (r: u64)
        ensures
            r == self.root_id(),
    {
        self.root
    }

    /// The pages of the tree, in ascending order.
    pub fn owned_page_ids(&self, pool: &PagePool) -> (r: Result<Vec<u64>, CowBeTreeError>)
        requires
            self.wf(pool.view()),
        ensures
            r is Ok,
            walk::ascending(r->Ok_0@),
            forall|p: u64| #[trigger] r->Ok_0@.contains(p) <==> self.pids().contains(p),
    {
        let mut pages: Vec<u64> = Vec::new();
        walk::collect_reachable_pages(
            pool,
            self.root,
            &mut pages,
            Ghost(self.shape@),
            Ghost(self.levels@),
        );
        Ok(walk::sort_ids(&pages))
    }

    /// How many levels of nodes are above the leaves.
    pub fn height(&self, pool: &PagePool) -> (r: u32)
        requires
            self.wf(pool.view()),
        ensures
            r == walk::clamp_u32(self.depth() as int),
    {
        self.debug_snapshot(pool).height
    }

    /// How large the tree is.
    pub fn debug_snapshot(&self, pool: &PagePool) -> (r: CowBeTreeDebugState)
        requires
            self.wf(pool.view()),
        ensures
            r == walk::with_counts(
                CowBeTreeDebugState {
                    root_kind: Some(
                        if self.tree() is Leaf {
                            node::PageKindDebug::Leaf
                        } else {
                            node::PageKindDebug::Internal
                        },
                    ),
                    height: 0,
                    leaf_pages: 0,
                    internal_pages: 0,
                    leaf_entries: 0,
                    buffered_messages: 0,
                    max_buffered_messages_on_page: 0,
                },
                walk::tree_counts(self.tree()),
                self.depth() as int,
            ),
    {
        let mut state = CowBeTreeDebugState::default();
        match pool.read_node(self.root) {
            Err(_) => {
                return state;
            },
            Ok(root) => {
                state.root_kind = Some(root.kind().debug());
            },
        }
        walk::debug_walk(
            pool,
            self.root,
            0,
            &mut state,
            Ghost(self.shape@),
            Ghost(self.levels@),
            Ghost(0),
        );
        state
    }

    // -----------------------------------------------------------------------
    // Reading.

    /// The value of a key, as the latest reader sees it.
    pub fn lookup(&self, pool: &PagePool, key: &[u8]) -> (r: Option<Vec<u8>>)
        requires
            self.wf(pool.view()),
        ensures
            seen_bytes(r) == seen(read::tree_lookup(self.tree(), key@, u64::MAX)),
    {
        self.lookup_visible(pool, key, u64::MAX)
    }

    /// The value of a key, as a reader at `read_ts` sees it.
    pub fn lookup_visible(&self, pool: &PagePool, key: &[u8], read_ts: u64) -> (r: Option<Vec<u8>>)
        requires
            self.wf(pool.view()),
        ensures
            seen_bytes(r) == seen(read::tree_lookup(self.tree(), key@, read_ts)),
    {
        match self.lookup_visible_version(pool, key, read_ts) {
            None => None,
            Some(version) => if version.deleted {
                None
            } else {
                Some(version.value)
            },
        }
    }

    /// The version of a key that a reader at `read_ts` sees, deletions among
    /// them: the newest on the path to the leaf of the key.
    pub fn lookup_visible_version(&self, pool: &PagePool, key: &[u8], read_ts: u64) -> (r: Option<
        CowBeTreeVisibleVersion,
    >)
        requires
            self.wf(pool.view()),
        ensures
            read::opt_version(r) == read::tree_lookup(self.tree(), key@, read_ts),
            read::is_newest(self.recs(), key@, read_ts, read::opt_version(r)),
    {
        proof {
            read::nothing_below_empty(key@);
            read::lookup_finds_newest(self.shape@, self.levels@, key@, read_ts);
        }
        read::lookup_path(
            pool,
            self.root,
            key,
            read_ts,
            Ghost(self.shape@),
            Ghost(self.levels@),
        )
    }

    /// Hand the value of a key to `f`.
    pub fn lookup_with<R, F: FnOnce(Option<&[u8]>) -> R>(
        &self,
        pool: &PagePool,
        key: &[u8],
        f: F,
    ) -> (r: R)
        requires
            self.wf(pool.view()),
            forall|v: Option<&[u8]>| f.requires((v,)),
        ensures
            exists|v: Option<&[u8]>| #[trigger]
                f.ensures((v,), r) && opt_slice(v) == seen(
                    read::tree_lookup(self.tree(), key@, u64::MAX),
                ),
    {
        let value = self.lookup(pool, key);
        match value {
            Some(value) => f(Some(value.as_slice())),
            None => f(None),
        }
    }

    /// The value of a key, if it has `N` bytes.
    pub fn lookup_fixed<const N: usize>(&self, pool: &PagePool, key: &[u8]) -> (r: Option<[u8; N]>)
        requires
            self.wf(pool.view()),
        ensures
            match seen(read::tree_lookup(self.tree(), key@, u64::MAX)) {
                Some(v) => if v.len() == N {
                    r is Some && r->0@ == v
                } else {
                    r is None
                },
                None => r is None,
            },
    {
        match self.lookup(pool, key) {
            Some(value) => array_from(value.as_slice()),
            None => None,
        }
    }

    /// The rows whose keys start with `prefix`, as the latest reader sees them.
    pub fn scan_prefix(&self, pool: &PagePool, prefix: &[u8]) -> (r: Vec<Row>)
        requires
            self.wf(pool.view()),
        ensures
            scan::are_rows(
                self.recs(),
                u64::MAX,
                |key: Seq<u8>| bytes::has_prefix(key, prefix@),
                scan::rows_view(r@),
            ),
            scan::picked(
                scan::entries_of(self.tree()),
                u64::MAX,
                |key: Seq<u8>| bytes::has_prefix(key, prefix@),
                scan::rows_view(r@),
            ),
    {
        self.scan_prefix_visible(pool, prefix, u64::MAX)
    }

    /// The rows whose keys start with `prefix`, as a reader at `read_ts` sees
    /// them.
    pub fn scan_prefix_visible(&self, pool: &PagePool, prefix: &[u8], read_ts: u64) -> (r: Vec<Row>)
        requires
            self.wf(pool.view()),
        ensures
            scan::are_rows(
                self.recs(),
                read_ts,
                |key: Seq<u8>| bytes::has_prefix(key, prefix@),
                scan::rows_view(r@),
            ),
            scan::picked(
                scan::entries_of(self.tree()),
                read_ts,
                |key: Seq<u8>| bytes::has_prefix(key, prefix@),
                scan::rows_view(r@),
            ),
    {
        let rows = self.scan_range_visible(pool, Bound::Unbounded, Bound::Unbounded, read_ts);
        let ghost all = scan::rows_view(rows@);
        let r = scan::keep_prefix(rows, prefix, Ghost(self.recs()), Ghost(read_ts));
        proof {
            scan::kept_is_picked(
                scan::entries_of(self.tree()),
                read_ts,
                prefix@,
                all,
                scan::rows_view(r@),
            );
        }
        r
    }

    /// The rows in a range of keys, as the latest reader sees them.
    pub fn scan_range(&self, pool: &PagePool, lower: Bound<'_>, upper: Bound<'_>) -> (r: Vec<Row>)
        requires
            self.wf(pool.view()),
        ensures
            scan::are_rows(
                self.recs(),
                u64::MAX,
                |key: Seq<u8>| scan::in_range(key, lower, upper),
                scan::rows_view(r@),
            ),
            scan::picked(
                scan::entries_of(self.tree()),
                u64::MAX,
                |key: Seq<u8>| scan::in_range(key, lower, upper),
                scan::rows_view(r@),
            ),
    {
        self.scan_range_visible(pool, lower, upper, u64::MAX)
    }

    /// The rows in a range of keys, as a reader at `read_ts` sees them.
    pub fn scan_range_visible(
        &self,
        pool: &PagePool,
        lower: Bound<'_>,
        upper: Bound<'_>,
        read_ts: u64,
    ) -> (r: Vec<Row>)
        requires
            self.wf(pool.view()),
        ensures
            scan::are_rows(
                self.recs(),
                read_ts,
                |key: Seq<u8>| scan::in_range(key, lower, upper),
                scan::rows_view(r@),
            ),
            scan::picked(
                scan::entries_of(self.tree()),
                read_ts,
                |key: Seq<u8>| scan::in_range(key, lower, upper),
                scan::rows_view(r@),
            ),
    {
        scan::scan_tree(
            pool,
            self.root,
            lower,
            upper,
            read_ts,
            Ghost(self.shape@),
            Ghost(self.levels@),
        )
    }
}

/// What a reader sees of a version: its value, unless it is a deletion.
pub open spec fn seen(v: Option<VersionView>) -> Option<Seq<u8>> {
    match v {
        Some(v) => if v.deleted {
            None
        } else {
            Some(v.value)
        },
        None => None,
    }
}

pub open spec fn seen_bytes(v: Option<Vec<u8>>) -> Option<Seq<u8>> {
    match v {
        Some(v) => Some(v@),
        None => None,
    }
}

pub open spec fn opt_slice(v: Option<&[u8]>) -> Option<Seq<u8>> {
    match v {
        Some(v) => Some(v@),
        None => None,
    }
}

/// The slice as an array, by `TryFrom<&[u8]>` for `[u8; N]` of the standard
/// library: the bytes of the slice if it has `N` of them, else an error.
#[verifier::external_body]
pub(crate) fn array_from<const N: usize>(bytes: &[u8]) -> (r: Option<[u8; N]>)
    ensures
        match r {
            Some(a) => bytes@.len() == N && a@ == bytes@,
            None => bytes@.len() != N,
        },
{
    bytes.try_into().ok()
}

proof fn empty_leaf_fits()
    ensures
        work::fits_page(
            NodeView::Leaf { fence: node::root_fence(), entries: Seq::<EntryView>::empty() },
        ),
        node::sorted_entries(Seq::<EntryView>::empty()),
        node::entries_newest_first(Seq::<EntryView>::empty()),
        shape::entries_inside(node::root_fence(), Seq::<EntryView>::empty()),
{
    broadcast use bytes::group_le;

    let es = Seq::<EntryView>::empty();
    let fence = node::root_fence();
    let n = NodeView::Leaf { fence, entries: es };
    assert(layout::enc_entries(es).len() == 0);
    assert(layout::entry_offsets(layout::leaf_base(fence), es) =~= Seq::<u32>::empty());
    assert(layout::enc_offsets(Seq::<u32>::empty()).len() == 0);
    assert(bytes::le16(0).len() == 2);
    assert(bytes::le16(layout::NONE_FENCE_LEN).len() == 2);
    assert(layout::enc_fence(fence).len() == 4);
    assert(layout::node_body(n).len() == 6);
}

// ---------------------------------------------------------------------------
// Writing.

/// Work on the root page of a tree kept it one's own.
proof fn root_stays_own(s1: PoolView, s2: PoolView, p: u64, before: Set<u64>, after: Set<u64>)
    requires
        pool::step(s1, s2, before, after),
        p < s1.pages.len(),
        before.contains(p),
        after.contains(p),
        !pool::is_shared(s1, p),
    ensures
        !pool::is_shared(s2, p),
{
    assert(pool::owners(s2, p) == pool::owners(s1, p));
}

proof fn root_in_tree(t: TreeView)
    ensures
        shape::tree_pids(t).contains(shape::pid_of(t)),
{
    assert(shape::has_pid(t, shape::pid_of(t)));
}

impl CowBeTree {
    /// Make the root page one's own.
    fn ensure_root_mutable(&mut self, pool: &mut PagePool) -> (r: Result<u64, CowBeTreeError>)
        requires
            old(pool).wf(),
            old(self).stands(old(pool).view()),
        ensures
            final(pool).wf(),
            r is Ok,
            r->Ok_0 == final(self).root_id(),
            final(self).stands(final(pool).view()),
            final(self).options() == old(self).options(),
            final(self).depth() == old(self).depth(),
            final(self).recs() == old(self).recs(),
            pool::step(
                old(pool).view(),
                final(pool).view(),
                old(self).pids(),
                final(self).pids(),
            ),
            work::own_root(final(pool).view(), final(self).tree()),
            shape::unbuffered(old(self).tree()) ==> shape::unbuffered(final(self).tree()),
            old(self).is_settled() ==> final(self).is_settled(),
            shape::alike(old(self).tree(), final(self).tree()),
            final(self).tree() == work::with_pid(old(self).tree(), final(self).root_id()),
            old(pool).view().active_roots <= 1 ==> *final(self) == *old(self)
                && final(pool).view() == old(pool).view(),
    {
        let ghost t = self.shape@;
        let old_root: u64 = self.root;
        let new_root: u64 = work::ensure_mutable(
            pool,
            old_root,
            Ghost(t),
            Ghost(self.levels@),
        )?;
        proof {
            root_in_tree(work::with_pid(t, new_root));
            shape::alike_refl(t);
        }
        if old_root != new_root {
            self.root = new_root;
            self.append_hint = new_root;
            self.shape = Ghost(work::with_pid(t, new_root));
        } else {
            assert(work::with_pid(t, new_root) == t);
        }
        Ok(new_root)
    }

    /// Make what a rewrite of the root left the tree.
    fn install_root_rewrite(
        &mut self,
        pool: &mut PagePool,
        root_pid: u64,
        rw: Rewrite,
        keep_root: bool,
        Ghost(s0): Ghost<PoolView>,
        Ghost(h): Ghost<nat>,
        Ghost(before): Ghost<Set<u64>>,
        Ghost(recs): Ghost<Set<MessageView>>,
    ) -> (r: Result<(), CowBeTreeError>)
        requires
            old(pool).wf(),
            pool::pool_ok(s0),
            old(self).root_id() == root_pid,
            root_pid < s0.pages.len(),
            leaf_work::outcome(s0, old(pool).view(), rw, node::root_fence(), h, before, recs),
            keep_root ==> {
                &&& before.contains(root_pid)
                &&& 0 < root_pid < s0.pages.len()
                &&& !pool::is_shared(s0, root_pid)
                &&& rw is Split && rw->left_pid != root_pid ==> !shape::forest_pids(
                    leaf_work::kids_of(rw),
                ).contains(root_pid)
            },
            !keep_root && rw is Split ==> rw->left_pid != root_pid,
            s0.active_roots <= 1 && old(self).options().max_leaf_entries > 0 ==> {
                ||| old(self).hint() == 0
                ||| shape::forest_pids(leaf_work::kids_of(rw)).contains(old(self).hint())
                ||| (rw is Split && keep_root && old(self).hint() == root_pid)
                ||| (rw is Split && !keep_root)
            },
        ensures
            final(pool).wf(),
            final(self).options() == old(self).options(),
            match r {
                Ok(_) => {
                    &&& final(self).stands(final(pool).view())
                    &&& pool::step(s0, final(pool).view(), before, final(self).pids())
                    &&& shape::refine(final(self).recs(), recs)
                    &&& rw matches Rewrite::One { pid, tree } ==> final(self).root_id() == pid
                        && final(self).tree() == tree@ && final(pool).view() == old(pool).view()
                        && final(self).depth() == h
                    &&& rw is Split ==> {
                        &&& final(self).depth() == h + 1
                        &&& final(self).tree() is Node
                        &&& final(self).tree()->buffer.len() == 0
                        &&& shape::all_unbuffered(leaf_work::kids_of(rw)) ==> shape::unbuffered(
                            final(self).tree(),
                        )
                        &&& keep_root ==> final(self).root_id() == root_pid
                        &&& keep_root && rw->left_pid == root_pid
                            ==> final(pool).view().pages.len() > old(pool).view().pages.len()
                    }
                },
                Err(_) => rewrite::failed(s0, final(pool).view(), before),
            },
            match course::rooted(Ok(course::out_of(rw))) {
                Ok(whole) => r is Ok && course::bare(final(self).tree()) == whole,
                Err(e) => r is Err && r->Err_0 == e,
            },
    {
        let ghost kids = leaf_work::kids_of(rw);
        let (pid, tree, levels) = root::root_pid_from_rewrite(
            pool,
            root_pid,
            rw,
            keep_root,
            Ghost(s0),
            Ghost(h),
            Ghost(before),
            Ghost(recs),
        )?;
        proof {
            root_in_tree(tree@);
            if rw is One {
                shape::forest_of_one(tree@);
                assert(kids =~= seq![tree@]);
            }
        }
        if pid != root_pid {
            self.root = pid;
            self.append_hint = pid;
        }
        self.shape = tree;
        self.levels = levels;
        Ok(())
    }

    /// Write a message at the root: append it there if there is room, else split
    /// the root leaf, or rewrite the root, and flush its buffer if it becomes too
    /// large.
    #[verifier::rlimit(60)]
    #[verifier::spinoff_prover]
    fn write_message_structural(&mut self, pool: &mut PagePool, m: BufferedMessage) -> (r: Result<
        (),
        CowBeTreeError,
    >)
        requires
            old(pool).wf(),
            old(self).stands(old(pool).view()),
        ensures
            final(pool).wf(),
            match r {
                Ok(_) => written(
                    *old(self),
                    old(pool).view(),
                    *final(self),
                    final(pool).view(),
                    only(m@),
                ),
                Err(_) => rewrite::failed(old(pool).view(), final(pool).view(), old(self).pids()),
            },
            takes::is_sized(m@) ==> match at_root(*old(self), m@) {
                Ok(whole) => r is Ok && course::bare(final(self).tree()) == whole,
                Err(e) => r is Err && r->Err_0 == e,
            },
    {
        let ghost pre = *self;
        let ghost s0 = pool.view();
        let root_pid: u64 = self.ensure_root_mutable(pool)?;
        let ghost s1 = pool.view();
        let ghost mid = *self;
        let ghost t = self.shape@;
        let ghost h = self.levels@;
        let config = self.config;
        let ghost page = s1.pages[root_pid as int];
        let ghost recs = shape::tree_recs(t).union(only(m@));
        let mut hint: u64 = self.append_hint;
        proof {
            rewrite::failed_if(s0, s1, pre.pids(), mid.pids());
            read::nothing_below_empty(m@.key);
            shape::refine_refl(recs);
            root_in_tree(t);
            course::bare_with_pid(pre.tree(), root_pid);
            course::bare_node(t);
            if takes::is_sized(m@) {
                flush::single_is_put(page, t, h, config, m@);
                if course::is_behind(t, m@) && takes::refusal(shape::node_of(t), m@) is None {
                    course::leaf_takes(
                        page,
                        shape::fence_of(t),
                        t->entries,
                        m@,
                        config.max_leaf_entries,
                    );
                }
            }
        }
        let appended = leaf_work::try_append_leaf_message(
            pool,
            root_pid,
            &m,
            config.max_leaf_entries,
            &mut hint,
            Ghost(t),
            Ghost(h),
        )?;
        if appended {
            let ghost t2 = leaf_work::appended_leaf(t, seq![m@]);
            self.append_hint = hint;
            self.shape = Ghost(t2);
            proof {
                pool::step_trans(
                    s0,
                    s1,
                    pool.view(),
                    pre.pids(),
                    mid.pids(),
                    shape::tree_pids(t2),
                );
            }
            return Ok(());
        }
        let appended = leaf_work::try_append_buffer_message(
            pool,
            root_pid,
            &m,
            &config,
            Ghost(t),
            Ghost(h),
        )?;
        if appended {
            let ghost t2 = leaf_work::appended_node(t, m@);
            self.shape = Ghost(t2);
            proof {
                pool::step_trans(
                    s0,
                    s1,
                    pool.view(),
                    pre.pids(),
                    mid.pids(),
                    shape::tree_pids(t2),
                );
            }
            return Ok(());
        }
        let direct = root::try_split_root_leaf_direct(
            pool,
            &config,
            root_pid,
            &m,
            &mut hint,
            Ghost(t),
            Ghost(h),
        );
        proof {
            if takes::is_sized(m@) && course::is_behind(t, m@) {
                course::cut_is_written(config, t, m@);
            }
        }
        let result = match direct? {
            Some(rw) => {
                self.append_hint = hint;
                self.install_root_rewrite(
                    pool,
                    root_pid,
                    rw,
                    true,
                    Ghost(s1),
                    Ghost(h),
                    Ghost(mid.pids()),
                    Ghost(recs),
                )
            },
            None => {
                let rw = rewrite_root(
                    pool,
                    &config,
                    root_pid,
                    &m,
                    &mut hint,
                    Ghost(t),
                    Ghost(h),
                );
                self.append_hint = hint;
                match rw {
                    Ok(rw) => self.install_root_rewrite(
                        pool,
                        root_pid,
                        rw,
                        true,
                        Ghost(s1),
                        Ghost(h),
                        Ghost(mid.pids()),
                        Ghost(recs),
                    ),
                    Err(e) => Err(e),
                }
            },
        };
        proof {
            if result is Ok {
                pool::step_trans(
                    s0,
                    s1,
                    pool.view(),
                    pre.pids(),
                    mid.pids(),
                    self.pids(),
                );
            } else {
                pool::step_trans(
                    s0,
                    s1,
                    pool.view(),
                    pre.pids(),
                    mid.pids(),
                    Set::<u64>::empty(),
                );
            }
        }
        result
    }
}

/// Apply a message to a root leaf, or put it into the buffer of a root node.
fn rewrite_root(
    pool: &mut PagePool,
    config: &CowBeTreeConfig,
    root_pid: u64,
    m: &BufferedMessage,
    hint: &mut u64,
    Ghost(t): Ghost<TreeView>,
    Ghost(h): Ghost<nat>,
) -> (r: Result<Rewrite, CowBeTreeError>)
    requires
        old(pool).wf(),
        shape::rep(old(pool).view().pages, t),
        shape::wf(t, h),
        root_pid == shape::pid_of(t),
        work::own_root(old(pool).view(), t),
        node::in_fence(shape::fence_of(t), m@.key),
    ensures
        final(pool).wf(),
        match r {
            Ok(rw) => {
                &&& leaf_work::outcome(
                    old(pool).view(),
                    final(pool).view(),
                    rw,
                    shape::fence_of(t),
                    h,
                    shape::tree_pids(t),
                    shape::tree_recs(t).union(only(m@)),
                )
                &&& rewrite::kept(
                    old(pool).view(),
                    config.max_leaf_entries,
                    *old(hint),
                    *final(hint),
                    shape::tree_pids(t),
                    shape::forest_pids(leaf_work::kids_of(rw)),
                )
                &&& rw is Split ==> rw->left_pid == root_pid
            },
            Err(_) => rewrite::failed(old(pool).view(), final(pool).view(), shape::tree_pids(t)),
        },
        takes::is_sized(m@) ==> course::came_out(
            r,
            course::put(*config, course::bare(t), seq![m@], h),
        ),
{
    let ghost s1 = pool.view();
    let mut batch: Vec<BufferedMessage> = Vec::new();
    batch.push(m.duplicate());
    proof {
        assert(message::messages_view(batch@) =~= seq![m@]);
        assert(shape::messages_inside(shape::fence_of(t), seq![m@]));
        course::bare_node(t);
        if t is Node {
            course::buffered_are_sized(s1.pages[root_pid as int], t);
        }
        pool::step_refl(s1, shape::tree_pids(t));
        rewrite::failed_if(s1, s1, shape::tree_pids(t), shape::tree_pids(t));
    }
    match pool.read_node(root_pid)? {
        NodePage::Leaf { fence, entries } => rewrite::rewrite_leaf_batch(
            pool,
            config,
            root_pid,
            &fence,
            entries,
            batch.as_slice(),
            hint,
            Ghost(t),
        ),
        NodePage::Internal { fence, children, separators, buffer } => {
            let mut buffer = buffer;
            let ghost buffer0 = buffer@;
            buffer.push(m.duplicate());
            let ghost kids = t->kids;
            let ghost buf2 = t->buffer.push(m@);
            proof {
                assert(message::messages_view(buffer@) =~= buf2);
                shape::wf_node(t, h);
                flush::node_is_tree(t);
                assert(buf2 =~= t->buffer + seq![m@]);
                course::bare_fits(fence@, t->separators, buf2, kids);
                if takes::is_sized(m@) {
                    assert forall|i: int| 0 <= i < buf2.len() implies takes::is_sized(
                        #[trigger] buf2[i],
                    ) by {
                        if i < t->buffer.len() {
                            assert(takes::is_sized(t->buffer[i]));
                        }
                    }
                }
                shape::message_recs_add(t->buffer, seq![m@]);
                assert(rewrite::node_recs(buf2, kids) =~= shape::tree_recs(t).union(only(m@)));
                assert forall|i: int| 0 <= i < buf2.len() implies node::in_fence(
                    fence@,
                    (#[trigger] buf2[i]).key,
                ) by {
                    if i < t->buffer.len() {
                        assert(node::in_fence(fence@, t->buffer[i].key));
                    }
                }
            }
            if config.should_flush_buffer(buffer.as_slice()) || config.internal_should_split(
                &fence,
                children.as_slice(),
                separators.as_slice(),
                buffer.as_slice(),
            ) {
                flush::flush_internal(
                    pool,
                    config,
                    root_pid,
                    &fence,
                    children,
                    separators,
                    buffer,
                    hint,
                    Ghost(kids),
                    Ghost((h - 1) as nat),
                )
            } else {
                rewrite::write_over(
                    pool,
                    root_pid,
                    &fence,
                    children.as_slice(),
                    separators.as_slice(),
                    buffer.as_slice(),
                    Ghost(kids),
                    Ghost((h - 1) as nat),
                )
            }
        },
    }
}

/// The pool with another sequence number for writes.
pub open spec fn with_lsn(s: PoolView, lsn: Option<Lsn>) -> PoolView {
    PoolView { lsn, ..s }
}

/// On which page a write of the only tree of a pool is made, if on one: for a new key
/// on the page of the last append, or else where [`local::landing`] has it. It fails
/// where a page that is asked for room refuses the message.
pub open spec fn one_page(t: CowBeTree, s: PoolView, m: MessageView, way: LocalWrite) -> Result<
    Option<u64>,
    CowBeTreeError,
> {
    let at_hint = if way is New && t.hint() != 0 {
        local::lands_at_hint(s.pages, t.hint(), m, t.options())
    } else {
        Ok(false)
    };
    if s.active_roots > 1 {
        Ok(None)
    } else {
        match at_hint {
            Err(e) => Err(e),
            Ok(true) => Ok(Some(t.hint())),
            Ok(false) => local::landing(s.pages, t.tree(), m, t.options(), way),
        }
    }
}

/// What a tree becomes when a message is written at its root, page ids aside, or why
/// something has no place on its page.
pub open spec fn at_root(t: CowBeTree, m: MessageView) -> Result<TreeView, CowBeTreeError> {
    course::rooted(course::root_put(t.options(), course::bare(t.tree()), m, t.depth()))
}

/// Why work failed, if it did.
pub open spec fn error_of<T>(r: Result<T, CowBeTreeError>) -> Option<CowBeTreeError> {
    match r {
        Ok(_) => None,
        Err(e) => Some(e),
    }
}

/// What work on a tree ends with, page ids aside: the tree, or why it failed.
pub open spec fn end_of(error: Option<CowBeTreeError>, t: CowBeTree) -> Result<
    TreeView,
    CowBeTreeError,
> {
    match error {
        None => Ok(course::bare(t.tree())),
        Some(e) => Err(e),
    }
}

/// A settled tree that was compacted is packed.
proof fn compact_is_packed(pre: CowBeTree, post: CowBeTree)
    requires
        pre.is_settled(),
        shape::wf(pre.tree(), pre.depth()),
        shape::wf(post.tree(), post.depth()),
        shape::alike(
            post.tree(),
            root::collapsed(compact::compacted(pre.options(), pre.tree())),
        ),
    ensures
        forall|k: nat|
            k <= u16::MAX && compact_laws::uppers_within(pre.tree(), k)
                ==> #[trigger] compact_laws::is_packed(
                pre.options(),
                k,
                pre.tree(),
                pre.depth(),
                post.tree(),
                post.depth(),
            ),
{
    assert forall|k: nat|
        k <= u16::MAX && compact_laws::uppers_within(pre.tree(), k) implies
        #[trigger] compact_laws::is_packed(
        pre.options(),
        k,
        pre.tree(),
        pre.depth(),
        post.tree(),
        post.depth(),
    ) by {
        compact_laws::compacted_tree_is_packed(
            pre.options(),
            k,
            pre.tree(),
            pre.depth(),
            post.tree(),
            post.depth(),
            pre.options().max_internal_children,
        );
    }
}

/// A write succeeds exactly where it is made on one page or has a place at the root,
/// and then `t2` is the tree; or else `error` is why it failed. Where a page refuses
/// the message, nothing was touched.
pub open spec fn write_outcome(
    t: CowBeTree,
    s: PoolView,
    m: MessageView,
    way: LocalWrite,
    t2: CowBeTree,
    s2: PoolView,
    error: Option<CowBeTreeError>,
) -> bool {
    match one_page(t, s, m, way) {
        Err(e) => error == Some(e) && t2 == t && s2 == s,
        Ok(Some(p)) => error is None && t2.tree() == local::taken_at(t.tree(), p, m),
        Ok(None) => takes::is_sized(m) ==> match at_root(t, m) {
            Ok(whole) => error is None && course::bare(t2.tree()) == whole,
            Err(e) => error == Some(e),
        },
    }
}

impl CowBeTree {
    /// Write a message to one page if there is room, else at the root.
    fn write_message(&mut self, pool: &mut PagePool, m: BufferedMessage, way: LocalWrite) -> (r:
        Result<(), CowBeTreeError>)
        requires
            old(pool).wf(),
            old(self).stands(old(pool).view()),
            way is Put ==> !m@.version.deleted,
        ensures
            final(pool).wf(),
            match r {
                Ok(_) => written(
                    *old(self),
                    old(pool).view(),
                    *final(self),
                    final(pool).view(),
                    only(m@),
                ),
                Err(_) => rewrite::failed(old(pool).view(), final(pool).view(), old(self).pids()),
            },
            write_outcome(
                *old(self),
                old(pool).view(),
                m@,
                way,
                *final(self),
                final(pool).view(),
                error_of(r),
            ),
    {
        let ghost s0 = pool.view();
        let ghost t = self.shape@;
        let ghost h = self.levels@;
        let config = self.config;
        let mut hint: u64 = self.append_hint;
        proof {
            read::nothing_below_empty(m@.key);
            pool::step_refl(s0, self.pids());
            rewrite::failed_if(s0, s0, self.pids(), self.pids());
        }
        let at_hint = match &way {
            LocalWrite::New => hint != 0 && pool.active_roots() <= 1,
            _ => false,
        };
        if at_hint {
            let (made, Ghost(t2)) = local::try_append_at_hint(
                pool,
                &config,
                &m,
                &mut hint,
                Ghost(t),
                Ghost(h),
            )?;
            if made {
                self.shape = Ghost(t2);
                return Ok(());
            }
        }
        let (made, Ghost(t2)) = local::try_write_page_local(
            pool,
            &config,
            self.root,
            &m,
            &way,
            &mut hint,
            Ghost(t),
            Ghost(h),
        )?;
        if made {
            self.append_hint = hint;
            self.shape = Ghost(t2);
            return Ok(());
        }
        self.write_message_structural(pool, m)
    }

    /// Write a message.
    pub fn insert_message(&mut self, pool: &mut PagePool, message: CowBeTreeMessage) -> (r: Result<
        (),
        CowBeTreeError,
    >)
        requires
            old(self).wf(old(pool).view()),
        ensures
            final(pool).wf(),
            match r {
                Ok(_) => written(
                    *old(self),
                    old(pool).view(),
                    *final(self),
                    final(pool).view(),
                    only(message::message_of(message)),
                ) && final(self).wf(final(pool).view()),
                Err(_) => rewrite::failed(old(pool).view(), final(pool).view(), old(self).pids()),
            },
            write_outcome(
                *old(self),
                old(pool).view(),
                message::message_of(message),
                LocalWrite::Any,
                *final(self),
                final(pool).view(),
                error_of(r),
            ),
    {
        self.write_message(pool, message.into_buffered(), LocalWrite::Any)
    }

    /// Write a message; the pages that it changes are listed with the sequence
    /// number of its log record.
    pub fn insert_message_with_lsn(
        &mut self,
        pool: &mut PagePool,
        message: CowBeTreeMessage,
        lsn: Lsn,
    ) -> (r: Result<(), CowBeTreeError>)
        requires
            old(self).wf(old(pool).view()),
        ensures
            final(pool).wf(),
            final(pool).view().lsn is None,
            ({
                let s1 = with_lsn(old(pool).view(), Some(lsn));
                let s2 = with_lsn(final(pool).view(), Some(lsn));
                match r {
                    Ok(_) => written(
                        *old(self),
                        s1,
                        *final(self),
                        s2,
                        only(message::message_of(message)),
                    ) && final(self).wf(final(pool).view()),
                    Err(_) => rewrite::failed(s1, s2, old(self).pids()),
                }
            }),
            write_outcome(
                *old(self),
                old(pool).view(),
                message::message_of(message),
                LocalWrite::Any,
                *final(self),
                with_lsn(final(pool).view(), old(pool).view().lsn),
                error_of(r),
            ),
    {
        let ghost s1 = pool.view();
        pool.set_lsn(Some(lsn));
        let r = self.write_message(pool, message.into_buffered(), LocalWrite::Any);
        let ghost s2 = pool.view();
        pool.set_lsn(None);
        assert(with_lsn(pool.view(), Some(lsn)) == s2);
        r
    }

    /// Write a message whose key is most likely new: the page of the last append
    /// is tried first.
    pub fn insert_new_message(&mut self, pool: &mut PagePool, message: CowBeTreeMessage) -> (r:
        Result<(), CowBeTreeError>)
        requires
            old(self).wf(old(pool).view()),
        ensures
            final(pool).wf(),
            match r {
                Ok(_) => written(
                    *old(self),
                    old(pool).view(),
                    *final(self),
                    final(pool).view(),
                    only(message::message_of(message)),
                ) && final(self).wf(final(pool).view()),
                Err(_) => rewrite::failed(old(pool).view(), final(pool).view(), old(self).pids()),
            },
            write_outcome(
                *old(self),
                old(pool).view(),
                message::message_of(message),
                LocalWrite::New,
                *final(self),
                final(pool).view(),
                error_of(r),
            ),
    {
        self.write_message(pool, message.into_buffered(), LocalWrite::New)
    }

    /// Write a message whose key is most likely new, with the sequence number of
    /// its log record.
    pub fn insert_new_message_with_lsn(
        &mut self,
        pool: &mut PagePool,
        message: CowBeTreeMessage,
        lsn: Lsn,
    ) -> (r: Result<(), CowBeTreeError>)
        requires
            old(self).wf(old(pool).view()),
        ensures
            final(pool).wf(),
            final(pool).view().lsn is None,
            ({
                let s1 = with_lsn(old(pool).view(), Some(lsn));
                let s2 = with_lsn(final(pool).view(), Some(lsn));
                match r {
                    Ok(_) => written(
                        *old(self),
                        s1,
                        *final(self),
                        s2,
                        only(message::message_of(message)),
                    ) && final(self).wf(final(pool).view()),
                    Err(_) => rewrite::failed(s1, s2, old(self).pids()),
                }
            }),
            write_outcome(
                *old(self),
                old(pool).view(),
                message::message_of(message),
                LocalWrite::New,
                *final(self),
                with_lsn(final(pool).view(), old(pool).view().lsn),
                error_of(r),
            ),
    {
        pool.set_lsn(Some(lsn));
        let r = self.write_message(pool, message.into_buffered(), LocalWrite::New);
        let ghost s2 = pool.view();
        pool.set_lsn(None);
        assert(with_lsn(pool.view(), Some(lsn)) == s2);
        r
    }

    /// Write a version of a key.
    pub fn put(&mut self, pool: &mut PagePool, key: &[u8], commit_ts: u64, value: &[u8]) -> (r:
        Result<(), CowBeTreeError>)
        requires
            old(self).wf(old(pool).view()),
        ensures
            final(pool).wf(),
            match r {
                Ok(_) => written(
                    *old(self),
                    old(pool).view(),
                    *final(self),
                    final(pool).view(),
                    only(message::put_view(key@, commit_ts, value@)),
                ) && final(self).wf(final(pool).view()),
                Err(_) => rewrite::failed(old(pool).view(), final(pool).view(), old(self).pids()),
            },
            write_outcome(
                *old(self),
                old(pool).view(),
                message::put_view(key@, commit_ts, value@),
                LocalWrite::Put,
                *final(self),
                final(pool).view(),
                error_of(r),
            ),
    {
        let message = BufferedMessage::put(key, commit_ts, value);
        self.write_message(pool, message, LocalWrite::Put)
    }

    /// Delete a key for all readers; whether it had a value.
    pub fn remove(&mut self, pool: &mut PagePool, key: &[u8]) -> (r: Result<bool, CowBeTreeError>)
        requires
            old(self).wf(old(pool).view()),
        ensures
            final(pool).wf(),
            match r {
                Ok(existed) => {
                    &&& written(
                        *old(self),
                        old(pool).view(),
                        *final(self),
                        final(pool).view(),
                        only(message::delete_view(key@, u64::MAX)),
                    )
                    &&& final(self).wf(final(pool).view())
                    &&& existed == (seen(
                        read::tree_lookup(old(self).tree(), key@, u64::MAX),
                    ) is Some)
                },
                Err(_) => rewrite::failed(old(pool).view(), final(pool).view(), old(self).pids()),
            },
            write_outcome(
                *old(self),
                old(pool).view(),
                message::delete_view(key@, u64::MAX),
                LocalWrite::Any,
                *final(self),
                final(pool).view(),
                error_of(r),
            ),
    {
        self.remove_at(pool, key, u64::MAX)
    }

    /// Delete a key from `commit_ts` on; whether a reader then saw a value.
    pub fn remove_at(&mut self, pool: &mut PagePool, key: &[u8], commit_ts: u64) -> (r: Result<
        bool,
        CowBeTreeError,
    >)
        requires
            old(self).wf(old(pool).view()),
        ensures
            final(pool).wf(),
            match r {
                Ok(existed) => {
                    &&& written(
                        *old(self),
                        old(pool).view(),
                        *final(self),
                        final(pool).view(),
                        only(message::delete_view(key@, commit_ts)),
                    )
                    &&& final(self).wf(final(pool).view())
                    &&& existed == (seen(
                        read::tree_lookup(old(self).tree(), key@, commit_ts),
                    ) is Some)
                },
                Err(_) => rewrite::failed(old(pool).view(), final(pool).view(), old(self).pids()),
            },
            write_outcome(
                *old(self),
                old(pool).view(),
                message::delete_view(key@, commit_ts),
                LocalWrite::Any,
                *final(self),
                final(pool).view(),
                error_of(r),
            ),
    {
        let existed = self.lookup_visible(pool, key, commit_ts).is_some();
        let message = BufferedMessage::delete(key, commit_ts);
        self.write_message(pool, message, LocalWrite::Any)?;
        Ok(existed)
    }

    /// Flush the tree once from the root down; whether the root was split.
    #[verifier::rlimit(60)]
    #[verifier::spinoff_prover]
    fn flush_root_round(&mut self, pool: &mut PagePool) -> (r: Result<bool, CowBeTreeError>)
        requires
            old(pool).wf(),
            is_whole_tree(
                old(pool).view(),
                old(self).root_id(),
                old(self).tree(),
                old(self).depth(),
            ),
        ensures
            final(pool).wf(),
            match r {
                Ok(split) => {
                    &&& is_whole_tree(
                        final(pool).view(),
                        final(self).root_id(),
                        final(self).tree(),
                        final(self).depth(),
                    )
                    &&& final(self).options() == old(self).options()
                    &&& pool::step(
                        old(pool).view(),
                        final(pool).view(),
                        old(self).pids(),
                        final(self).pids(),
                    )
                    &&& shape::refine(final(self).recs(), old(self).recs())
                    &&& shape::unbuffered(old(self).tree()) ==> shape::unbuffered(
                        final(self).tree(),
                    )
                    &&& final(self).depth() == old(self).depth() + if split {
                        1nat
                    } else {
                        0nat
                    }
                    &&& split ==> final(pool).view().pages.len() > old(pool).view().pages.len()
                    &&& !split ==> {
                        &&& compact::root_flushed(final(self).tree())
                        &&& work::own_root(final(pool).view(), final(self).tree())
                    }
                },
                Err(_) => rewrite::failed(old(pool).view(), final(pool).view(), old(self).pids()),
            },
            old(self).is_settled() ==> {
                &&& r is Ok
                &&& final(self).is_settled()
                &&& shape::alike(old(self).tree(), final(self).tree())
            },
            match drain::round(
                old(self).options(),
                course::bare(old(self).tree()),
                old(self).depth(),
            ) {
                Ok((whole, done)) => r is Ok && r->Ok_0 == !done && course::bare(
                    final(self).tree(),
                ) == whole,
                Err(e) => r is Err && r->Err_0 == e,
            },
    {
        let ghost s0 = pool.view();
        let ghost pre = *self;
        // The page for the next append does not matter while the root is
        // rewritten: it is set again at the end.
        self.append_hint = 0;
        let ghost t0 = self.tree();
        let root_pid: u64 = self.ensure_root_mutable(pool)?;
        let ghost s2 = pool.view();
        let ghost t = self.shape@;
        let ghost h = self.levels@;
        let ghost pids2 = self.pids();
        let ghost recs2 = self.recs();
        let config = self.config;
        let mut hint: u64 = 0;
        proof {
            root_in_tree(t);
            course::bare_with_pid(t0, root_pid);
        }
        let rw = match compact::flush_all_page(
            pool,
            &config,
            root_pid,
            &mut hint,
            Ghost(t),
            Ghost(h),
        ) {
            Ok(rw) => rw,
            Err(e) => {
                proof {
                    pool::step_trans(
                        s0,
                        s2,
                        pool.view(),
                        pre.pids(),
                        pids2,
                        Set::<u64>::empty(),
                    );
                }
                return Err(e);
            },
        };
        let split = match &rw {
            Rewrite::One { .. } => false,
            Rewrite::Split { .. } => true,
        };
        self.append_hint = 0;
        let ghost rw0 = rw;
        proof {
            course::out_trees(rw);
        }
        let r = self.install_root_rewrite(
            pool,
            root_pid,
            rw,
            true,
            Ghost(s2),
            Ghost(h),
            Ghost(pids2),
            Ghost(recs2),
        );
        if let Err(e) = r {
            proof {
                pool::step_trans(
                    s0,
                    s2,
                    pool.view(),
                    pre.pids(),
                    pids2,
                    Set::<u64>::empty(),
                );
            }
            return Err(e);
        }
        proof {
            pool::step_trans(s0, s2, pool.view(), pre.pids(), pids2, self.pids());
            if pre.is_settled() {
                shape::alike_trans(pre.tree(), t, self.tree());
            }
            if rw0 is One {
                let k = leaf_work::kids_of(rw0);
                assert(k[0] == self.tree());
                root_in_tree(self.tree());
                root_stays_own(s2, pool.view(), root_pid, pids2, self.pids());
            }
        }
        Ok(split)
    }

    /// Flush the tree from the root down until the root is not split any more.
    #[verifier::rlimit(60)]
    #[verifier::spinoff_prover]
    fn flush_all_root(&mut self, pool: &mut PagePool) -> (r: Result<(), CowBeTreeError>)
        requires
            old(pool).wf(),
            old(self).stands(old(pool).view()),
        ensures
            final(pool).wf(),
            match r {
                Ok(_) => {
                    &&& is_whole_tree(
                        final(pool).view(),
                        final(self).root_id(),
                        final(self).tree(),
                        final(self).depth(),
                    )
                    &&& final(self).options() == old(self).options()
                    &&& pool::step(
                        old(pool).view(),
                        final(pool).view(),
                        old(self).pids(),
                        final(self).pids(),
                    )
                    &&& shape::refine(final(self).recs(), old(self).recs())
                    &&& compact::root_flushed(final(self).tree())
                    &&& work::own_root(final(pool).view(), final(self).tree())
                    &&& shape::unbuffered(old(self).tree()) ==> shape::unbuffered(
                        final(self).tree(),
                    )
                },
                Err(_) => rewrite::failed(old(pool).view(), final(pool).view(), old(self).pids()),
            },
            old(self).is_settled() ==> {
                &&& r is Ok
                &&& final(self).is_settled()
                &&& shape::alike(old(self).tree(), final(self).tree())
            },
            exists|n: nat| #[trigger]
                drain::ends_after(
                    old(self).options(),
                    course::bare(old(self).tree()),
                    old(self).depth(),
                    n,
                    end_of(error_of(r), *final(self)),
                ) && (r is Ok ==> final(self).depth() == old(self).depth() + n),
    {
        let ghost pre = *self;
        let ghost s0 = pool.view();
        let ghost t00 = course::bare(pre.tree());
        let ghost h00 = pre.depth();
        let ghost mut n: nat = 0;
        proof {
            pool::step_refl(s0, pre.pids());
            shape::refine_refl(pre.recs());
            shape::alike_refl(pre.tree());
        }
        loop
            invariant
                pre == *old(self),
                s0 == old(pool).view(),
                pool.wf(),
                is_whole_tree(pool.view(), self.root_id(), self.tree(), self.depth()),
                self.options() == pre.options(),
                pool::step(s0, pool.view(), pre.pids(), self.pids()),
                shape::refine(self.recs(), pre.recs()),
                shape::unbuffered(pre.tree()) ==> shape::unbuffered(self.tree()),
                pre.is_settled() ==> self.is_settled() && shape::alike(pre.tree(), self.tree()),
                t00 == course::bare(pre.tree()),
                h00 == pre.depth(),
                self.depth() == h00 + n,
                drain::after_rounds(pre.options(), t00, h00, n) == Some(
                    course::bare(self.tree()),
                ),
            decreases u64::MAX - pool.view().pages.len(),
        {
            let ghost s1 = pool.view();
            let ghost mid = *self;
            let split = match self.flush_root_round(pool) {
                Ok(split) => split,
                Err(e) => {
                    proof {
                        pool::step_trans(
                            s0,
                            s1,
                            pool.view(),
                            pre.pids(),
                            mid.pids(),
                            Set::<u64>::empty(),
                        );
                        assert(drain::ends_after(pre.options(), t00, h00, n, Err(e)));
                    }
                    return Err(e);
                },
            };
            proof {
                pool::step_trans(s0, s1, pool.view(), pre.pids(), mid.pids(), self.pids());
                shape::refine_trans(self.recs(), mid.recs(), pre.recs());
                if pre.is_settled() {
                    shape::alike_trans(pre.tree(), mid.tree(), self.tree());
                }
            }
            if !split {
                assert(drain::ends_after(
                    pre.options(),
                    t00,
                    h00,
                    n,
                    Ok(course::bare(self.tree())),
                ));
                return Ok(());
            }
            proof {
                n = n + 1;
            }
        }
    }

    /// Flush buffers from the root down; the root is left with an empty buffer.
    pub fn flush_all(&mut self, pool: &mut PagePool) -> (r: Result<(), CowBeTreeError>)
        requires
            old(self).wf(old(pool).view()),
        ensures
            final(pool).wf(),
            match r {
                Ok(_) => {
                    &&& written(
                        *old(self),
                        old(pool).view(),
                        *final(self),
                        final(pool).view(),
                        nothing(),
                    )
                    &&& final(self).wf(final(pool).view())
                    &&& compact::root_flushed(final(self).tree())
                    &&& shape::unbuffered(old(self).tree()) ==> shape::unbuffered(
                        final(self).tree(),
                    )
                },
                Err(_) => rewrite::failed(old(pool).view(), final(pool).view(), old(self).pids()),
            },
            old(self).is_settled() ==> r is Ok && shape::alike(old(self).tree(), final(self).tree()),
            drain::ends(
                old(self).options(),
                course::bare(old(self).tree()),
                old(self).depth(),
                end_of(error_of(r), *final(self)),
            ),
    {
        let ghost pre = *self;
        self.flush_all_root(pool)?;
        self.append_hint = self.root;
        proof {
            root_in_tree(self.tree());
            assert(pre.recs().union(nothing()) =~= pre.recs());
        }
        Ok(())
    }

    /// Flush, merge what is small, and drop a root with one child.
    #[verifier::rlimit(60)]
    #[verifier::spinoff_prover]
    pub fn compact(&mut self, pool: &mut PagePool) -> (r: Result<(), CowBeTreeError>)
        requires
            old(self).wf(old(pool).view()),
        ensures
            final(pool).wf(),
            match r {
                Ok(_) => {
                    &&& written(
                        *old(self),
                        old(pool).view(),
                        *final(self),
                        final(pool).view(),
                        nothing(),
                    )
                    &&& final(self).wf(final(pool).view())
                },
                Err(_) => rewrite::failed(old(pool).view(), final(pool).view(), old(self).pids()),
            },
            old(self).is_settled() ==> r is Ok && shape::alike(
                final(self).tree(),
                root::collapsed(compact::compacted(old(self).options(), old(self).tree())),
            ),
            old(self).is_settled() ==> forall|k: nat|
                k <= u16::MAX && compact_laws::uppers_within(old(self).tree(), k)
                    ==> #[trigger] compact_laws::is_packed(
                    old(self).options(),
                    k,
                    old(self).tree(),
                    old(self).depth(),
                    final(self).tree(),
                    final(self).depth(),
                ),
            drain::compact_ends(
                old(self).options(),
                course::bare(old(self).tree()),
                old(self).depth(),
                end_of(error_of(r), *final(self)),
            ),
    {
        let ghost pre = *self;
        let ghost s0 = pool.view();
        let ghost t00 = course::bare(pre.tree());
        let ghost h00 = pre.depth();
        let flushed = self.flush_all_root(pool);
        let ghost end = end_of(error_of(flushed), *self);
        let ghost n = choose|n: nat| #[trigger]
            drain::ends_after(pre.options(), t00, h00, n, end) && (flushed is Ok ==> self.depth()
                == h00 + n);
        if flushed.is_err() {
            assert(drain::compact_ends_after(pre.options(), t00, h00, n, Err(flushed->Err_0)));
            return flushed;
        }
        let ghost s1 = pool.view();
        let ghost t = self.shape@;
        let ghost h = self.levels@;
        let ghost pids1 = self.pids();
        let ghost recs1 = self.recs();
        let config = self.config;
        let root_pid: u64 = self.root;
        let mut hint: u64 = 0;
        proof {
            if pre.is_settled() {
                shape::alike_sym(pre.tree(), t);
            }
            root_in_tree(t);
        }
        let rw = match compact::compact_page(
            pool,
            &config,
            root_pid,
            &mut hint,
            Ghost(t),
            Ghost(h),
        ) {
            Ok(rw) => rw,
            Err(e) => {
                proof {
                    pool::step_trans(
                        s0,
                        s1,
                        pool.view(),
                        pre.pids(),
                        pids1,
                        Set::<u64>::empty(),
                    );
                    assert(drain::compact_ends_after(config, t00, h00, n, Err(e)));
                }
                return Err(e);
            },
        };
        self.append_hint = 0;
        let r = self.install_root_rewrite(
            pool,
            root_pid,
            rw,
            true,
            Ghost(s1),
            Ghost(h),
            Ghost(pids1),
            Ghost(recs1),
        );
        let ghost s2 = pool.view();
        if r.is_err() {
            proof {
                pool::step_trans(s0, s1, s2, pre.pids(), pids1, Set::<u64>::empty());
                assert(drain::compact_ends_after(config, t00, h00, n, Err(r->Err_0)));
            }
            return r;
        }
        let ghost t2 = self.shape@;
        proof {
            pool::step_trans(s0, s1, s2, pre.pids(), pids1, self.pids());
            shape::refine_trans(self.recs(), recs1, pre.recs());
            root_in_tree(t2);
            drain::bare_collapsed(t2);
            assert(drain::compact_ends_after(
                config,
                t00,
                h00,
                n,
                Ok(course::bare(root::collapsed(t2))),
            ));
            root_stays_own(s1, s2, root_pid, pids1, self.pids());
            if pre.is_settled() {
                compact::alike_compacted(config, t, pre.tree());
                shape::alike_trans(
                    t2,
                    compact::compacted(config, t),
                    compact::compacted(config, pre.tree()),
                );
                root::alike_collapsed(t2, compact::compacted(config, pre.tree()));
            }
        }
        self.collapse(pool)?;
        proof {
            pool::step_trans(
                s0,
                s2,
                pool.view(),
                pre.pids(),
                shape::tree_pids(t2),
                self.pids(),
            );
            root_in_tree(self.tree());
            assert(pre.recs().union(nothing()) =~= pre.recs());
            if pre.is_settled() {
                compact_is_packed(pre, *self);
            }
        }
        self.append_hint = self.root;
        Ok(())
    }

    /// Drop a root that has one child and nothing in its buffer.
    fn collapse(&mut self, pool: &mut PagePool) -> (r: Result<(), CowBeTreeError>)
        requires
            old(pool).wf(),
            is_whole_tree(
                old(pool).view(),
                old(self).root_id(),
                old(self).tree(),
                old(self).depth(),
            ),
            work::own_root(old(pool).view(), old(self).tree()),
        ensures
            final(pool).wf(),
            r is Ok,
            is_whole_tree(
                final(pool).view(),
                final(self).root_id(),
                final(self).tree(),
                final(self).depth(),
            ),
            final(self).tree() == root::collapsed(old(self).tree()),
            final(self).options() == old(self).options(),
            final(self).recs() == old(self).recs(),
            pool::step(
                old(pool).view(),
                final(pool).view(),
                old(self).pids(),
                final(self).pids(),
            ),
    {
        let ghost t = self.shape@;
        let levels = root::collapse_root(pool, self.root, Ghost(t), Ghost(self.levels@))?;
        self.shape = Ghost(root::collapsed(t));
        self.levels = levels;
        Ok(())
    }
}

// ---------------------------------------------------------------------------
// Reclaiming versions.

/// Where the next pass over leaves goes on; at the first key if there is none.
#[derive(Clone, Debug)]
pub struct CowBeTreeGcCursor {
    next_key: Option<Vec<u8>>,
}

impl Default for CowBeTreeGcCursor {
    fn default() -> (r: Self)
        ensures
            r@ is None,
    {
        CowBeTreeGcCursor { next_key: None }
    }
}

impl View for CowBeTreeGcCursor {
    type V = Option<Seq<u8>>;

    closed spec fn view(&self) -> Option<Seq<u8>> {
        gc_tree::opt_key(self.next_key)
    }
}

impl CowBeTreeGcCursor {
    pub fn next_key(&self) -> (r: Option<&[u8]>)
        ensures
            opt_slice(r) == self@,
    {
        match &self.next_key {
            Some(key) => Some(key.as_slice()),
            None => None,
        }
    }

    pub fn reset(&mut self)
        ensures
            final(self)@ is None,
    {
        self.next_key = None;
    }
}

/// What reclaiming versions comes to: only the pages of the tree and new pages
/// were touched, and of its records all that a reader at or above the watermark
/// needs are left.
pub open spec fn reclaimed(
    pre: CowBeTree,
    s1: PoolView,
    post: CowBeTree,
    s2: PoolView,
    watermark: u64,
) -> bool {
    &&& post.stands(s2)
    &&& post.options() == pre.options()
    &&& pool::step(s1, s2, pre.pids(), post.pids())
    &&& gc::keeps_needed(post.recs(), pre.recs(), watermark)
}

/// What becomes of a settled tree when its versions are reclaimed: a root that is
/// left with one child gives way to it.
pub open spec fn reclaimed_tree(
    config: CowBeTreeConfig,
    t: TreeView,
    watermark: u64,
) -> TreeView {
    let p = gc_tree::pruned_tree(config, t, watermark);
    if gc_tree::tree_result(t, watermark).versions_pruned > 0 {
        root::collapsed(p)
    } else {
        p
    }
}

impl CowBeTree {
    /// Drop the versions that no reader at or above the watermark can see.
    #[verifier::rlimit(60)]
    #[verifier::spinoff_prover]
    pub fn prune_versions(&mut self, pool: &mut PagePool, watermark: u64) -> (r: Result<
        CowBeTreeGcResult,
        CowBeTreeError,
    >)
        requires
            old(self).wf(old(pool).view()),
        ensures
            final(pool).wf(),
            match r {
                Ok(result) => {
                    &&& reclaimed(
                        *old(self),
                        old(pool).view(),
                        *final(self),
                        final(pool).view(),
                        watermark,
                    )
                    &&& final(self).wf(final(pool).view())
                    &&& result.versions_pruned == 0 ==> shape::refine(
                        final(self).recs(),
                        old(self).recs(),
                    )
                    &&& shape::unbuffered(old(self).tree()) ==> final(self).recs().subset_of(
                        gc::needed(old(self).recs(), watermark),
                    )
                    &&& old(self).is_settled() ==> result == gc_tree::tree_result(
                        old(self).tree(),
                        watermark,
                    )
                },
                Err(_) => rewrite::failed(old(pool).view(), final(pool).view(), old(self).pids()),
            },
            old(self).is_settled() ==> r is Ok && shape::alike(
                final(self).tree(),
                reclaimed_tree(old(self).options(), old(self).tree(), watermark),
            ),
            reclaim::ends(
                old(self).options(),
                course::bare(old(self).tree()),
                old(self).depth(),
                watermark,
                match r {
                    Ok(result) => Ok((course::bare(final(self).tree()), result)),
                    Err(e) => Err(e),
                },
            ),
    {
        let ghost pre = *self;
        let ghost s0 = pool.view();
        let ghost t00 = course::bare(pre.tree());
        let ghost h00 = pre.depth();
        let flushed = self.flush_all_root(pool);
        let ghost end = end_of(error_of(flushed), *self);
        let ghost n = choose|n: nat| #[trigger]
            drain::ends_after(pre.options(), t00, h00, n, end) && (flushed is Ok ==> self.depth()
                == h00 + n);
        if let Err(e) = flushed {
            assert(reclaim::ends_after(pre.options(), t00, h00, watermark, n, Err(e)));
            return Err(e);
        }
        let ghost s1 = pool.view();
        let ghost t = self.shape@;
        let ghost h = self.levels@;
        let ghost pids1 = self.pids();
        let ghost recs1 = self.recs();
        let config = self.config;
        let root_pid: u64 = self.root;
        let mut hint: u64 = 0;
        let mut result = CowBeTreeGcResult::default();
        proof {
            root_in_tree(t);
            gc::keeps_needed_same(pre.recs(), watermark);
            gc::refine_keeps_needed(recs1, pre.recs(), pre.recs(), watermark);
            gc::needed_of_refined(recs1, pre.recs(), watermark);
            if pre.is_settled() {
                gc_tree::alike_result(pre.tree(), t, watermark);
                shape::alike_sym(pre.tree(), t);
                gc_tree::alike_pruned(config, t, pre.tree(), watermark);
                shape::settled_unbuffered(t, config.max_internal_children);
            }
        }
        let (rw, changed) = match gc_tree::prune_versions_page(
            pool,
            &config,
            root_pid,
            watermark,
            &mut result,
            &mut hint,
            Ghost(t),
            Ghost(h),
        ) {
            Ok(done) => done,
            Err(e) => {
                proof {
                    pool::step_trans(
                        s0,
                        s1,
                        pool.view(),
                        pre.pids(),
                        pids1,
                        Set::<u64>::empty(),
                    );
                    assert(reclaim::ends_after(config, t00, h00, watermark, n, Err(e)));
                }
                return Err(e);
            },
        };
        let ghost recs2 = shape::forest_recs(leaf_work::kids_of(rw));
        proof {
            gc::keeps_needed_trans(recs2, recs1, pre.recs(), watermark);
            if result.versions_pruned == 0 {
                shape::refine_trans(recs2, recs1, pre.recs());
            }
        }
        if changed {
            self.append_hint = 0;
            proof {
                shape::refine_refl(recs2);
            }
            let r = self.install_root_rewrite(
                pool,
                root_pid,
                rw,
                true,
                Ghost(s1),
                Ghost(h),
                Ghost(pids1),
                Ghost(recs2),
            );
            if let Err(e) = r {
                proof {
                    pool::step_trans(
                        s0,
                        s1,
                        pool.view(),
                        pre.pids(),
                        pids1,
                        Set::<u64>::empty(),
                    );
                    assert(reclaim::ends_after(config, t00, h00, watermark, n, Err(e)));
                }
                return Err(e);
            }
            proof {
                pool::step_trans(s0, s1, pool.view(), pre.pids(), pids1, self.pids());
                root_in_tree(self.tree());
                root_stays_own(s1, pool.view(), root_pid, pids1, self.pids());
            }
        } else {
            proof {
                shape::forest_of_one(t);
                course::out_trees(rw);
            }
        }
        let ghost s2 = pool.view();
        let ghost pids2 = self.pids();
        proof {
            drain::bare_collapsed(self.tree());
            assert(reclaim::ends_after(
                config,
                t00,
                h00,
                watermark,
                n,
                Ok(
                    (
                        course::bare(
                            if result.versions_pruned > 0 {
                                root::collapsed(self.tree())
                            } else {
                                self.tree()
                            },
                        ),
                        result,
                    ),
                ),
            ));
        }
        proof {
            if pre.is_settled() {
                shape::alike_trans(
                    self.tree(),
                    gc_tree::pruned_tree(config, t, watermark),
                    gc_tree::pruned_tree(config, pre.tree(), watermark),
                );
                root::alike_collapsed(
                    self.tree(),
                    gc_tree::pruned_tree(config, pre.tree(), watermark),
                );
            }
        }
        proof {
            gc::refine_keeps_needed(self.recs(), recs2, pre.recs(), watermark);
            if result.versions_pruned == 0 {
                shape::refine_trans(self.recs(), recs2, pre.recs());
            }
        }
        if result.versions_pruned > 0 {
            self.collapse(pool)?;
            proof {
                pool::step_trans(s0, s2, pool.view(), pre.pids(), pids2, self.pids());
            }
        }
        proof {
            root_in_tree(self.tree());
        }
        self.append_hint = self.root;
        Ok(result)
    }

    /// Drop such versions in at most `max_leaf_pages` leaves, from the cursor on,
    /// and move the cursor; behind the last leaf it starts again.
    #[verifier::rlimit(60)]
    #[verifier::spinoff_prover]
    pub fn prune_versions_incremental(
        &mut self,
        pool: &mut PagePool,
        watermark: u64,
        cursor: &mut CowBeTreeGcCursor,
        max_leaf_pages: usize,
    ) -> (r: Result<CowBeTreeGcResult, CowBeTreeError>)
        requires
            old(self).wf(old(pool).view()),
        ensures
            final(pool).wf(),
            match r {
                Ok(result) => {
                    &&& reclaimed(
                        *old(self),
                        old(pool).view(),
                        *final(self),
                        final(pool).view(),
                        watermark,
                    )
                    &&& final(self).wf(final(pool).view())
                    &&& result.versions_pruned == 0 ==> shape::refine(
                        final(self).recs(),
                        old(self).recs(),
                    )
                    &&& result.leaf_pages_visited <= max_leaf_pages
                    &&& result.budget_exhausted ==> result.leaf_pages_visited == max_leaf_pages
                    &&& !result.cursor_wrapped && result.leaf_pages_visited == max_leaf_pages
                        ==> result.budget_exhausted
                    &&& result.cursor_wrapped ==> final(cursor)@ is None
                        && !result.budget_exhausted
                    &&& shape::unbuffered(old(self).tree()) ==> {
                        &&& result.cursor_wrapped || result.budget_exhausted
                        &&& forall|m: MessageView| #[trigger]
                            final(self).recs().contains(m) && gc_tree::at_or_behind(
                                old(cursor)@,
                                m.key,
                            ) && gc_tree::passed(final(cursor)@, result.cursor_wrapped, m.key)
                                ==> gc::needed(old(self).recs(), watermark).contains(m)
                    }
                },
                Err(_) => {
                    &&& rewrite::failed(old(pool).view(), final(pool).view(), old(self).pids())
                    &&& *final(cursor) == *old(cursor)
                },
            },
            old(self).is_settled() ==> r is Ok,
            max_leaf_pages == 0 ==> {
                &&& r == Ok::<CowBeTreeGcResult, CowBeTreeError>(
                    (CowBeTreeGcResult { budget_exhausted: true, ..gc::no_result() }),
                )
                &&& *final(self) == *old(self)
                &&& final(pool).view() == old(pool).view()
                &&& *final(cursor) == *old(cursor)
            },
            match reclaim::passed_over(
                old(self).options(),
                course::bare(old(self).tree()),
                old(self).depth(),
                watermark,
                old(cursor)@,
                max_leaf_pages,
            ) {
                Ok((whole, result, next)) => {
                    &&& r == Ok::<CowBeTreeGcResult, CowBeTreeError>(result)
                    &&& course::bare(final(self).tree()) == whole
                    &&& final(cursor)@ == next
                },
                Err(e) => r is Err && r->Err_0 == e,
            },
    {
        let ghost pre = *self;
        let ghost s0 = pool.view();
        let ghost t = self.shape@;
        let ghost h = self.levels@;
        let ghost pids0 = self.pids();
        let ghost low = cursor@;
        proof {
            root_in_tree(t);
            gc::keeps_needed_same(pre.recs(), watermark);
            pool::step_refl(s0, pids0);
            shape::refine_refl(pre.recs());
            nothing_before(pre.recs(), low);
        }
        if max_leaf_pages == 0 {
            let mut result = CowBeTreeGcResult::default();
            result.budget_exhausted = true;
            return Ok(result);
        }
        let config = self.config;
        let root_pid: u64 = self.root;
        let mut hint: u64 = 0;
        let lower = gc_tree::copy_key(&cursor.next_key);
        let next_key = gc_tree::copy_key(&cursor.next_key);
        let mut state = IncrementalGcState {
            watermark,
            remaining_leaf_pages: max_leaf_pages,
            result: CowBeTreeGcResult::default(),
            next_key,
            reached_end: false,
        };
        proof {
            if let Some(l) = low {
                read::nothing_below_empty(l);
            }
        }
        let (rw, changed) = gc_tree::prune_versions_incremental_page(
            pool,
            &config,
            root_pid,
            &lower,
            &mut state,
            &mut hint,
            Ghost(t),
            Ghost(h),
        )?;
        let ghost recs2 = shape::forest_recs(leaf_work::kids_of(rw));
        proof {
            course::out_trees(rw);
        }
        if changed {
            self.append_hint = 0;
            let keep_root = match &rw {
                Rewrite::One { .. } => false,
                Rewrite::Split { left_pid, .. } => *left_pid == root_pid,
            };
            proof {
                shape::refine_refl(recs2);
            }
            self.install_root_rewrite(
                pool,
                root_pid,
                rw,
                keep_root,
                Ghost(s0),
                Ghost(h),
                Ghost(pids0),
                Ghost(recs2),
            )?;
        } else {
            proof {
                shape::forest_of_one(t);
            }
        }
        proof {
            gc::refine_keeps_needed(self.recs(), recs2, pre.recs(), watermark);
            if state.result.versions_pruned == 0 {
                shape::refine_trans(self.recs(), recs2, pre.recs());
            }
            root_in_tree(self.tree());
        }
        if state.reached_end {
            state.result.cursor_wrapped = true;
            cursor.reset();
        } else {
            state.result.budget_exhausted = state.remaining_leaf_pages == 0;
            cursor.next_key = state.next_key;
        }
        self.append_hint = self.root;
        Ok(state.result)
    }
}

/// Nothing lies between the cursor and itself.
proof fn nothing_before(recs: Set<MessageView>, low: Option<Seq<u8>>)
    ensures
        forall|m: MessageView| #[trigger]
            recs.contains(m) && gc_tree::at_or_behind(low, m.key) ==> !gc_tree::passed(
                low,
                false,
                m.key,
            ),
{
}

} // verus!
