//! The course of a flush: what becomes of a tree when messages are put into it,
//! page ids aside, and when there is no place for it on its pages.
use vstd::prelude::*;

use crate::betree::append;
use crate::betree::batch;
use crate::betree::config::CowBeTreeConfig;
use crate::betree::layout;
use crate::betree::layout_laws;
use crate::betree::leaf_append;
use crate::betree::leaf_work;
use crate::betree::leaf_work::Rewrite;
use crate::betree::message;
use crate::betree::message::MessageView;
use crate::betree::node;
use crate::betree::node::{CowBeTreeError, EntryView, FenceView, NodeView};
use crate::betree::rewrite;
use crate::betree::root;
use crate::betree::shape;
use crate::betree::shape::TreeView;
use crate::betree::takes;
use crate::betree::work;
use crate::betree::writer;
use crate::bytes;
use crate::page_id::PAGE_SIZE;

verus! {

// ---------------------------------------------------------------------------
// Trees without page ids.

/// The tree with 0 for every page id.
pub open spec fn bare(t: TreeView) -> TreeView
    decreases t,
{
    match t {
        TreeView::Leaf { fence, entries, .. } => TreeView::Leaf { pid: 0, fence, entries },
        TreeView::Node { fence, separators, buffer, kids, .. } => TreeView::Node {
            pid: 0,
            fence,
            separators,
            buffer,
            kids: Seq::new(
                kids.len(),
                |i: int|
                    if 0 <= i < kids.len() {
                        bare(kids[i])
                    } else {
                        t
                    },
            ),
        },
    }
}

pub open spec fn bare_all(kids: Seq<TreeView>) -> Seq<TreeView> {
    Seq::new(kids.len(), |i: int| bare(kids[i]))
}

pub proof fn bare_node(t: TreeView)
    ensures
        t is Node ==> bare(t) == (TreeView::Node {
            pid: 0,
            fence: t->Node_fence,
            separators: t->separators,
            buffer: t->buffer,
            kids: bare_all(t->kids),
        }),
        t is Leaf ==> bare(t) == (TreeView::Leaf {
            pid: 0,
            fence: t->Leaf_fence,
            entries: t->entries,
        }),
{
    if t is Node {
        assert(bare(t)->kids =~= bare_all(t->kids));
    }
}

/// Trees side by side, and the separators between them.
pub struct Out {
    pub separators: Seq<Seq<u8>>,
    pub kids: Seq<TreeView>,
}

/// What became of a tree.
pub open spec fn out_of(rw: Rewrite) -> Out {
    Out { separators: leaf_work::separators_of(rw), kids: bare_all(leaf_work::kids_of(rw)) }
}

pub open spec fn one(t: TreeView) -> Out {
    Out { separators: Seq::empty(), kids: seq![t] }
}

pub open spec fn two(separator: Seq<u8>, left: TreeView, right: TreeView) -> Out {
    Out { separators: seq![separator], kids: seq![left, right] }
}

/// A forest after its tree `i` became others.
pub open spec fn spliced(separators: Seq<Seq<u8>>, kids: Seq<TreeView>, i: int, o: Out) -> Out {
    Out {
        separators: shape::spliced_separators(separators, i, i + 1, o.separators),
        kids: shape::spliced_kids(kids, i, i + 1, o.kids),
    }
}

pub open spec fn leaf(fence: FenceView, entries: Seq<EntryView>) -> TreeView {
    TreeView::Leaf { pid: 0, fence, entries }
}

pub open spec fn inner(
    fence: FenceView,
    separators: Seq<Seq<u8>>,
    buffer: Seq<MessageView>,
    kids: Seq<TreeView>,
) -> TreeView {
    TreeView::Node { pid: 0, fence, separators, buffer, kids }
}

// ---------------------------------------------------------------------------
// Writing a node, which fails where it has no place on a page.

/// Whether a node has a place on a page, and why it has none.
pub open spec fn placed(n: NodeView) -> Result<(), CowBeTreeError> {
    match writer::page_len(n, PAGE_SIZE as int) {
        Ok(_) => Ok(()),
        Err(e) => Err(e),
    }
}

/// The same of a node whose halves are written one after the other.
pub open spec fn both_placed(l: NodeView, r: NodeView) -> Result<(), CowBeTreeError> {
    match placed(l) {
        Err(e) => Err(e),
        Ok(_) => placed(r),
    }
}

/// The halves of a leaf that is split before entry `mid`.
pub open spec fn leaf_halves(fence: FenceView, es: Seq<EntryView>, mid: int) -> (
    NodeView,
    NodeView,
) {
    let sep = es[mid].key;
    (
        NodeView::Leaf {
            fence: FenceView { lower: fence.lower, upper: Some(sep) },
            entries: es.take(mid),
        },
        NodeView::Leaf {
            fence: FenceView { lower: sep, upper: fence.upper },
            entries: es.skip(mid),
        },
    )
}

/// A leaf is written, in two halves if it has to be split.
pub open spec fn leaf_written(
    config: CowBeTreeConfig,
    fence: FenceView,
    es: Seq<EntryView>,
) -> Result<Out, CowBeTreeError> {
    let mid = es.len() as int / 2;
    let sep = es[mid].key;
    if !rewrite::leaf_splits(config.max_leaf_entries, fence, es) {
        Ok(one(leaf(fence, es)))
    } else if es.len() < 2 {
        match placed(NodeView::Leaf { fence, entries: es }) {
            Ok(_) => Ok(one(leaf(fence, es))),
            Err(e) => Err(e),
        }
    } else {
        let (l, r) = leaf_halves(fence, es, mid);
        match both_placed(l, r) {
            Ok(_) => Ok(
                two(
                    sep,
                    leaf(FenceView { lower: fence.lower, upper: Some(sep) }, es.take(mid)),
                    leaf(FenceView { lower: sep, upper: fence.upper }, es.skip(mid)),
                ),
            ),
            Err(e) => Err(e),
        }
    }
}

/// Whether an internal node has a place on a page, and why it has none.
pub open spec fn inner_placed(
    fence: FenceView,
    separators: Seq<Seq<u8>>,
    buffer: Seq<MessageView>,
    kids: Seq<TreeView>,
) -> Result<(), CowBeTreeError> {
    placed(NodeView::Internal { fence, children: shape::pids_of(kids), separators, buffer })
}

/// An internal node has a place on a page.
pub open spec fn inner_fits(
    fence: FenceView,
    separators: Seq<Seq<u8>>,
    buffer: Seq<MessageView>,
    kids: Seq<TreeView>,
) -> bool {
    inner_placed(fence, separators, buffer, kids) is Ok
}

/// An internal node is written as it is.
pub open spec fn inner_written(
    fence: FenceView,
    separators: Seq<Seq<u8>>,
    buffer: Seq<MessageView>,
    kids: Seq<TreeView>,
) -> Result<Out, CowBeTreeError> {
    match inner_placed(fence, separators, buffer, kids) {
        Ok(_) => Ok(one(inner(fence, separators, buffer, kids))),
        Err(e) => Err(e),
    }
}

/// An internal node is split: the first half of its children, and the others,
/// with the messages for them.
pub open spec fn inner_split(
    fence: FenceView,
    separators: Seq<Seq<u8>>,
    buffer: Seq<MessageView>,
    kids: Seq<TreeView>,
) -> Result<Out, CowBeTreeError> {
    let n = kids.len() as int;
    let mid = n / 2;
    let sep = separators[mid - 1];
    let lf = FenceView { lower: fence.lower, upper: Some(sep) };
    let rf = FenceView { lower: sep, upper: fence.upper };
    let lb = buffer.filter(|m: MessageView| bytes::lex_lt(m.key, sep));
    let rb = buffer.filter(|m: MessageView| !bytes::lex_lt(m.key, sep));
    let lk = kids.subrange(0, mid);
    let rk = kids.subrange(mid, n);
    let ls = separators.subrange(0, mid - 1);
    let rs = separators.subrange(mid, separators.len() as int);
    if n < 2 {
        Err(CowBeTreeError::EmptyInternalPage)
    } else {
        match inner_placed(lf, ls, lb, lk) {
            Err(e) => Err(e),
            Ok(_) => match inner_placed(rf, rs, rb, rk) {
                Err(e) => Err(e),
                Ok(_) => Ok(two(sep, inner(lf, ls, lb, lk), inner(rf, rs, rb, rk))),
            },
        }
    }
}

/// An internal node has to be split.
pub open spec fn inner_splits(
    config: CowBeTreeConfig,
    fence: FenceView,
    separators: Seq<Seq<u8>>,
    buffer: Seq<MessageView>,
    kids: Seq<TreeView>,
) -> bool {
    rewrite::internal_splits(
        config.max_internal_children,
        fence,
        shape::pids_of(kids),
        separators,
        buffer,
    )
}

/// An internal node is written, split if it has to be.
pub open spec fn inner_rewritten(
    config: CowBeTreeConfig,
    fence: FenceView,
    separators: Seq<Seq<u8>>,
    buffer: Seq<MessageView>,
    kids: Seq<TreeView>,
) -> Result<Out, CowBeTreeError> {
    if inner_splits(config, fence, separators, buffer, kids) {
        inner_split(fence, separators, buffer, kids)
    } else {
        inner_written(fence, separators, buffer, kids)
    }
}

// ---------------------------------------------------------------------------
// Putting messages into a tree.

/// How many messages at the front of a batch are appended to a leaf as they come:
/// their keys ascend above its last key, and there is room. It fails where the
/// format cannot hold one of them.
pub open spec fn front_len(t: TreeView, ms: Seq<MessageView>, max_leaf_entries: int) -> Result<
    int,
    CowBeTreeError,
> {
    match t {
        TreeView::Leaf { fence, entries, .. } => if ms.len() > 0 && leaf_append::appendable(
            fence,
            entries,
            ms[0].key,
        ) {
            leaf_append::prefix_count(
                PAGE_SIZE as int,
                leaf_append::node_layout(fence, entries),
                fence.upper,
                ms,
                0,
                0,
                max_leaf_entries,
            )
        } else {
            Ok(0)
        },
        TreeView::Node { .. } => Ok(0),
    }
}

/// A leaf with messages behind its entries.
pub open spec fn with_front(t: TreeView, ms: Seq<MessageView>) -> TreeView {
    leaf(shape::fence_of(t), t->entries + leaf_append::single_entries(ms))
}

/// A batch, in order of keys, goes past all buffers to the one leaf that it
/// belongs to: an error if something has no place, and `None` if it belongs to
/// several.
pub open spec fn direct(config: CowBeTreeConfig, t: TreeView, ms: Seq<MessageView>) -> Result<
    Option<Out>,
    CowBeTreeError,
>
    decreases t,
{
    if ms.len() == 0 {
        Ok(Some(one(t)))
    } else {
        match t {
            TreeView::Leaf { fence, entries, .. } => match leaf_written(
                config,
                fence,
                node::apply_messages(entries, ms),
            ) {
                Ok(o) => Ok(Some(o)),
                Err(e) => Err(e),
            },
            TreeView::Node { fence, separators, buffer, kids, .. } => {
                let i = node::route(separators, ms[0].key) as int;
                if i != node::route(separators, ms.last().key) {
                    Ok(None)
                } else if !(0 <= i < kids.len()) {
                    Err(CowBeTreeError::CorruptPage("child index out of bounds"))
                } else {
                    match direct(config, kids[i], ms) {
                        Err(e) => Err(e),
                        Ok(None) => Ok(None),
                        Ok(Some(o)) => {
                            let f = spliced(separators, kids, i, o);
                            match inner_rewritten(config, fence, f.separators, buffer, f.kids) {
                                Ok(o) => Ok(Some(o)),
                                Err(e) => Err(e),
                            }
                        },
                    }
                }
            },
        }
    }
}

/// A batch is put into the root of a tree of height `h`: into the leaf, or into
/// the buffer, which is flushed if it becomes too large.
pub open spec fn put(
    config: CowBeTreeConfig,
    t: TreeView,
    ms: Seq<MessageView>,
    h: nat,
) -> Result<Out, CowBeTreeError>
    decreases h, 2nat, 0nat,
{
    match t {
        TreeView::Leaf { fence, entries, .. } => leaf_written(
            config,
            fence,
            node::apply_messages(entries, ms),
        ),
        TreeView::Node { fence, separators, buffer, kids, .. } => {
            let all = buffer + ms;
            if h == 0 {
                Err(CowBeTreeError::EmptyInternalPage)
            } else if rewrite::buffer_flushes(config, all) || inner_splits(
                config,
                fence,
                separators,
                all,
                kids,
            ) {
                flushed(config, fence, separators, all, kids, (h - 1) as nat)
            } else {
                inner_written(fence, separators, all, kids)
            }
        },
    }
}

/// Why a tree refuses a batch of one message, if its root page is asked for room.
pub open spec fn refused(t: TreeView, ms: Seq<MessageView>, asked: bool) -> Option<
    CowBeTreeError,
> {
    if asked && ms.len() == 1 {
        takes::refusal(shape::node_of(t), ms[0])
    } else {
        None
    }
}

/// A batch is put into a tree whose root page may be asked for room first.
pub open spec fn put_or_refused(
    config: CowBeTreeConfig,
    t: TreeView,
    ms: Seq<MessageView>,
    asked: bool,
    h: nat,
) -> Result<Out, CowBeTreeError>
    decreases h, 2nat, 1nat,
{
    match refused(t, ms, asked) {
        Some(e) => Err(e),
        None => put(config, t, ms, h),
    }
}

/// The messages from `next` on are put one by one into the tree each belongs to;
/// all but the first ask there for room.
pub open spec fn each_put(
    config: CowBeTreeConfig,
    separators: Seq<Seq<u8>>,
    kids: Seq<TreeView>,
    ms: Seq<MessageView>,
    next: int,
    asked: bool,
    h: nat,
) -> Result<Out, CowBeTreeError>
    decreases h, 3nat, ms.len() - next,
{
    if next >= ms.len() {
        Ok(Out { separators, kids })
    } else {
        let i = node::route(separators, ms[next].key) as int;
        match put_or_refused(config, kids[i], seq![ms[next]], asked, h) {
            Err(e) => Err(e),
            Ok(o) => {
                let f = spliced(separators, kids, i, o);
                each_put(config, f.separators, f.kids, ms, next + 1, true, h)
            },
        }
    }
}

/// A batch is put into child `i` of a forest: what can be is appended to it, and
/// the rest goes to its leaf, or message by message into the trees.
pub open spec fn child_put(
    config: CowBeTreeConfig,
    separators: Seq<Seq<u8>>,
    kids: Seq<TreeView>,
    i: int,
    ms: Seq<MessageView>,
    h: nat,
) -> Result<Out, CowBeTreeError>
    decreases h, 4nat, 0nat,
{
    match front_len(kids[i], ms, config.max_leaf_entries as int) {
        Err(e) => Err(e),
        Ok(k) => {
            let t = if k > 0 {
                with_front(kids[i], ms.take(k))
            } else {
                kids[i]
            };
            let kids2 = kids.update(i, t);
            let rest = ms.skip(k);
            if k == ms.len() {
                Ok(Out { separators, kids: kids2 })
            } else if rest.len() > 1 {
                match direct(config, t, rest) {
                    Err(e) => Err(e),
                    Ok(Some(o)) => Ok(spliced(separators, kids2, i, o)),
                    Ok(None) => each_put(config, separators, kids2, ms, k, false, h),
                }
            } else {
                each_put(config, separators, kids2, ms, k, false, h)
            }
        },
    }
}

/// The child that a flush goes to.
pub open spec fn flush_child(separators: Seq<Seq<u8>>, ms: Seq<MessageView>, n: int) -> int {
    choose|i: int| batch::is_flush_child(separators, ms, n, i)
}

/// The buffer of a node over a forest of height `h` is flushed: the messages of
/// the child that has most of them go there, and the node is written with the
/// others, split if it has too many children, and flushed again if it has no
/// place on its page.
pub open spec fn flushed(
    config: CowBeTreeConfig,
    fence: FenceView,
    separators: Seq<Seq<u8>>,
    buffer: Seq<MessageView>,
    kids: Seq<TreeView>,
    h: nat,
) -> Result<Out, CowBeTreeError>
    decreases h, 5nat, buffer.len(),
{
    if buffer.len() == 0 {
        inner_rewritten(config, fence, separators, buffer, kids)
    } else {
        let i = flush_child(separators, buffer, kids.len() as int);
        let ms = message::in_buffer_order(batch::routed_to(separators, buffer, i));
        let rest = batch::routed_elsewhere(separators, buffer, i);
        match child_put(config, separators, kids, i, ms, h) {
            Err(e) => Err(e),
            Ok(f) => if f.kids.len() > config.max_internal_children {
                inner_split(fence, f.separators, rest, f.kids)
            } else if inner_fits(fence, f.separators, rest, f.kids) {
                inner_written(fence, f.separators, rest, f.kids)
            } else if rest.len() < buffer.len() {
                flushed(config, fence, f.separators, rest, f.kids, h)
            } else {
                inner_written(fence, f.separators, rest, f.kids)
            },
        }
    }
}

// ---------------------------------------------------------------------------
// Page ids make no difference.

/// The length of each of the messages and that of some pages together is a machine
/// word.
pub open spec fn all_sized(ms: Seq<MessageView>) -> bool {
    forall|i: int| 0 <= i < ms.len() ==> takes::is_sized(#[trigger] ms[i])
}

/// Whether a node has a place on a page does not depend on where its children
/// stand.
pub proof fn other_children_fit(
    fence: FenceView,
    c1: Seq<u64>,
    c2: Seq<u64>,
    separators: Seq<Seq<u8>>,
    buffer: Seq<MessageView>,
)
    requires
        c1.len() == c2.len(),
    ensures
        writer::page_len(
            NodeView::Internal { fence, children: c1, separators, buffer },
            PAGE_SIZE as int,
        ) == writer::page_len(
            NodeView::Internal { fence, children: c2, separators, buffer },
            PAGE_SIZE as int,
        ),
{
    broadcast use bytes::group_le;

    layout::flat_fixed(c1, |w: u64| bytes::le64(w), 8);
    layout::flat_fixed(c2, |w: u64| bytes::le64(w), 8);
}

/// The same of a forest and its trees without page ids.
pub proof fn bare_fits(
    fence: FenceView,
    separators: Seq<Seq<u8>>,
    buffer: Seq<MessageView>,
    kids: Seq<TreeView>,
)
    ensures
        inner_placed(fence, separators, buffer, kids) == inner_placed(
            fence,
            separators,
            buffer,
            bare_all(kids),
        ),
{
    other_children_fit(
        fence,
        shape::pids_of(kids),
        shape::pids_of(bare_all(kids)),
        separators,
        buffer,
    );
}

pub proof fn bare_spliced(
    separators: Seq<Seq<u8>>,
    kids: Seq<TreeView>,
    i: int,
    rw: Rewrite,
)
    requires
        0 <= i < kids.len(),
    ensures
        spliced(separators, bare_all(kids), i, out_of(rw)) == (Out {
            separators: shape::spliced_separators(
                separators,
                i,
                i + 1,
                leaf_work::separators_of(rw),
            ),
            kids: bare_all(shape::spliced_kids(kids, i, i + 1, leaf_work::kids_of(rw))),
        }),
{
    let k2 = leaf_work::kids_of(rw);
    assert(shape::spliced_kids(bare_all(kids), i, i + 1, bare_all(k2)) =~= bare_all(
        shape::spliced_kids(kids, i, i + 1, k2),
    ));
}

/// There is one child that a flush goes to.
pub proof fn flush_child_is(separators: Seq<Seq<u8>>, ms: Seq<MessageView>, n: int, i: int)
    requires
        batch::is_flush_child(separators, ms, n, i),
    ensures
        flush_child(separators, ms, n) == i,
{
    let j = flush_child(separators, ms, n);
    assert(batch::is_flush_child(separators, ms, n, j));
    if i != j {
        assert(batch::flushed_before(separators, ms, i, j));
        assert(batch::flushed_before(separators, ms, j, i));
    }
}

/// Work on a tree came out as it should: it failed where something had no place,
/// and otherwise left these trees.
pub open spec fn came_out(
    r: Result<Rewrite, CowBeTreeError>,
    o: Result<Out, CowBeTreeError>,
) -> bool {
    match r {
        Ok(rw) => o == Ok::<Out, CowBeTreeError>(out_of(rw)),
        Err(e) => o == Err::<Out, CowBeTreeError>(e),
    }
}

/// What became of a tree, tree by tree.
pub proof fn out_trees(rw: Rewrite)
    ensures
        match rw {
            Rewrite::One { tree, .. } => out_of(rw) == one(bare(tree@)),
            Rewrite::Split { separator, left, right, .. } => out_of(rw) == two(
                separator@,
                bare(left@),
                bare(right@),
            ),
        },
{
    match rw {
        Rewrite::One { tree, .. } => {
            assert(bare_all(leaf_work::kids_of(rw)) =~= seq![bare(tree@)]);
        },
        Rewrite::Split { left, right, .. } => {
            assert(bare_all(leaf_work::kids_of(rw)) =~= seq![bare(left@), bare(right@)]);
        },
    }
}

/// Another page for the root makes no difference.
pub proof fn bare_with_pid(t: TreeView, p: u64)
    ensures
        bare(work::with_pid(t, p)) == bare(t),
{
    bare_node(t);
    bare_node(work::with_pid(t, p));
}

// ---------------------------------------------------------------------------
// Appends in place make no difference.

/// How much of a batch a page takes, and why it refuses it, follows from what the
/// page holds.
pub proof fn front_answers(page: Seq<u8>, t: TreeView, ms: Seq<MessageView>, max_leaf_entries: int)
    requires
        layout::parse_page(page) == Ok::<_, CowBeTreeError>(shape::node_of(t)),
        page.len() == PAGE_SIZE,
    ensures
        ({
            let front = front_len(t, ms, max_leaf_entries);
            match leaf_append::prefix_plan(page, ms, max_leaf_entries) {
                Err(e) => front is Err && front->Err_0 == e,
                Ok(None) => front is Ok && front->Ok_0 == 0,
                Ok(Some((_, k))) => front is Ok && front->Ok_0 == k && 0 < k <= ms.len(),
            }
        }),
{
    if ms.len() > 0 {
        leaf_append::leaf_layout_of_node(page, ms[0].key);
        layout_laws::read_page_is_canonical(page);
        match t {
            TreeView::Node { .. } => {},
            TreeView::Leaf { fence, entries, .. } => {
                let l = leaf_append::node_layout(fence, entries);
                layout_laws::leaf_written(fence, entries);
                assert(ms.take(0) =~= Seq::<MessageView>::empty());
                assert(leaf_append::single_entries(ms.take(0)) =~= Seq::<EntryView>::empty());
                assert(leaf_append::enc_singles(ms.take(0)).len() == 0);
                leaf_append::prefix_count_bounds(
                    PAGE_SIZE as int,
                    l,
                    fence.upper,
                    ms,
                    0,
                    max_leaf_entries,
                );
                let count = leaf_append::prefix_count(
                    PAGE_SIZE as int,
                    l,
                    fence.upper,
                    ms,
                    0,
                    0,
                    max_leaf_entries,
                );
                let k = count->Ok_0;
                if count is Ok && k > 0 {
                    let front = ms.take(k);
                    leaf_append::enc_singles_push(front.drop_last(), front.last());
                    assert(front.drop_last().push(front.last()) =~= front);
                }
            },
        }
    }
}

/// A leaf page has room behind its entries for a message with a key above
/// them exactly if the leaf is not split by it.
pub proof fn leaf_takes(
    page: Seq<u8>,
    fence: FenceView,
    entries: Seq<EntryView>,
    m: MessageView,
    max_leaf_entries: usize,
)
    requires
        layout::parse_page(page) == Ok::<_, CowBeTreeError>(NodeView::Leaf { fence, entries }),
        page.len() == PAGE_SIZE,
        takes::is_sized(m),
        leaf_append::entry_len_error(m) is None,
        node::sorted_entries(entries),
        leaf_append::appendable(fence, entries, m.key),
    ensures
        leaf_append::batch_plan(page, seq![m], max_leaf_entries as int) is Ok,
        leaf_append::batch_plan(page, seq![m], max_leaf_entries as int)->Ok_0 is Some
            <==> !rewrite::leaf_splits(
            max_leaf_entries,
            fence,
            entries.push(leaf_append::single_entry(m)),
        ),
{
    let ms = seq![m];
    takes::leaf_answers(page, m, max_leaf_entries as int);
    takes::entry_behind(entries, m);
    if leaf_append::batch_plan(page, ms, max_leaf_entries as int)->Ok_0 is Some {
        leaf_append::batch_append_pushes(page, ms, max_leaf_entries as int);
        work::read_node_fits(
            leaf_append::leaf_appended(page, leaf_append::node_layout(fence, entries), ms),
        );
        assert(entries + leaf_append::single_entries(ms) =~= entries.push(
            leaf_append::single_entry(m),
        ));
    } else if !rewrite::leaf_splits(
        max_leaf_entries,
        fence,
        entries.push(leaf_append::single_entry(m)),
    ) {
        takes::leaf_answers_yes(page, fence, entries, m, max_leaf_entries);
    }
}

/// A leaf that takes a message in place is the leaf that is written with it.
pub proof fn appended_is_written(
    config: CowBeTreeConfig,
    page: Seq<u8>,
    t: TreeView,
    m: MessageView,
)
    requires
        t is Leaf,
        layout::parse_page(page) == Ok::<_, CowBeTreeError>(shape::node_of(t)),
        page.len() == PAGE_SIZE,
        node::sorted_entries(t->entries),
        leaf_append::batch_plan(page, seq![m], config.max_leaf_entries as int) matches Ok(Some(_)),
    ensures
        leaf_written(
            config,
            shape::fence_of(t),
            node::apply_messages(t->entries, seq![m]),
        ) == Ok::<_, CowBeTreeError>(one(bare(leaf_work::appended_leaf(t, seq![m])))),
{
    let ms = seq![m];
    let fence = shape::fence_of(t);
    leaf_append::batch_append_pushes(page, ms, config.max_leaf_entries as int);
    let new = leaf_append::leaf_appended(
        page,
        leaf_append::node_layout(fence, t->entries),
        ms,
    );
    work::read_node_fits(new);
    assert(ms[0] == m);
    takes::entry_behind(t->entries, m);
    assert(ms.drop_last() =~= Seq::<MessageView>::empty());
    assert(node::apply_messages(t->entries, ms.drop_last()) == t->entries);
    assert(ms.last() == m);
    assert(t->entries + leaf_append::single_entries(ms) =~= t->entries.push(
        leaf_append::single_entry(m),
    ));
}

/// A buffer that takes a message in place need not be flushed, and its node has
/// no more children than it may.
pub proof fn buffered_is_written(
    config: CowBeTreeConfig,
    page: Seq<u8>,
    t: TreeView,
    m: MessageView,
)
    requires
        t is Node,
        layout::parse_page(page) == Ok::<_, CowBeTreeError>(shape::node_of(t)),
        page.len() == PAGE_SIZE,
        append::buffer_append_plan(
            page,
            m,
            config.flush_threshold_messages as int,
            config.flush_threshold_bytes as int,
            config.max_internal_children as int,
            false,
        ) matches Ok(Some(_)),
    ensures
        ({
            let t2 = leaf_work::appended_node(t, m);
            &&& !rewrite::buffer_flushes(config, t->buffer.push(m))
            &&& inner_written(
                shape::fence_of(t),
                t->separators,
                t->buffer.push(m),
                bare_all(t->kids),
            ) == Ok::<_, CowBeTreeError>(one(bare(t2)))
            &&& !inner_splits(
                config,
                shape::fence_of(t),
                t->separators,
                t->buffer.push(m),
                bare_all(t->kids),
            )
        }),
{
    let buffer = t->buffer;
    let t2 = leaf_work::appended_node(t, m);
    append::buffer_layout_of_node(page);
    append::buffer_append_pushes(
        page,
        m,
        config.flush_threshold_messages as int,
        config.flush_threshold_bytes as int,
        config.max_internal_children as int,
        false,
    );
    assert(buffer.push(m).drop_last() =~= buffer);
    batch::messages_len_nonneg(buffer);
    layout_laws::read_page_is_canonical(page);
    append::enc_messages_len(buffer);
    let l = append::buffer_append_plan(
        page,
        m,
        config.flush_threshold_messages as int,
        config.flush_threshold_bytes as int,
        config.max_internal_children as int,
        false,
    )->Ok_0->0;
    work::read_node_fits(append::buffer_appended(page, l, m));
    bare_node(t2);
    bare_fits(shape::fence_of(t), t->separators, buffer.push(m), t->kids);
}

proof fn message_in_list(ms: Seq<MessageView>, i: int)
    requires
        0 <= i < ms.len(),
    ensures
        message::message_len(ms[i]) <= message::messages_len(ms),
    decreases ms.len(),
{
    batch::messages_len_nonneg(ms.drop_last());
    if i < ms.len() - 1 {
        message_in_list(ms.drop_last(), i);
    }
}

/// The messages of a buffer on a page are no longer than a page.
pub proof fn buffered_are_sized(page: Seq<u8>, t: TreeView)
    requires
        t is Node,
        layout::parse_page(page) == Ok::<_, CowBeTreeError>(shape::node_of(t)),
        page.len() == PAGE_SIZE,
    ensures
        all_sized(t->buffer),
{
    append::buffer_layout_of_node(page);
    append::enc_messages_len(t->buffer);
    let body = layout::internal_body(
        shape::fence_of(t),
        shape::pids_of(t->kids),
        t->separators,
        t->buffer,
    );
    assert(body.len() >= message::messages_len(t->buffer));
    assert forall|i: int| 0 <= i < t->buffer.len() implies takes::is_sized(
        #[trigger] t->buffer[i],
    ) by {
        message_in_list(t->buffer, i);
    }
}

// ---------------------------------------------------------------------------
// Roots.

/// The tree over what became of a root: a new root over two trees, which fails
/// where it has no place on a page.
pub open spec fn rooted(o: Result<Out, CowBeTreeError>) -> Result<TreeView, CowBeTreeError> {
    match o {
        Err(e) => Err(e),
        Ok(o) => if o.kids.len() == 1 {
            Ok(o.kids[0])
        } else {
            match inner_placed(node::root_fence(), o.separators, Seq::empty(), o.kids) {
                Ok(_) => Ok(inner(node::root_fence(), o.separators, Seq::empty(), o.kids)),
                Err(e) => Err(e),
            }
        },
    }
}

/// A put behind the last key of a leaf.
pub open spec fn is_behind(t: TreeView, m: MessageView) -> bool {
    t is Leaf && t->entries.len() >= 2 && !m.version.deleted && bytes::lex_lt(
        t->entries[t->entries.len() - 1].key,
        m.key,
    )
}

/// The halves of a root leaf, with a put in the right one.
pub open spec fn cut_for(t: TreeView, m: MessageView) -> Out {
    let fence = shape::fence_of(t);
    let es = t->entries;
    let mid = root::split_point(es.len() as int);
    let sep = es[mid].key;
    two(
        sep,
        leaf(FenceView { lower: fence.lower, upper: Some(sep) }, es.take(mid)),
        leaf(
            FenceView { lower: sep, upper: fence.upper },
            es.skip(mid).push(leaf_append::single_entry(m)),
        ),
    )
}

/// Whether the halves of a root leaf have a place on a page each, and why not.
pub open spec fn cut_placed(t: TreeView) -> Result<(), CowBeTreeError> {
    let (l, r) = leaf_halves(
        shape::fence_of(t),
        t->entries,
        root::split_point(t->entries.len() as int),
    );
    both_placed(l, r)
}

/// A root leaf is cut for a put behind its last key, which the right half takes:
/// an error if a half has no place on a page, and `None` if it is no such put or the
/// right half has no room for it.
pub open spec fn root_cut(max_leaf_entries: usize, t: TreeView, m: MessageView) -> Result<
    Option<Out>,
    CowBeTreeError,
> {
    if !is_behind(t, m) {
        Ok(None)
    } else {
        match cut_placed(t) {
            Err(e) => Err(e),
            Ok(_) => {
                let o = cut_for(t, m);
                if rewrite::leaf_splits(
                    max_leaf_entries,
                    o.kids[1]->Leaf_fence,
                    o.kids[1]->entries,
                ) {
                    Ok(None)
                } else {
                    Ok(Some(o))
                }
            },
        }
    }
}

/// A message is put into the root of a whole tree of height `h`: a root leaf that
/// has to be split for a put behind its last key is cut, which may fail. A root leaf
/// is asked for room first.
pub open spec fn root_put(
    config: CowBeTreeConfig,
    t: TreeView,
    m: MessageView,
    h: nat,
) -> Result<Out, CowBeTreeError> {
    let splits = is_behind(t, m) && rewrite::leaf_splits(
        config.max_leaf_entries,
        shape::fence_of(t),
        t->entries.push(leaf_append::single_entry(m)),
    );
    match takes::refusal(shape::node_of(t), m) {
        Some(e) => Err(e),
        None => match cut_placed(t) {
            Err(e) if splits => Err(e),
            _ => put(config, t, seq![m], h),
        },
    }
}

/// Cutting a root leaf for a put behind its last key is writing the leaf with it,
/// where that has to be split.
pub proof fn cut_is_written(config: CowBeTreeConfig, t: TreeView, m: MessageView)
    requires
        is_behind(t, m),
        node::sorted_entries(t->entries),
        rewrite::leaf_splits(
            config.max_leaf_entries,
            shape::fence_of(t),
            t->entries.push(leaf_append::single_entry(m)),
        ),
    ensures
        ({
            let o = leaf_written(
                config,
                shape::fence_of(t),
                node::apply_messages(t->entries, seq![m]),
            );
            match root_cut(config.max_leaf_entries, t, m) {
                Ok(Some(cut)) => o == Ok::<_, CowBeTreeError>(cut),
                Ok(None) => true,
                Err(_) => o is Err,
            }
        }),
{
    let ms = seq![m];
    let es = t->entries;
    let fence = shape::fence_of(t);
    let mid = root::split_point(es.len() as int);
    let one = leaf_append::single_entry(m);
    assert(ms.drop_last() =~= Seq::<MessageView>::empty());
    assert(node::apply_messages(es, ms.drop_last()) == es);
    assert(ms.last() == m);
    takes::entry_behind(es, m);
    let es2 = es.push(one);
    assert(node::apply_messages(es, ms) == es2);
    assert(es2.take(mid) =~= es.take(mid));
    assert(es2.skip(mid) =~= es.skip(mid).push(one));
    assert(es2.len() as int / 2 == mid);
    if rewrite::halves_fit(fence, es2) {
        root::put_behind_halves(fence, es, m);
    }
}

} // verus!
