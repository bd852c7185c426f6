//! What a compacted tree has left: neighbours that one page could not hold.
use vstd::prelude::*;

use crate::betree::compact;
use crate::betree::config::CowBeTreeConfig;
use crate::betree::gc_tree;
use crate::betree::layout;
use crate::betree::message::MessageView;
use crate::betree::node::{EntryView, FenceView};
use crate::betree::root;
use crate::betree::shape;
use crate::betree::shape::TreeView;
use crate::betree::work;
use crate::betree::writer;
use crate::bytes;
use crate::page_id::PAGE_SIZE;

verus! {

broadcast use bytes::group_le;

// ---------------------------------------------------------------------------
// What one page could not hold.

/// How many bytes the key at the upper end of a fence has.
pub open spec fn upper_len(fence: FenceView) -> nat {
    match fence.upper {
        Some(key) => key.len(),
        None => 0,
    }
}

/// Two leaves side by side cannot be one: they have more entries than are merged,
/// or the page would be too long for them with a key of `k` bytes at the upper end of
/// its fence, or the format has no place for so many entries or for one of them.
pub open spec fn leaves_apart(
    max: usize,
    k: nat,
    lower: Seq<u8>,
    a: Seq<EntryView>,
    b: Seq<EntryView>,
) -> bool {
    let all = a + b;
    ||| a.len() + b.len() > max
    ||| layout::HEADER_SIZE + layout::leaf_body(FenceView { lower, upper: None }, all).len() + k
        > PAGE_SIZE
    ||| lower.len() > u16::MAX
    ||| all.len() > u16::MAX
    ||| exists|i: int| 0 <= i < all.len() && writer::entry_error(#[trigger] all[i]) is Some
}

/// Two nodes side by side cannot be one: they have more children than are merged, or
/// the page would be too long, or the format has no place for so many children or for
/// one of the keys.
pub open spec fn inners_apart(max: usize, a: TreeView, b: TreeView) -> bool {
    let fence = FenceView { lower: shape::fence_of(a).lower, upper: shape::fence_of(b).upper };
    let seps = a->separators + seq![shape::fence_of(b).lower] + b->separators;
    let kids = shape::pids_of(a->kids) + shape::pids_of(b->kids);
    ||| a->kids.len() + b->kids.len() > max
    ||| layout::HEADER_SIZE + layout::internal_body(fence, kids, seps, Seq::empty()).len()
        > PAGE_SIZE
    ||| fence.lower.len() > u16::MAX
    ||| upper_len(fence) > u16::MAX
    ||| kids.len() > u16::MAX
    ||| exists|i: int| 0 <= i < seps.len() && (#[trigger] seps[i]).len() > u16::MAX
}

/// Two trees of one height side by side cannot have their root pages in one.
pub open spec fn stands_apart(config: CowBeTreeConfig, k: nat, a: TreeView, b: TreeView) -> bool {
    match (a, b) {
        (TreeView::Leaf { fence, entries: x, .. }, TreeView::Leaf { entries: y, .. }) => {
            leaves_apart(config.merge_leaf_entries, k, fence.lower, x, y)
        },
        (TreeView::Node { .. }, TreeView::Node { .. }) => inners_apart(
            config.merge_internal_children,
            a,
            b,
        ),
        _ => false,
    }
}

/// The keys at the upper ends of all fences have at most `k` bytes.
pub open spec fn uppers_within(t: TreeView, k: nat) -> bool
    decreases t,
{
    upper_len(shape::fence_of(t)) <= k && match t {
        TreeView::Leaf { .. } => true,
        TreeView::Node { kids, .. } => forall|i: int|
            0 <= i < kids.len() ==> uppers_within(#[trigger] kids[i], k),
    }
}

/// The subtrees of height `h` of a tree of height `th`, from left to right.
pub open spec fn at_height(t: TreeView, th: nat, h: nat) -> Seq<TreeView>
    decreases t,
{
    if h >= th {
        seq![t]
    } else {
        match t {
            TreeView::Leaf { .. } => Seq::empty(),
            TreeView::Node { kids, .. } => all_at_height(kids, (th - 1) as nat, h),
        }
    }
}

/// The same of several trees of height `th`.
pub open spec fn all_at_height(kids: Seq<TreeView>, th: nat, h: nat) -> Seq<TreeView>
    decreases kids,
{
    if kids.len() == 0 {
        Seq::empty()
    } else {
        all_at_height(kids.drop_last(), th, h) + at_height(kids.last(), th, h)
    }
}

/// The trees from `lo` up to `hi` cover what `p` covers, and no two of them side by
/// side could be one.
pub open spec fn is_tight(
    config: CowBeTreeConfig,
    k: nat,
    p: TreeView,
    level: Seq<TreeView>,
    lo: int,
    hi: int,
) -> bool {
    &&& 0 <= lo < hi <= level.len()
    &&& shape::fence_of(level[lo]).lower == shape::fence_of(p).lower
    &&& shape::fence_of(level[hi - 1]).upper == shape::fence_of(p).upper
    &&& forall|i: int|
        #![trigger level[i]]
        lo <= i && i + 1 < hi ==> stands_apart(config, k, level[i], level[i + 1])
}

pub open spec fn has_tight_run(
    config: CowBeTreeConfig,
    k: nat,
    p: TreeView,
    level: Seq<TreeView>,
) -> bool {
    exists|lo: int, hi: int| #[trigger] is_tight(config, k, p, level, lo, hi)
}

/// What was below every node of a tree is stored in as few pages as one pass over its
/// children from the left makes of them: of the trees of one height that now cover
/// what a node covered, no two side by side could be one.
pub open spec fn is_packed(
    config: CowBeTreeConfig,
    k: nat,
    before: TreeView,
    bh: nat,
    after: TreeView,
    ah: nat,
) -> bool {
    forall|h: nat, j: int|
        #![trigger at_height(before, bh, h + 1)[j]]
        h < bh && 0 <= j < at_height(before, bh, h + 1).len() ==> has_tight_run(
            config,
            k,
            at_height(before, bh, h + 1)[j],
            at_height(after, ah, h),
        )
}

// ---------------------------------------------------------------------------
// Pairs.

proof fn leaf_len(fence: FenceView, es: Seq<EntryView>)
    ensures
        layout::leaf_body(fence, es).len() == 6 + fence.lower.len() + upper_len(fence)
            + layout::enc_entries(es).len() + 4 * es.len(),
        layout::leaf_base(fence) == 6 + fence.lower.len() + upper_len(fence),
{
    layout::flat_fixed(
        layout::entry_offsets(layout::leaf_base(fence), es),
        |o: u32| bytes::le32(o),
        4,
    );
}

proof fn inner_len(fence: FenceView, kids: Seq<u64>, seps: Seq<Seq<u8>>)
    ensures
        layout::internal_body(fence, kids, seps, Seq::empty()).len() == 10 + fence.lower.len()
            + upper_len(fence) + 8 * kids.len() + layout::enc_keys(seps).len(),
{
    layout::flat_fixed(kids, |w: u64| bytes::le64(w), 8);
    assert(layout::enc_messages(Seq::<MessageView>::empty()).len() == 0);
}

/// Entries cannot be written only where one of them cannot, or where they are long.
proof fn entries_stop(base: int, es: Seq<EntryView>, i: int)
    requires
        0 <= i <= es.len(),
        writer::entries_error(base, es, i) is Some,
    ensures
        (exists|j: int| 0 <= j < es.len() && writer::entry_error(#[trigger] es[j]) is Some)
            || base + layout::enc_entries(es).len() > u32::MAX,
    decreases es.len() - i,
{
    if i < es.len() {
        let f = |e: EntryView| layout::enc_entry(e);
        layout::flat_split(es, i, f);
        if layout::entry_offset(base, es, i) <= u32::MAX && writer::entry_error(es[i]) is None {
            entries_stop(base, es, i + 1);
        }
    }
}

/// What is not merged cannot be one.
proof fn refused_stand_apart(
    config: CowBeTreeConfig,
    k: nat,
    l: TreeView,
    r: TreeView,
    sep: Seq<u8>,
)
    requires
        l is Leaf == r is Leaf,
        is_plain(l),
        is_plain(r),
        shape::fence_of(r).lower == sep,
        upper_len(shape::fence_of(r)) <= k <= u16::MAX,
        !compact::mergeable(config, l, r, sep),
    ensures
        stands_apart(config, k, l, r),
{
    let m = compact::merged(l, r, sep, 0);
    let n = shape::node_of(m);
    let fence = shape::fence_of(m);
    if l is Leaf {
        let all = l->entries + r->entries;
        leaf_len(fence, all);
        leaf_len(FenceView { lower: fence.lower, upper: None }, all);
        assert(layout::node_body(n) == layout::leaf_body(fence, all));
        if l->entries.len() + r->entries.len() <= config.merge_leaf_entries {
            assert(!work::fits_page(n));
            if writer::node_error(n) is Some && fence.lower.len() <= u16::MAX && all.len()
                <= u16::MAX {
                entries_stop(layout::leaf_base(fence), all, 0);
            }
        }
    } else {
        let seps = l->separators + seq![sep] + r->separators;
        assert(m->separators =~= seps);
        let kids = shape::pids_of(l->kids) + shape::pids_of(r->kids);
        assert(shape::pids_of(m->kids) =~= kids);
        assert(layout::node_body(n) == layout::internal_body(fence, kids, seps, Seq::empty()));
        assert(writer::messages_error(Seq::<MessageView>::empty(), 0) is None);
        if l->kids.len() + r->kids.len() <= config.merge_internal_children {
            assert(!work::fits_page(n));
        }
    }
}

/// What cannot be one with a tree cannot be one with more than it.
proof fn more_stands_apart(
    config: CowBeTreeConfig,
    k: nat,
    a: TreeView,
    b: TreeView,
    c: TreeView,
    sep: Seq<u8>,
)
    requires
        stands_apart(config, k, a, b),
        b is Leaf == c is Leaf,
        is_plain(b),
        is_plain(c),
        shape::fence_of(b).upper == Some(sep),
    ensures
        stands_apart(config, k, a, compact::merged(b, c, sep, 0)),
{
    let m = compact::merged(b, c, sep, 0);
    if a is Leaf {
        let lower = shape::fence_of(a).lower;
        let open = FenceView { lower, upper: None };
        let all = a->entries + b->entries;
        let more = a->entries + m->entries;
        assert(more =~= all + c->entries);
        layout::flat_add(all, c->entries, |e: EntryView| layout::enc_entry(e));
        leaf_len(open, all);
        leaf_len(open, more);
        if exists|i: int| 0 <= i < all.len() && writer::entry_error(#[trigger] all[i]) is Some {
            let i = choose|i: int|
                0 <= i < all.len() && writer::entry_error(#[trigger] all[i]) is Some;
            assert(more[i] == all[i]);
        }
    } else {
        let f = |x: Seq<u8>| layout::enc_bytes16(x);
        let lower = shape::fence_of(a).lower;
        let fence = FenceView { lower, upper: shape::fence_of(b).upper };
        let wide = FenceView { lower, upper: shape::fence_of(c).upper };
        let seps = a->separators + seq![shape::fence_of(b).lower] + b->separators;
        let more = a->separators + seq![shape::fence_of(b).lower] + m->separators;
        let kids = shape::pids_of(a->kids) + shape::pids_of(b->kids);
        let many = shape::pids_of(a->kids) + shape::pids_of(m->kids);
        assert(more =~= seps.push(sep) + c->separators);
        layout::flat_add(seps.push(sep), c->separators, f);
        layout::flat_push(seps, sep, f);
        inner_len(fence, kids, seps);
        inner_len(wide, many, more);
        assert(layout::enc_keys(more).len() >= layout::enc_keys(seps).len() + 2 + sep.len());
        if upper_len(fence) > u16::MAX {
            assert(more[seps.len() as int] == sep);
        }
        if exists|i: int| 0 <= i < seps.len() && (#[trigger] seps[i]).len() > u16::MAX {
            let i = choose|i: int| 0 <= i < seps.len() && (#[trigger] seps[i]).len() > u16::MAX;
            assert(more[i] == seps[i]);
        }
    }
}

/// Trees that differ at most in their pages stand apart alike.
proof fn alike_stand_apart(
    config: CowBeTreeConfig,
    k: nat,
    a: TreeView,
    b: TreeView,
    a2: TreeView,
    b2: TreeView,
)
    requires
        shape::alike(a, a2),
        shape::alike(b, b2),
        stands_apart(config, k, a, b),
    ensures
        stands_apart(config, k, a2, b2),
{
    if a is Node {
        let fence = FenceView { lower: shape::fence_of(a).lower, upper: shape::fence_of(b).upper };
        let seps = a->separators + seq![shape::fence_of(b).lower] + b->separators;
        let kids = shape::pids_of(a->kids) + shape::pids_of(b->kids);
        let kids2 = shape::pids_of(a2->kids) + shape::pids_of(b2->kids);
        inner_len(fence, kids, seps);
        inner_len(fence, kids2, seps);
    }
}

// ---------------------------------------------------------------------------
// Forests.

/// A node has one separator less than children, and nothing in its buffer.
spec fn is_plain(t: TreeView) -> bool {
    t is Node ==> t->buffer.len() == 0 && t->kids.len() == t->separators.len() + 1
}

/// The height of a tree along its first children.
spec fn spine(t: TreeView) -> nat
    decreases t,
{
    match t {
        TreeView::Leaf { .. } => 0,
        TreeView::Node { kids, .. } => if kids.len() > 0 {
            spine(kids[0]) + 1
        } else {
            1
        },
    }
}

proof fn spine_is(t: TreeView, h: nat)
    requires
        shape::wf(t, h),
    ensures
        spine(t) == h,
    decreases t,
{
    if t is Node {
        assert(shape::wf(t->kids[0], (h - 1) as nat));
        spine_is(t->kids[0], (h - 1) as nat);
    }
}

proof fn alike_spine(a: TreeView, b: TreeView)
    requires
        shape::alike(a, b),
    ensures
        spine(a) == spine(b),
    decreases a,
{
    if a is Node && a->kids.len() > 0 {
        assert(shape::alike(a->kids[0], b->kids[0]));
        alike_spine(a->kids[0], b->kids[0]);
    }
}

/// Plain trees of one height, with the separators between them at their fences.
spec fn is_row(kids: Seq<TreeView>, seps: Seq<Seq<u8>>, k: nat, h: nat) -> bool {
    &&& kids.len() == seps.len() + 1
    &&& forall|i: int|
        #![trigger kids[i]]
        0 <= i < kids.len() ==> {
            &&& is_plain(kids[i])
            &&& kids[i] is Leaf == (h == 0)
            &&& spine(kids[i]) == h
            &&& upper_len(shape::fence_of(kids[i])) <= k
            &&& i < seps.len() ==> shape::fence_of(kids[i]).upper == Some(seps[i])
            &&& i > 0 ==> shape::fence_of(kids[i]).lower == seps[i - 1]
        }
}

/// What merging makes of a row is a row under the same fence, in which no two side by
/// side could be one.
#[verifier::rlimit(60)]
#[verifier::spinoff_prover]
proof fn merges_stand_apart(
    config: CowBeTreeConfig,
    k: nat,
    kids: Seq<TreeView>,
    seps: Seq<Seq<u8>>,
    h: nat,
    i: int,
)
    requires
        k <= u16::MAX,
        0 <= i,
        is_row(kids, seps, k, h),
        forall|j: int|
            #![trigger kids[j]]
            0 <= j < i && j + 1 < kids.len() ==> stands_apart(config, k, kids[j], kids[j + 1]),
    ensures
        ({
            let m = compact::merges(config, kids, seps, i);
            &&& is_row(m.0, m.1, k, h)
            &&& shape::fence_of(m.0[0]).lower == shape::fence_of(kids[0]).lower
            &&& shape::fence_of(m.0.last()).upper == shape::fence_of(kids.last()).upper
            &&& forall|j: int|
                #![trigger m.0[j]]
                0 <= j && j + 1 < m.0.len() ==> stands_apart(config, k, m.0[j], m.0[j + 1])
        }),
    decreases kids.len() - i,
{
    if i + 1 >= kids.len() {
    } else if compact::mergeable(config, kids[i], kids[i + 1], seps[i]) {
        let (l, r) = (kids[i], kids[i + 1]);
        let m = compact::merged(l, r, seps[i], 0);
        let kids2 = kids.update(i, m).remove(i + 1);
        let seps2 = seps.remove(i);
        assert(kids2.len() == kids.len() - 1);
        assert forall|j: int|
            #![trigger kids2[j]]
            0 <= j < kids2.len() implies {
            &&& is_plain(kids2[j])
            &&& kids2[j] is Leaf == (h == 0)
            &&& spine(kids2[j]) == h
            &&& upper_len(shape::fence_of(kids2[j])) <= k
            &&& j < seps2.len() ==> shape::fence_of(kids2[j]).upper == Some(seps2[j])
            &&& j > 0 ==> shape::fence_of(kids2[j]).lower == seps2[j - 1]
        } by {
            if j < i {
                assert(kids2[j] == kids[j]);
            } else if j == i {
                assert(kids2[j] == m);
                if l is Node {
                    assert(m->kids[0] == l->kids[0]);
                }
            } else {
                assert(kids2[j] == kids[j + 1]);
            }
        }
        assert forall|j: int|
            #![trigger kids2[j]]
            0 <= j < i && j + 1 < kids2.len() implies stands_apart(
            config,
            k,
            kids2[j],
            kids2[j + 1],
        ) by {
            assert(kids2[j] == kids[j]);
            assert(stands_apart(config, k, kids[j], kids[j + 1]));
            if j + 1 == i {
                more_stands_apart(config, k, kids[j], l, r, seps[i]);
            } else {
                assert(kids2[j + 1] == kids[j + 1]);
            }
        }
        merges_stand_apart(config, k, kids2, seps2, h, i);
        assert(shape::fence_of(kids2[0]).lower == shape::fence_of(kids[0]).lower);
        if i + 1 == kids.len() - 1 {
            assert(kids2.last() == m);
        } else {
            assert(kids2.last() == kids.last());
        }
    } else {
        refused_stand_apart(config, k, kids[i], kids[i + 1], seps[i]);
        merges_stand_apart(config, k, kids, seps, h, i + 1);
    }
}

/// A tree that is compacted keeps its fence and its height, and the children of its
/// root are a row in which no two side by side could be one.
#[verifier::rlimit(60)]
#[verifier::spinoff_prover]
proof fn compacted_stands(config: CowBeTreeConfig, k: nat, t: TreeView, h: nat, max: usize)
    requires
        k <= u16::MAX,
        shape::wf(t, h),
        shape::settled(t, max),
        uppers_within(t, k),
    ensures
        ({
            let c = compact::compacted(config, t);
            &&& shape::fence_of(c) == shape::fence_of(t)
            &&& c is Leaf == t is Leaf
            &&& is_plain(c)
            &&& spine(c) == h
            &&& c is Node ==> is_tight(config, k, t, c->kids, 0, c->kids.len() as int)
        }),
    decreases t,
{
    if t is Node {
        let kids = t->kids;
        let all = compact::compacted_all(config, kids);
        compact::compacted_each(config, kids);
        shape::wf_node(t, h);
        let kh = (h - 1) as nat;
        assert forall|i: int|
            #![trigger all[i]]
            0 <= i < all.len() implies {
            &&& is_plain(all[i])
            &&& all[i] is Leaf == (kh == 0)
            &&& spine(all[i]) == kh
            &&& upper_len(shape::fence_of(all[i])) <= k
            &&& i < t->separators.len() ==> shape::fence_of(all[i]).upper == Some(t->separators[i])
            &&& i > 0 ==> shape::fence_of(all[i]).lower == t->separators[i - 1]
        } by {
            assert(all[i] == compact::compacted(config, kids[i]));
            assert(shape::wf(kids[i], kh));
            assert(shape::settled(kids[i], max));
            assert(uppers_within(kids[i], k));
            assert(shape::fence_of(kids[i]) == shape::child_fence(
                shape::fence_of(t),
                t->separators,
                i,
            ));
            compacted_stands(config, k, kids[i], kh, max);
        }
        merges_stand_apart(config, k, all, t->separators, kh, 0);
        let n = kids.len() - 1;
        assert(shape::fence_of(all[0]) == shape::fence_of(kids[0])) by {
            assert(all[0] == compact::compacted(config, kids[0]));
            assert(shape::wf(kids[0], kh));
            assert(shape::settled(kids[0], max));
            assert(uppers_within(kids[0], k));
            compacted_stands(config, k, kids[0], kh, max);
        }
        assert(shape::fence_of(all[n]) == shape::fence_of(kids[n])) by {
            assert(all[n] == compact::compacted(config, kids[n]));
            assert(shape::wf(kids[n], kh));
            assert(shape::settled(kids[n], max));
            assert(uppers_within(kids[n], k));
            compacted_stands(config, k, kids[n], kh, max);
        }
        assert(shape::fence_of(kids[0]) == shape::child_fence(
            shape::fence_of(t),
            t->separators,
            0,
        ));
        assert(shape::fence_of(kids[n]) == shape::child_fence(
            shape::fence_of(t),
            t->separators,
            n,
        ));
        let m = compact::merges(config, all, t->separators, 0);
        assert(m.0[0] == compact::compacted(config, t)->kids[0]);
    }
}

/// A tree whose versions are reclaimed keeps its fence and its height, and where some
/// were, the children of its root are a row in which no two side by side could be one.
#[verifier::rlimit(60)]
#[verifier::spinoff_prover]
proof fn pruned_stands(
    config: CowBeTreeConfig,
    k: nat,
    t: TreeView,
    h: nat,
    max: usize,
    watermark: u64,
)
    requires
        k <= u16::MAX,
        shape::wf(t, h),
        shape::settled(t, max),
        uppers_within(t, k),
    ensures
        ({
            let c = gc_tree::pruned_tree(config, t, watermark);
            &&& shape::fence_of(c) == shape::fence_of(t)
            &&& c is Leaf == t is Leaf
            &&& is_plain(c)
            &&& spine(c) == h
            &&& c is Node && gc_tree::tree_result(t, watermark).versions_pruned > 0 ==> is_tight(
                config,
                k,
                t,
                c->kids,
                0,
                c->kids.len() as int,
            )
        }),
    decreases t,
{
    spine_is(t, h);
    if t is Node && gc_tree::tree_result(t, watermark).versions_pruned > 0 {
        let kids = t->kids;
        let all = gc_tree::pruned_all(config, kids, watermark);
        gc_tree::pruned_each(config, kids, watermark);
        shape::wf_node(t, h);
        let kh = (h - 1) as nat;
        assert forall|i: int|
            #![trigger all[i]]
            0 <= i < all.len() implies {
            &&& is_plain(all[i])
            &&& all[i] is Leaf == (kh == 0)
            &&& spine(all[i]) == kh
            &&& upper_len(shape::fence_of(all[i])) <= k
            &&& i < t->separators.len() ==> shape::fence_of(all[i]).upper == Some(t->separators[i])
            &&& i > 0 ==> shape::fence_of(all[i]).lower == t->separators[i - 1]
            &&& shape::fence_of(all[i]) == shape::fence_of(kids[i])
        } by {
            assert(all[i] == gc_tree::pruned_tree(config, kids[i], watermark));
            assert(shape::wf(kids[i], kh));
            assert(shape::settled(kids[i], max));
            assert(uppers_within(kids[i], k));
            assert(shape::fence_of(kids[i]) == shape::child_fence(
                shape::fence_of(t),
                t->separators,
                i,
            ));
            pruned_stands(config, k, kids[i], kh, max, watermark);
        }
        merges_stand_apart(config, k, all, t->separators, kh, 0);
        let n = kids.len() - 1;
        assert(shape::fence_of(all[0]) == shape::fence_of(kids[0]));
        assert(shape::fence_of(all[n]) == shape::fence_of(kids[n]));
        assert(shape::fence_of(kids[0]) == shape::child_fence(
            shape::fence_of(t),
            t->separators,
            0,
        ));
        assert(shape::fence_of(kids[n]) == shape::child_fence(
            shape::fence_of(t),
            t->separators,
            n,
        ));
        let m = compact::merges(config, all, t->separators, 0);
        assert(m.0[0] == gc_tree::pruned_tree(config, t, watermark)->kids[0]);
    }
}

/// Where versions of a settled tree were reclaimed, and it kept its height, no two
/// children of its root side by side could be one, and there are two or more.
#[verifier::rlimit(60)]
#[verifier::spinoff_prover]
pub proof fn reclaimed_tree_is_packed(
    config: CowBeTreeConfig,
    k: nat,
    before: TreeView,
    h: nat,
    max: usize,
    watermark: u64,
    after: TreeView,
)
    requires
        k <= u16::MAX,
        shape::wf(before, h),
        shape::settled(before, max),
        uppers_within(before, k),
        gc_tree::tree_result(before, watermark).versions_pruned > 0,
        shape::wf(after, h),
        after is Node,
        shape::alike(after, root::collapsed(gc_tree::pruned_tree(config, before, watermark))),
    ensures
        is_tight(config, k, before, after->kids, 0, after->kids.len() as int),
        after->kids.len() != 1,
{
    let p = gc_tree::pruned_tree(config, before, watermark);
    let c = root::collapsed(p);
    pruned_stands(config, k, before, h, max, watermark);
    spine_is(after, h);
    alike_spine(after, c);
    if p->kids.len() == 1 && p->buffer.len() == 0 {
        let x = p->kids[0];
        assert(spine(work::with_pid(x, shape::pid_of(p))) == spine(x));
    }
    assert(c == p);
    let (a, b) = (after->kids, p->kids);
    shape::alike_sym(after, p);
    assert(shape::fence_of(a[0]) == shape::fence_of(b[0])) by {
        assert(shape::alike(a[0], b[0]));
    }
    let n = a.len() - 1;
    assert(shape::fence_of(a[n]) == shape::fence_of(b[n])) by {
        assert(shape::alike(a[n], b[n]));
    }
    assert forall|i: int|
        #![trigger a[i]]
        0 <= i && i + 1 < a.len() implies stands_apart(config, k, a[i], a[i + 1]) by {
        assert(stands_apart(config, k, b[i], b[i + 1]));
        assert(shape::alike(b[i], a[i]));
        assert(shape::alike(b[i + 1], a[i + 1]));
        alike_stand_apart(config, k, b[i], b[i + 1], a[i], a[i + 1]);
    }
}

// ---------------------------------------------------------------------------
// Levels.

proof fn levels_add(a: Seq<TreeView>, b: Seq<TreeView>, th: nat, h: nat)
    ensures
        all_at_height(a + b, th, h) == all_at_height(a, th, h) + all_at_height(b, th, h),
    decreases b.len(),
{
    if b.len() == 0 {
        assert(a + b =~= a);
        assert(all_at_height(a, th, h) + all_at_height(b, th, h) =~= all_at_height(a, th, h));
    } else {
        levels_add(a, b.drop_last(), th, h);
        assert((a + b).drop_last() =~= a + b.drop_last());
        assert((a + b).last() == b.last());
        assert(all_at_height(a + b, th, h) =~= all_at_height(a, th, h) + all_at_height(b, th, h));
    }
}

proof fn level_of_one(t: TreeView, th: nat, h: nat)
    ensures
        all_at_height(seq![t], th, h) == at_height(t, th, h),
{
    reveal_with_fuel(at_height, 2);
    reveal_with_fuel(all_at_height, 2);
    assert(seq![t].drop_last() =~= Seq::<TreeView>::empty());
    assert(seq![t].last() == t);
    assert(all_at_height(seq![t], th, h) =~= at_height(t, th, h));
}

/// Merging root pages leaves what is below them.
proof fn merging_keeps_below(
    config: CowBeTreeConfig,
    kids: Seq<TreeView>,
    seps: Seq<Seq<u8>>,
    i: int,
    th: nat,
    h: nat,
)
    requires
        h < th,
    ensures
        all_at_height(compact::merges(config, kids, seps, i).0, th, h) == all_at_height(
            kids,
            th,
            h,
        ),
    decreases kids.len() - i,
{
    if i < 0 || i + 1 >= kids.len() {
    } else if compact::mergeable(config, kids[i], kids[i + 1], seps[i]) {
        let (l, r) = (kids[i], kids[i + 1]);
        let m = compact::merged(l, r, seps[i], 0);
        let kids2 = kids.update(i, m).remove(i + 1);
        merging_keeps_below(config, kids2, seps.remove(i), i, th, h);
        let front = kids.take(i);
        let back = kids.skip(i + 2);
        assert(kids =~= front + (seq![l] + (seq![r] + back)));
        assert(kids2 =~= front + (seq![m] + back));
        levels_add(front, seq![l] + (seq![r] + back), th, h);
        levels_add(seq![l], seq![r] + back, th, h);
        levels_add(seq![r], back, th, h);
        levels_add(front, seq![m] + back, th, h);
        levels_add(seq![m], back, th, h);
        level_of_one(l, th, h);
        level_of_one(r, th, h);
        level_of_one(m, th, h);
        if l is Node {
            levels_add(l->kids, r->kids, (th - 1) as nat, h);
        }
        assert(at_height(m, th, h) =~= at_height(l, th, h) + at_height(r, th, h));
        assert(all_at_height(kids2, th, h) =~= all_at_height(kids, th, h));
    } else {
        merging_keeps_below(config, kids, seps, i + 1, th, h);
    }
}

proof fn run_in_longer(
    config: CowBeTreeConfig,
    k: nat,
    p: TreeView,
    a: Seq<TreeView>,
    b: Seq<TreeView>,
)
    requires
        has_tight_run(config, k, p, a) || has_tight_run(config, k, p, b),
    ensures
        has_tight_run(config, k, p, a + b),
{
    let c = a + b;
    if has_tight_run(config, k, p, a) {
        let (lo, hi) = choose|lo: int, hi: int| #[trigger] is_tight(config, k, p, a, lo, hi);
        assert forall|i: int| #![trigger c[i]] lo <= i && i + 1 < hi implies stands_apart(
            config,
            k,
            c[i],
            c[i + 1],
        ) by {
            assert(c[i] == a[i] && c[i + 1] == a[i + 1]);
        }
        assert(is_tight(config, k, p, c, lo, hi));
    } else {
        let n = a.len() as int;
        let (lo, hi) = choose|lo: int, hi: int| #[trigger] is_tight(config, k, p, b, lo, hi);
        assert forall|i: int| #![trigger c[i]] n + lo <= i && i + 1 < n + hi implies stands_apart(
            config,
            k,
            c[i],
            c[i + 1],
        ) by {
            assert(c[i] == b[i - n] && c[i + 1] == b[i + 1 - n]);
        }
        assert(is_tight(config, k, p, c, n + lo, n + hi));
    }
}

/// Every subtree of height `h + 1` has a tight run among those of height `h` of the
/// compacted tree.
proof fn levels_are_tight(
    config: CowBeTreeConfig,
    k: nat,
    t: TreeView,
    th: nat,
    h: nat,
    max: usize,
)
    requires
        k <= u16::MAX,
        shape::wf(t, th),
        shape::settled(t, max),
        uppers_within(t, k),
        h < th,
    ensures
        forall|j: int|
            0 <= j < at_height(t, th, h + 1).len() ==> has_tight_run(
                config,
                k,
                #[trigger] at_height(t, th, h + 1)[j],
                at_height(compact::compacted(config, t), th, h),
            ),
    decreases t, 1nat,
{
    let c = compact::compacted(config, t);
    let kids = t->kids;
    let all = compact::compacted_all(config, kids);
    let kh = (th - 1) as nat;
    reveal_with_fuel(at_height, 2);
    reveal_with_fuel(all_at_height, 2);
    compacted_stands(config, k, t, th, max);
    if h + 1 >= th {
        same_height(c->kids, kh, h);
        let level = at_height(c, th, h);
        assert(level == c->kids);
        assert(is_tight(config, k, t, level, 0, level.len() as int));
        assert(has_tight_run(config, k, t, level));
        assert(at_height(t, th, h + 1) =~= seq![t]);
    } else {
        shape::wf_node(t, th);
        merging_keeps_below(config, all, t->separators, 0, kh, h);
        assert forall|i: int| 0 <= i < kids.len() implies shape::wf(#[trigger] kids[i], kh)
            && shape::settled(kids[i], max) && uppers_within(kids[i], k) by {}
        forest_is_tight(config, k, kids, kh, h, max);
        assert(at_height(t, th, h + 1) == all_at_height(kids, kh, h + 1));
        assert(at_height(c, th, h) == all_at_height(c->kids, kh, h));
    }
}

proof fn same_height(kids: Seq<TreeView>, th: nat, h: nat)
    requires
        h >= th,
    ensures
        all_at_height(kids, th, h) == kids,
    decreases kids.len(),
{
    reveal_with_fuel(at_height, 2);
    reveal_with_fuel(all_at_height, 2);
    if kids.len() > 0 {
        same_height(kids.drop_last(), th, h);
        assert(all_at_height(kids, th, h) =~= kids);
    } else {
        assert(all_at_height(kids, th, h) =~= kids);
    }
}

proof fn forest_is_tight(
    config: CowBeTreeConfig,
    k: nat,
    kids: Seq<TreeView>,
    th: nat,
    h: nat,
    max: usize,
)
    requires
        k <= u16::MAX,
        h < th,
        forall|i: int|
            0 <= i < kids.len() ==> shape::wf(#[trigger] kids[i], th) && shape::settled(
                kids[i],
                max,
            ) && uppers_within(kids[i], k),
    ensures
        forall|j: int|
            0 <= j < all_at_height(kids, th, h + 1).len() ==> has_tight_run(
                config,
                k,
                #[trigger] all_at_height(kids, th, h + 1)[j],
                all_at_height(compact::compacted_all(config, kids), th, h),
            ),
    decreases kids, 0nat,
{
    if kids.len() > 0 {
        let front = kids.drop_last();
        let t = kids.last();
        let c = compact::compacted(config, t);
        let all = compact::compacted_all(config, kids);
        assert forall|i: int| 0 <= i < front.len() implies shape::wf(#[trigger] front[i], th)
            && shape::settled(front[i], max) && uppers_within(front[i], k) by {
            assert(front[i] == kids[i]);
        }
        assert(t == kids[kids.len() - 1]);
        forest_is_tight(config, k, front, th, h, max);
        levels_are_tight(config, k, t, th, h, max);
        let done = compact::compacted_all(config, front);
        assert(all =~= done + seq![c]);
        levels_add(done, seq![c], th, h);
        level_of_one(c, th, h);
        let a = all_at_height(front, th, h + 1);
        let parents = all_at_height(kids, th, h + 1);
        assert forall|j: int| 0 <= j < parents.len() implies has_tight_run(
            config,
            k,
            #[trigger] parents[j],
            all_at_height(all, th, h),
        ) by {
            if j < a.len() {
                assert(parents[j] == a[j]);
            } else {
                assert(parents[j] == at_height(t, th, h + 1)[j - a.len()]);
            }
            run_in_longer(
                config,
                k,
                parents[j],
                all_at_height(done, th, h),
                at_height(c, th, h),
            );
        }
    }
}

/// Alike trees have alike trees at each height.
proof fn alike_levels(a: TreeView, b: TreeView, th: nat, h: nat)
    requires
        shape::alike(a, b),
    ensures
        shape::all_alike(at_height(a, th, h), at_height(b, th, h)),
    decreases a, 1nat,
{
    if h < th && a is Node {
        assert forall|i: int|
            #![trigger a->kids[i]]
            0 <= i < a->kids.len() implies shape::alike(a->kids[i], b->kids[i]) by {}
        all_alike_levels(a->kids, b->kids, (th - 1) as nat, h);
    }
}

proof fn all_alike_levels(a: Seq<TreeView>, b: Seq<TreeView>, th: nat, h: nat)
    requires
        shape::all_alike(a, b),
    ensures
        shape::all_alike(all_at_height(a, th, h), all_at_height(b, th, h)),
    decreases a, 0nat,
{
    if a.len() > 0 {
        let (x, y) = (a.drop_last(), b.drop_last());
        assert forall|i: int|
            #![trigger x[i]]
            #![trigger y[i]]
            0 <= i < x.len() implies shape::alike(x[i], y[i]) by {
            assert(shape::alike(a[i], b[i]));
        }
        all_alike_levels(x, y, th, h);
        assert(shape::alike(a[a.len() - 1], b[b.len() - 1]));
        alike_levels(a.last(), b.last(), th, h);
        let (p, q) = (all_at_height(a, th, h), all_at_height(b, th, h));
        let n = all_at_height(x, th, h).len();
        assert forall|i: int|
            #![trigger p[i]]
            #![trigger q[i]]
            0 <= i < p.len() implies shape::alike(p[i], q[i]) by {
            if i < n {
                assert(p[i] == all_at_height(x, th, h)[i]);
                assert(q[i] == all_at_height(y, th, h)[i]);
            } else {
                assert(p[i] == at_height(a.last(), th, h)[i - n]);
                assert(q[i] == at_height(b.last(), th, h)[i - n]);
            }
        }
    }
}

proof fn alike_run(
    config: CowBeTreeConfig,
    k: nat,
    p: TreeView,
    a: Seq<TreeView>,
    b: Seq<TreeView>,
)
    requires
        shape::all_alike(a, b),
        has_tight_run(config, k, p, a),
    ensures
        has_tight_run(config, k, p, b),
{
    let (lo, hi) = choose|lo: int, hi: int| #[trigger] is_tight(config, k, p, a, lo, hi);
    assert(shape::alike(a[lo], b[lo]));
    assert(shape::alike(a[hi - 1], b[hi - 1]));
    assert forall|i: int| #![trigger b[i]] lo <= i && i + 1 < hi implies stands_apart(
        config,
        k,
        b[i],
        b[i + 1],
    ) by {
        assert(stands_apart(config, k, a[i], a[i + 1]));
        assert(shape::alike(a[i], b[i]) && shape::alike(a[i + 1], b[i + 1]));
        alike_stand_apart(config, k, a[i], a[i + 1], b[i], b[i + 1]);
    }
    assert(is_tight(config, k, p, b, lo, hi));
}

/// A settled tree that is compacted is packed: of the trees of one height that now
/// cover what a node of it covered, no two side by side could be stored as one. They
/// have more entries, or more children, than are merged, or one page is too short for
/// them. (Two trees that met only when the nodes above them were merged may still fit
/// one page, and so may leaves between which stood a key longer than `k` bytes.)
pub proof fn compacted_tree_is_packed(
    config: CowBeTreeConfig,
    k: nat,
    before: TreeView,
    bh: nat,
    after: TreeView,
    ah: nat,
    max: usize,
)
    requires
        k <= u16::MAX,
        shape::wf(before, bh),
        shape::settled(before, max),
        uppers_within(before, k),
        shape::wf(after, ah),
        shape::alike(after, root::collapsed(compact::compacted(config, before))),
    ensures
        is_packed(config, k, before, bh, after, ah),
        ah == bh && after is Node ==> after->kids.len() != 1,
{
    let c = compact::compacted(config, before);
    let e = root::collapsed(c);
    compacted_stands(config, k, before, bh, max);
    spine_is(after, ah);
    alike_spine(after, e);
    shape::alike_sym(after, e);
    if c is Node && c->kids.len() == 1 {
        shape::alike_refl(c->kids[0]);
        alike_spine(c->kids[0], e);
    }
    assert forall|h: nat, j: int|
        #![trigger at_height(before, bh, h + 1)[j]]
        h < bh && 0 <= j < at_height(before, bh, h + 1).len() implies has_tight_run(
        config,
        k,
        at_height(before, bh, h + 1)[j],
        at_height(after, ah, h),
    ) by {
        let p = at_height(before, bh, h + 1)[j];
        levels_are_tight(config, k, before, bh, h, max);
        let level = at_height(c, bh, h);
        if c is Node && c->kids.len() == 1 {
            let d = c->kids[0];
            let kh = (bh - 1) as nat;
            assert(c->kids =~= seq![d]);
            level_of_one(d, kh, h);
            shape::alike_refl(d);
            assert(shape::alike(d, e));
            alike_spine(d, e);
            assert(ah == kh);
            alike_levels(d, e, kh, h);
            alike_run(config, k, p, level, at_height(e, kh, h));
        } else {
            assert(e == c && ah == bh);
        }
        alike_levels(e, after, ah, h);
        alike_run(config, k, p, at_height(e, ah, h), at_height(after, ah, h));
    }
}

} // verus!
