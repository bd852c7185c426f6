//! What reclaiming versions reports: as many versions and bytes as went, and as many
//! leaves as there are.
use vstd::prelude::*;

use crate::betree::compact;
use crate::betree::config::CowBeTreeConfig;
use crate::betree::gc;
use crate::betree::gc_tree;
use crate::betree::message;
use crate::betree::message::VersionView;
use crate::betree::node::EntryView;
use crate::betree::root;
use crate::betree::shape;
use crate::betree::shape::TreeView;
use crate::betree::tree;
use crate::betree::tree::CowBeTree;
use crate::betree::work;

verus! {

// ---------------------------------------------------------------------------
// What a tree holds.

/// Bytes of versions: 13 and the value each.
pub open spec fn bytes_of(vs: Seq<VersionView>) -> int
    decreases vs.len(),
{
    if vs.len() == 0 {
        0
    } else {
        bytes_of(vs.drop_last()) + 13 + vs.last().value.len()
    }
}

/// How many versions the entries have.
pub open spec fn versions_in(es: Seq<EntryView>) -> int
    decreases es.len(),
{
    if es.len() == 0 {
        0
    } else {
        versions_in(es.drop_last()) + es.last().versions.len()
    }
}

/// How many bytes the versions of the entries take.
pub open spec fn bytes_in(es: Seq<EntryView>) -> int
    decreases es.len(),
{
    if es.len() == 0 {
        0
    } else {
        bytes_in(es.drop_last()) + bytes_of(es.last().versions)
    }
}

/// Some number of the entries of each leaf, summed up over the leaves of a tree.
pub open spec fn over_leaves(t: TreeView, f: spec_fn(Seq<EntryView>) -> int) -> int
    decreases t,
{
    match t {
        TreeView::Leaf { entries, .. } => f(entries),
        TreeView::Node { kids, .. } => over_all(kids, f),
    }
}

pub open spec fn over_all(kids: Seq<TreeView>, f: spec_fn(Seq<EntryView>) -> int) -> int
    decreases kids,
{
    if kids.len() == 0 {
        0
    } else {
        over_all(kids.drop_last(), f) + over_leaves(kids.last(), f)
    }
}

/// How many versions the leaves of a tree hold.
pub open spec fn versions_held(t: TreeView) -> int {
    over_leaves(t, |es: Seq<EntryView>| versions_in(es))
}

/// How many bytes the versions in the leaves of a tree take.
pub open spec fn bytes_held(t: TreeView) -> int {
    over_leaves(t, |es: Seq<EntryView>| bytes_in(es))
}

/// How many leaves a tree has.
pub open spec fn leaves_held(t: TreeView) -> int {
    over_leaves(t, |es: Seq<EntryView>| 1int)
}

/// The versions of each entry can be counted in a machine word, as those of a list in
/// memory are.
pub open spec fn countable(es: Seq<EntryView>) -> bool {
    forall|i: int| 0 <= i < es.len() ==> (#[trigger] es[i]).versions.len() <= usize::MAX
}

pub open spec fn all_countable(t: TreeView) -> bool
    decreases t,
{
    match t {
        TreeView::Leaf { entries, .. } => countable(entries),
        TreeView::Node { kids, .. } => forall|i: int|
            0 <= i < kids.len() ==> all_countable(#[trigger] kids[i]),
    }
}

// ---------------------------------------------------------------------------
// Entries.

proof fn counted_together(a: Seq<EntryView>, b: Seq<EntryView>)
    ensures
        versions_in(a + b) == versions_in(a) + versions_in(b),
        bytes_in(a + b) == bytes_in(a) + bytes_in(b),
    decreases b.len(),
{
    if b.len() == 0 {
        assert(a + b =~= a);
    } else {
        assert((a + b).drop_last() =~= a + b.drop_last());
        counted_together(a, b.drop_last());
    }
}

proof fn bytes_went(vs: Seq<VersionView>, watermark: u64)
    ensures
        gc::pruned_bytes(vs, watermark) == bytes_of(vs) - bytes_of(gc::pruned(vs, watermark)),
        gc::pruned(vs, watermark).len() <= vs.len(),
        bytes_of(gc::pruned(vs, watermark)) <= bytes_of(vs),
    decreases vs.len(),
{
    if vs.len() > 0 {
        let front = vs.drop_last();
        bytes_went(front, watermark);
        let p = gc::pruned(front, watermark);
        assert(p.push(vs.last()).drop_last() =~= p);
    }
}

/// What pruning entries reports is what went.
pub proof fn entries_report_what_went(es: Seq<EntryView>, watermark: u64)
    requires
        countable(es),
    ensures
        ({
            let left = gc::pruned_entries(es, watermark);
            let r = gc::entries_result(es, watermark);
            &&& 0 <= versions_in(left) <= versions_in(es)
            &&& 0 <= bytes_in(left) <= bytes_in(es)
            &&& r.versions_pruned == message::clamp_usize(versions_in(es) - versions_in(left))
            &&& r.version_bytes_pruned == message::clamp_usize(bytes_in(es) - bytes_in(left))
            &&& versions_in(left) == versions_in(es) ==> left == es
        }),
    decreases es.len(),
{
    let left = gc::pruned_entries(es, watermark);
    if es.len() > 0 {
        let front = es.drop_last();
        assert(countable(front)) by {
            assert forall|i: int| 0 <= i < front.len() implies (#[trigger] front[i]).versions.len()
                <= usize::MAX by {
                assert(front[i] == es[i]);
            }
        }
        assert(es[es.len() - 1].versions.len() <= usize::MAX);
        entries_report_what_went(front, watermark);
        let lf = gc::pruned_entries(front, watermark);
        assert(left.drop_last() =~= lf);
        let vs = es.last().versions;
        bytes_went(vs, watermark);
        bytes_nonneg(gc::pruned(vs, watermark));
        gc::pruned_len(vs, watermark);
        assert(left.last().versions == gc::pruned(vs, watermark));
        if versions_in(left) == versions_in(es) {
            assert(lf == front);
            assert forall|i: int| 0 <= i < es.len() implies left[i] == es[i] by {
                if i < front.len() {
                    assert(lf[i] == front[i]);
                }
            }
            assert(left =~= es);
        }
    } else {
        assert(left =~= es);
    }
}

proof fn bytes_nonneg(vs: Seq<VersionView>)
    ensures
        bytes_of(vs) >= 0,
    decreases vs.len(),
{
    if vs.len() > 0 {
        bytes_nonneg(vs.drop_last());
    }
}

// ---------------------------------------------------------------------------
// Trees.

/// What is said of two leaves together is the sum of what is said of each.
spec fn is_sum(f: spec_fn(Seq<EntryView>) -> int) -> bool {
    forall|a: Seq<EntryView>, b: Seq<EntryView>| #[trigger] f(a + b) == f(a) + f(b)
}

proof fn over_both(a: Seq<TreeView>, b: Seq<TreeView>, f: spec_fn(Seq<EntryView>) -> int)
    ensures
        over_all(a + b, f) == over_all(a, f) + over_all(b, f),
    decreases b.len(),
{
    if b.len() == 0 {
        assert(a + b =~= a);
    } else {
        assert((a + b).drop_last() =~= a + b.drop_last());
        over_both(a, b.drop_last(), f);
    }
}

proof fn over_one(t: TreeView, f: spec_fn(Seq<EntryView>) -> int)
    ensures
        over_all(seq![t], f) == over_leaves(t, f),
{
    let s = seq![t];
    assert(s.drop_last() =~= Seq::<TreeView>::empty());
    assert(over_all(Seq::<TreeView>::empty(), f) == 0);
}

#[verifier::rlimit(40)]
#[verifier::spinoff_prover]
proof fn merging_keeps(
    config: CowBeTreeConfig,
    kids: Seq<TreeView>,
    separators: Seq<Seq<u8>>,
    i: int,
    f: spec_fn(Seq<EntryView>) -> int,
)
    requires
        is_sum(f),
    ensures
        over_all(compact::merges(config, kids, separators, i).0, f) == over_all(kids, f),
    decreases kids.len() - i,
{
    if 0 <= i && i + 1 < kids.len() {
        let (l, r, sep) = (kids[i], kids[i + 1], separators[i]);
        if compact::mergeable(config, l, r, sep) {
            let m = compact::merged(l, r, sep, 0);
            let kids2 = kids.update(i, m).remove(i + 1);
            merging_keeps(config, kids2, separators.remove(i), i, f);
            let (front, back) = (kids.take(i), kids.skip(i + 2));
            assert(kids =~= front + (seq![l] + seq![r]) + back);
            assert(kids2 =~= front + seq![m] + back);
            over_both(front + (seq![l] + seq![r]), back, f);
            over_both(front, seq![l] + seq![r], f);
            over_both(seq![l], seq![r], f);
            over_both(front + seq![m], back, f);
            over_both(front, seq![m], f);
            over_one(l, f);
            over_one(r, f);
            over_one(m, f);
            if l is Leaf {
                assert(f(l->entries + r->entries) == f(l->entries) + f(r->entries));
            } else {
                over_both(l->kids, r->kids, f);
            }
        } else {
            merging_keeps(config, kids, separators, i + 1, f);
        }
    }
}

proof fn alike_hold(a: TreeView, b: TreeView, f: spec_fn(Seq<EntryView>) -> int)
    requires
        shape::alike(a, b),
    ensures
        over_leaves(a, f) == over_leaves(b, f),
    decreases a,
{
    if a is Node {
        all_alike_hold(a->kids, b->kids, f);
    }
}

proof fn all_alike_hold(a: Seq<TreeView>, b: Seq<TreeView>, f: spec_fn(Seq<EntryView>) -> int)
    requires
        a.len() == b.len(),
        forall|i: int| 0 <= i < a.len() ==> shape::alike(#[trigger] a[i], b[i]),
    ensures
        over_all(a, f) == over_all(b, f),
    decreases a,
{
    if a.len() > 0 {
        assert(shape::alike(a[a.len() - 1], b[a.len() - 1]));
        alike_hold(a.last(), b.last(), f);
        assert forall|i: int| 0 <= i < a.drop_last().len() implies shape::alike(
            #[trigger] a.drop_last()[i],
            b.drop_last()[i],
        ) by {
            assert(shape::alike(a[i], b[i]));
        }
        all_alike_hold(a.drop_last(), b.drop_last(), f);
    }
}

/// What pruning a tree without waiting messages reports is what went.
#[verifier::rlimit(40)]
#[verifier::spinoff_prover]
proof fn tree_reports(config: CowBeTreeConfig, t: TreeView, watermark: u64)
    requires
        all_countable(t),
    ensures
        ({
            let p = gc_tree::pruned_tree(config, t, watermark);
            let r = gc_tree::tree_result(t, watermark);
            &&& 0 <= versions_held(p) <= versions_held(t)
            &&& 0 <= bytes_held(p) <= bytes_held(t)
            &&& 0 <= leaves_held(t)
            &&& r.versions_pruned == message::clamp_usize(versions_held(t) - versions_held(p))
            &&& r.version_bytes_pruned == message::clamp_usize(bytes_held(t) - bytes_held(p))
            &&& r.leaf_pages_visited == message::clamp_usize(leaves_held(t))
        }),
    decreases t,
{
    let p = gc_tree::pruned_tree(config, t, watermark);
    let versions = |es: Seq<EntryView>| versions_in(es);
    let bytes = |es: Seq<EntryView>| bytes_in(es);
    match t {
        TreeView::Leaf { entries, .. } => {
            entries_report_what_went(entries, watermark);
        },
        TreeView::Node { separators, kids, .. } => {
            trees_report(config, kids, watermark);
            let each = gc_tree::pruned_all(config, kids, watermark);
            if gc_tree::tree_result(t, watermark).versions_pruned != 0 {
                assert(is_sum(versions) && is_sum(bytes)) by {
                    assert forall|a: Seq<EntryView>, b: Seq<EntryView>| #[trigger] versions(a + b)
                        == versions(a) + versions(b) by {
                        counted_together(a, b);
                    }
                    assert forall|a: Seq<EntryView>, b: Seq<EntryView>| #[trigger] bytes(a + b)
                        == bytes(a) + bytes(b) by {
                        counted_together(a, b);
                    }
                }
                merging_keeps(config, each, separators, 0, versions);
                merging_keeps(config, each, separators, 0, bytes);
            }
        },
    }
}

#[verifier::rlimit(40)]
#[verifier::spinoff_prover]
proof fn trees_report(config: CowBeTreeConfig, kids: Seq<TreeView>, watermark: u64)
    requires
        forall|i: int| 0 <= i < kids.len() ==> all_countable(#[trigger] kids[i]),
    ensures
        ({
            let versions = |es: Seq<EntryView>| versions_in(es);
            let bytes = |es: Seq<EntryView>| bytes_in(es);
            let one = |es: Seq<EntryView>| 1int;
            let p = gc_tree::pruned_all(config, kids, watermark);
            let r = gc_tree::forest_result(kids, watermark);
            &&& 0 <= over_all(p, versions) <= over_all(kids, versions)
            &&& 0 <= over_all(p, bytes) <= over_all(kids, bytes)
            &&& 0 <= over_all(kids, one)
            &&& r.versions_pruned == message::clamp_usize(
                over_all(kids, versions) - over_all(p, versions),
            )
            &&& r.version_bytes_pruned == message::clamp_usize(
                over_all(kids, bytes) - over_all(p, bytes),
            )
            &&& r.leaf_pages_visited == message::clamp_usize(over_all(kids, one))
            &&& r.versions_pruned == 0 ==> r.version_bytes_pruned == 0
        }),
    decreases kids,
{
    if kids.len() > 0 {
        let front = kids.drop_last();
        assert forall|i: int| 0 <= i < front.len() implies all_countable(#[trigger] front[i]) by {
            assert(front[i] == kids[i]);
        }
        assert(all_countable(kids[kids.len() - 1]));
        trees_report(config, front, watermark);
        tree_reports(config, kids.last(), watermark);
        let pf = gc_tree::pruned_all(config, front, watermark);
        assert(gc_tree::pruned_all(config, kids, watermark).drop_last() =~= pf);
    }
}

/// What [`CowBeTree::prune_versions`] reports of a settled tree is what went: the tree
/// holds that many versions less, which took that many bytes, and every leaf that it
/// had was visited. Counters stop at their maximum.
#[verifier::rlimit(40)]
#[verifier::spinoff_prover]
pub proof fn reclaiming_reports_what_went(pre: CowBeTree, post: CowBeTree, watermark: u64)
    requires
        all_countable(pre.tree()),
        shape::alike(
            post.tree(),
            tree::reclaimed_tree(pre.options(), pre.tree(), watermark),
        ),
    ensures
        ({
            let r = gc_tree::tree_result(pre.tree(), watermark);
            &&& versions_held(post.tree()) <= versions_held(pre.tree())
            &&& r.versions_pruned == message::clamp_usize(
                versions_held(pre.tree()) - versions_held(post.tree()),
            )
            &&& r.version_bytes_pruned == message::clamp_usize(
                bytes_held(pre.tree()) - bytes_held(post.tree()),
            )
            &&& r.leaf_pages_visited == message::clamp_usize(leaves_held(pre.tree()))
        }),
{
    let versions = |es: Seq<EntryView>| versions_in(es);
    let bytes = |es: Seq<EntryView>| bytes_in(es);
    let p = gc_tree::pruned_tree(pre.options(), pre.tree(), watermark);
    tree_reports(pre.options(), pre.tree(), watermark);
    alike_hold(
        post.tree(),
        tree::reclaimed_tree(pre.options(), pre.tree(), watermark),
        versions,
    );
    alike_hold(
        post.tree(),
        tree::reclaimed_tree(pre.options(), pre.tree(), watermark),
        bytes,
    );
    if p is Node && p->kids.len() == 1 {
        let c = p->kids[0];
        assert(p->kids =~= seq![c]);
        over_one(c, versions);
        over_one(c, bytes);
        let on_root = work::with_pid(c, shape::pid_of(p));
        assert(root::collapsed(p) == on_root || root::collapsed(p) == p);
        assert(over_leaves(on_root, versions) == over_leaves(c, versions));
        assert(over_leaves(on_root, bytes) == over_leaves(c, bytes));
    }
}

} // verus!
