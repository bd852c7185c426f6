//! A node that has become smaller still has a place on a page.
use vstd::prelude::*;

use crate::betree::gc;
use crate::betree::layout;
use crate::betree::message::{MessageView, VersionView};
use crate::betree::node::{EntryView, FenceView, NodeView};
use crate::betree::work;
use crate::betree::writer;
use crate::bytes;

verus! {

broadcast use bytes::group_le;

/// A node without messages.
pub open spec fn bare(fence: FenceView, children: Seq<u64>, separators: Seq<Seq<u8>>) -> NodeView {
    NodeView::Internal { fence, children, separators, buffer: Seq::empty() }
}

proof fn bare_len(fence: FenceView, children: Seq<u64>, separators: Seq<Seq<u8>>)
    ensures
        layout::node_body(bare(fence, children, separators)).len() == layout::enc_fence(fence).len()
            + 6 + children.len() * 8 + layout::enc_keys(separators).len(),
{
    layout::flat_fixed(children, |w: u64| bytes::le64(w), 8);
    assert(layout::enc_messages(Seq::<MessageView>::empty()).len() == 0);
}

/// Fewer children and less for the separators: the node has a place on a page.
pub proof fn fewer_children_fit(
    fence: FenceView,
    c1: Seq<u64>,
    s1: Seq<Seq<u8>>,
    c2: Seq<u64>,
    s2: Seq<Seq<u8>>,
)
    requires
        work::fits_page(bare(fence, c1, s1)),
        c2.len() == s2.len() + 1,
        c2.len() <= c1.len(),
        layout::enc_keys(s2).len() <= layout::enc_keys(s1).len(),
        !writer::some_key_too_large(s2),
    ensures
        work::fits_page(bare(fence, c2, s2)),
{
    bare_len(fence, c1, s1);
    bare_len(fence, c2, s2);
    assert(c2.len() * 8 <= c1.len() * 8);
    assert(writer::messages_error(Seq::<MessageView>::empty(), 0) is None);
    assert(writer::node_error(bare(fence, c2, s2)) is None);
}

/// Other children in the same number: the node has a place on a page.
pub proof fn other_children_fit(fence: FenceView, c1: Seq<u64>, s: Seq<Seq<u8>>, c2: Seq<u64>)
    requires
        work::fits_page(bare(fence, c1, s)),
        c2.len() == c1.len(),
    ensures
        work::fits_page(bare(fence, c2, s)),
{
    fewer_children_fit(fence, c1, s, c2, s);
}

/// One child and one separator less: the node has a place on a page.
pub proof fn one_child_less_fits(
    fence: FenceView,
    c1: Seq<u64>,
    s1: Seq<Seq<u8>>,
    c2: Seq<u64>,
    i: int,
)
    requires
        work::fits_page(bare(fence, c1, s1)),
        0 <= i < s1.len(),
        c2.len() + 1 == c1.len(),
    ensures
        work::fits_page(bare(fence, c2, s1.remove(i))),
{
    let f = |k: Seq<u8>| layout::enc_bytes16(k);
    let s2 = s1.remove(i);
    layout::flat_split(s1, i, f);
    assert(s2 =~= s1.take(i) + s1.skip(i + 1));
    layout::flat_add(s1.take(i), s1.skip(i + 1), f);
    if writer::some_key_too_large(s2) {
        let j = choose|j: int| 0 <= j < s2.len() && (#[trigger] s2[j]).len() > u16::MAX;
        let k = if j < i { j } else { j + 1 };
        assert(s1[k] == s2[j]);
        assert(writer::some_key_too_large(s1));
    }
    fewer_children_fit(fence, c1, s1, c2, s2);
}

proof fn pruned_versions_are_fewer(vs: Seq<VersionView>, watermark: u64)
    ensures
        gc::pruned(vs, watermark).len() <= vs.len(),
        layout::enc_versions(gc::pruned(vs, watermark)).len() <= layout::enc_versions(vs).len(),
        forall|v: VersionView| #[trigger]
            gc::pruned(vs, watermark).contains(v) ==> vs.contains(v),
    decreases vs.len(),
{
    let f = |v: VersionView| layout::enc_version(v);
    if vs.len() > 0 {
        let front = vs.drop_last();
        let p = gc::pruned(front, watermark);
        pruned_versions_are_fewer(front, watermark);
        assert(vs =~= front.push(vs.last()));
        layout::flat_push(front, vs.last(), f);
        layout::flat_push(p, vs.last(), f);
        assert forall|v: VersionView| #[trigger]
            gc::pruned(vs, watermark).contains(v) implies vs.contains(v) by {
            let all = gc::pruned(vs, watermark);
            let i = choose|i: int| 0 <= i < all.len() && all[i] == v;
            if i < p.len() {
                assert(p[i] == v && p.contains(v));
                assert(front.contains(v));
                let j = choose|j: int| 0 <= j < front.len() && front[j] == v;
                assert(vs[j] == v);
            } else {
                assert(vs[vs.len() - 1] == v);
            }
        }
    }
}

proof fn pruned_entry_is_smaller(e: EntryView, watermark: u64)
    requires
        layout::entry_fits(e),
    ensures
        ({
            let p = EntryView { key: e.key, versions: gc::pruned(e.versions, watermark) };
            layout::entry_fits(p) && layout::enc_entry(p).len() <= layout::enc_entry(e).len()
        }),
{
    let p = gc::pruned(e.versions, watermark);
    pruned_versions_are_fewer(e.versions, watermark);
    assert forall|i: int| 0 <= i < p.len() implies layout::version_fits(#[trigger] p[i]) by {
        assert(p.contains(p[i]));
        let j = choose|j: int| 0 <= j < e.versions.len() && e.versions[j] == p[i];
        assert(layout::version_fits(e.versions[j]));
    }
}

proof fn pruned_entries_are_smaller(es: Seq<EntryView>, watermark: u64, n: int)
    requires
        0 <= n <= es.len(),
        forall|j: int| 0 <= j < es.len() ==> layout::entry_fits(#[trigger] es[j]),
    ensures
        layout::enc_entries(gc::pruned_entries(es, watermark).take(n)).len()
            <= layout::enc_entries(es.take(n)).len(),
    decreases n,
{
    let f = |e: EntryView| layout::enc_entry(e);
    let ps = gc::pruned_entries(es, watermark);
    if n > 0 {
        pruned_entries_are_smaller(es, watermark, n - 1);
        assert(layout::entry_fits(es[n - 1]));
        pruned_entry_is_smaller(es[n - 1], watermark);
        layout::flat_split(es, n - 1, f);
        layout::flat_split(ps, n - 1, f);
    }
}

/// A leaf that was pruned has a place on a page.
pub proof fn pruned_leaf_fits(fence: FenceView, es: Seq<EntryView>, watermark: u64)
    requires
        work::fits_page(NodeView::Leaf { fence, entries: es }),
    ensures
        work::fits_page(
            NodeView::Leaf { fence, entries: gc::pruned_entries(es, watermark) },
        ),
{
    let base = layout::leaf_base(fence);
    let ps = gc::pruned_entries(es, watermark);
    writer::entries_error_none(base, es, 0);
    assert forall|j: int| 0 <= j < es.len() implies layout::entry_fits(#[trigger] es[j]) by {}
    assert forall|j: int| 0 <= j < ps.len() implies layout::entry_fits(#[trigger] ps[j])
        && layout::entry_offset(base, ps, j) <= u32::MAX by {
        assert(layout::entry_fits(es[j]));
        pruned_entry_is_smaller(es[j], watermark);
        pruned_entries_are_smaller(es, watermark, j);
    }
    writer::entries_error_none(base, ps, 0);
    pruned_entries_are_smaller(es, watermark, es.len() as int);
    assert(es.take(es.len() as int) =~= es);
    assert(ps.take(ps.len() as int) =~= ps);
    let o = |x: u32| bytes::le32(x);
    layout::flat_fixed(layout::entry_offsets(base, es), o, 4);
    layout::flat_fixed(layout::entry_offsets(base, ps), o, 4);
}

/// A leaf without its last entry has a place on a page.
pub proof fn one_entry_less_fits(fence: FenceView, es: Seq<EntryView>, e: EntryView)
    requires
        work::fits_page(NodeView::Leaf { fence, entries: es.push(e) }),
    ensures
        work::fits_page(NodeView::Leaf { fence, entries: es }),
{
    let base = layout::leaf_base(fence);
    let all = es.push(e);
    writer::entries_error_none(base, all, 0);
    assert forall|j: int| 0 <= j < es.len() implies layout::entry_fits(#[trigger] es[j])
        && layout::entry_offset(base, es, j) <= u32::MAX by {
        assert(layout::entry_fits(all[j]));
        assert(all.take(j) =~= es.take(j));
    }
    writer::entries_error_none(base, es, 0);
    layout::flat_push(es, e, |e: EntryView| layout::enc_entry(e));
    let o = |x: u32| bytes::le32(x);
    layout::flat_fixed(layout::entry_offsets(base, es), o, 4);
    layout::flat_fixed(layout::entry_offsets(base, all), o, 4);
}

} // verus!
