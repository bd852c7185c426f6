//! What holds of B-link trees across operations.
use vstd::prelude::*;

use crate::betree::scan::RowView;
use crate::btree::contents;
use crate::btree::node::NodeView;
use crate::btree::scan;
use crate::btree::state;
use crate::btree::state::State;
use crate::btree::tree::BTree;
use crate::bytes;

verus! {

/// Some page is a leaf that holds the row.
pub open spec fn on_some_page(nodes: Seq<NodeView>, row: RowView) -> bool {
    exists|p: int|
        0 <= p < nodes.len() && (#[trigger] nodes[p] matches NodeView::Leaf { rows, .. }
            && rows.contains(row))
}

/// The rows of a tree are those of its pages.
pub proof fn rows_are_on_pages(s: State, row: RowView)
    requires
        state::inv(s),
        s.nodes.len() <= u64::MAX,
    ensures
        contents::rows(s).contains(row) <==> on_some_page(s.nodes, row),
{
    if contents::rows(s).contains(row) {
        let (j, a) = choose|j: int, a: int|
            #![trigger state::rows_at(s, j)[a]]
            0 <= j < s.order.len() && 0 <= a < state::rows_at(s, j).len() && state::rows_at(
                s,
                j,
            )[a] == row;
        let p = s.order[j];
        assert(state::is_leaf(s, p));
        assert(state::node_ok(s, p));
        assert(s.nodes[p as int]->rows[a] == row);
        assert(s.nodes[p as int] is Leaf);
    }
    if on_some_page(s.nodes, row) {
        let p = choose|p: int|
            0 <= p < s.nodes.len() && (#[trigger] s.nodes[p] matches NodeView::Leaf { rows, .. }
                && rows.contains(row));
        let pid = p as u64;
        assert(s.nodes[pid as int] is Leaf);
        assert(state::live(s, pid));
        assert(state::node_ok(s, pid));
        let j = state::lo(s, pid);
        assert(s.order[j] == pid);
        let a = choose|a: int| 0 <= a < s.nodes[p]->rows.len() && s.nodes[p]->rows[a] == row;
        assert(state::rows_at(s, j)[a] == row);
    }
}

/// A tree that is taken up again from its pages holds what it held.
pub proof fn reopened_tree_is_the_same(a: BTree, b: BTree)
    requires
        a.wf(),
        b.wf(),
        a.state().nodes == b.state().nodes,
        a.state().nodes.len() <= u64::MAX,
    ensures
        a@ == b@,
{
    assert(contents::rows(a.state()) =~= contents::rows(b.state())) by {
        assert forall|row: RowView|
            contents::rows(a.state()).contains(row) <==> contents::rows(b.state()).contains(
                row,
            ) by {
            rows_are_on_pages(a.state(), row);
            rows_are_on_pages(b.state(), row);
        }
    }
}

/// A scan and a lookup agree.
pub proof fn scan_agrees_with_lookup(
    t: BTree,
    wanted: spec_fn(Seq<u8>) -> bool,
    rows: Seq<RowView>,
    key: Seq<u8>,
    value: Seq<u8>,
)
    requires
        scan::are_entries(t@, wanted, rows),
        wanted(key),
    ensures
        rows.contains(RowView { key, value }) <==> t@.contains_key(key) && t@[key] == value,
{
    let row = RowView { key, value };
    assert(rows.contains(row) <==> t@.contains_key(row.key) && t@[row.key] == row.value && wanted(
        row.key,
    ));
}

/// A range of entries has one ascending order.
pub proof fn ascending_is_unique(
    map: Map<Seq<u8>, Seq<u8>>,
    wanted: spec_fn(Seq<u8>) -> bool,
    a: Seq<RowView>,
    b: Seq<RowView>,
)
    requires
        scan::ascending(a),
        scan::ascending(b),
        scan::are_entries(map, wanted, a),
        scan::are_entries(map, wanted, b),
    ensures
        a == b,
{
    assert forall|row: RowView| #[trigger] a.contains(row) <==> b.contains(row) by {}
    same_members(a, b);
}

proof fn same_members(a: Seq<RowView>, b: Seq<RowView>)
    requires
        scan::ascending(a),
        scan::ascending(b),
        forall|row: RowView| #[trigger] a.contains(row) <==> b.contains(row),
    ensures
        a == b,
    decreases a.len(),
{
    if a.len() == 0 {
        if b.len() > 0 {
            assert(b.contains(b[0]));
            assert(a.contains(b[0]));
        }
        assert(a =~= b);
    } else {
        assert(a.contains(a.last()));
        assert(b.contains(a.last()));
        assert(b.contains(b.last()));
        assert(a.contains(b.last()));
        let x = a.last();
        let y = b.last();
        let i = choose|i: int| 0 <= i < b.len() && b[i] == x;
        let j = choose|j: int| 0 <= j < a.len() && a[j] == y;
        if i < b.len() - 1 && j < a.len() - 1 {
            assert(bytes::lex_lt(b[i].key, b[b.len() - 1].key));
            assert(bytes::lex_lt(a[j].key, a[a.len() - 1].key));
            bytes::lex_lt_asymmetric(x.key, y.key);
        }
        assert(x == y);
        let a2 = a.drop_last();
        let b2 = b.drop_last();
        assert forall|row: RowView| #[trigger] a2.contains(row) <==> b2.contains(row) by {
            shorter(a, row);
            shorter(b, row);
        }
        same_members(a2, b2);
        assert(a =~= a2.push(x));
        assert(b =~= b2.push(y));
    }
}

/// What is in a sequence without its last row.
proof fn shorter(a: Seq<RowView>, row: RowView)
    requires
        a.len() > 0,
        scan::ascending(a),
    ensures
        a.drop_last().contains(row) <==> a.contains(row) && row != a.last(),
{
    let front = a.drop_last();
    if front.contains(row) {
        let i = choose|i: int| 0 <= i < front.len() && front[i] == row;
        assert(a[i] == row);
        bytes::lex_lt_irreflexive(row.key);
        assert(bytes::lex_lt(a[i].key, a[a.len() - 1].key));
    }
    if a.contains(row) && row != a.last() {
        let i = choose|i: int| 0 <= i < a.len() && a[i] == row;
        assert(front[i] == row);
    }
}

/// A descending scan is an ascending scan backwards.
pub proof fn descending_is_reversed(
    map: Map<Seq<u8>, Seq<u8>>,
    wanted: spec_fn(Seq<u8>) -> bool,
    up: Seq<RowView>,
    down: Seq<RowView>,
)
    requires
        scan::ascending(up),
        scan::descending(down),
        scan::are_entries(map, wanted, up),
        scan::are_entries(map, wanted, down),
    ensures
        down == up.reverse(),
{
    let back = down.reverse();
    assert forall|i: int, j: int|
        #![trigger back[i], back[j]]
        0 <= i < j < back.len() implies bytes::lex_lt(back[i].key, back[j].key) by {
        assert(back[i] == down[down.len() - 1 - i]);
        assert(back[j] == down[down.len() - 1 - j]);
    }
    assert forall|row: RowView| #[trigger] back.contains(row) <==> down.contains(row) by {
        if back.contains(row) {
            let i = choose|i: int| 0 <= i < back.len() && back[i] == row;
            assert(down[down.len() - 1 - i] == row);
        }
        if down.contains(row) {
            let i = choose|i: int| 0 <= i < down.len() && down[i] == row;
            assert(back[down.len() - 1 - i] == row);
        }
    }
    ascending_is_unique(map, wanted, up, back);
    assert(down =~= up.reverse());
}

/// A key that was inserted and then removed leaves what there was.
pub proof fn remove_undoes_insert(before: BTree, with: BTree, after: BTree, key: Seq<u8>, value: Seq<u8>)
    requires
        !before@.contains_key(key),
        with@ == before@.insert(key, value),
        after@ == with@.remove(key),
    ensures
        after@ == before@,
{
    assert(after@ =~= before@);
}

/// Every leaf is as deep as every other: between two levels each node has a
/// parent on the level above.
pub proof fn every_node_has_a_parent(t: BTree, p: u64)
    requires
        t.wf(),
        state::live(t.state(), p),
        p != t.state().root,
    ensures
        exists|q: u64, i: int|
            state::is_inner(t.state(), q) && 0 <= i < state::kids(t.state(), q).len()
                && #[trigger] state::kids(t.state(), q)[i] == p && state::level(t.state(), q)
                == state::level(t.state(), p) + 1,
{
    let s = t.state();
    let (q, i) = state::parent_exists(s, p);
    assert(state::node_ok(s, q));
    assert(state::kid_ok(s, q, i));
    assert(state::kids(s, q)[i] == p);
}

/// A key of the tree stands in the first leaf that reaches up to it.
pub proof fn key_stands_in_its_leaf(t: BTree, key: Seq<u8>, f: int)
    requires
        t.wf(),
        t@.contains_key(key),
        contents::is_target(t.state(), key, f),
    ensures
        state::rows_at(t.state(), f).contains(RowView { key, value: t@[key] }),
{
    let s = t.state();
    let v = choose|value: Seq<u8>| #[trigger]
        contents::rows(s).contains(RowView { key, value });
    assert(contents::rows(s).contains(RowView { key, value: v }));
    contents::keys_differ_in(s);
    contents::map_has(contents::rows(s), RowView { key, value: v });
    contents::target_holds(s, key, f, RowView { key, value: v });
}

} // verus!
