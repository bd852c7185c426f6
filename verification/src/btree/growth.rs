//! What a tree becomes when it grows: a leaf is cut, its parent gets room for the
//! separator by being cut in turn, and a root gets a root above it.
use vstd::prelude::*;

use crate::betree::scan::RowView;
use crate::btree::change;
use crate::btree::contents;
use crate::btree::grow;
use crate::btree::grow_inner;
use crate::btree::node;
use crate::btree::placing;
use crate::btree::state;
use crate::btree::state::State;
use crate::bytes;

verus! {

// ---------------------------------------------------------------------------
// Parents.

/// Node `pid` is child `i` of node `q`.
pub open spec fn is_parent(s: State, pid: u64, q: u64, i: int) -> bool {
    state::is_inner(s, q) && 0 <= i < state::kids(s, q).len() && state::kids(s, q)[i] == pid
}

/// The parent of a node and the place of the node in it; `None` for the root.
pub open spec fn parent(s: State, pid: u64) -> Option<(u64, int)> {
    if exists|q: u64, i: int| is_parent(s, pid, q, i) {
        Some(choose|q: u64, i: int| is_parent(s, pid, q, i))
    } else {
        None
    }
}

/// How many separators the parent of a node has.
pub open spec fn parent_load(s: State, pid: u64) -> nat {
    match parent(s, pid) {
        Some((q, _)) => state::seps(s, q).len(),
        None => 0,
    }
}

/// How many leaves are not below a node.
pub open spec fn outside(s: State, pid: u64) -> nat {
    let covered = state::hi(s, pid) - state::lo(s, pid);
    if covered <= s.order.len() {
        (s.order.len() - covered) as nat
    } else {
        0
    }
}

/// A parent is the parent.
pub proof fn parent_is(s: State, pid: u64, q: u64, i: int)
    requires
        state::inv(s),
        is_parent(s, pid, q, i),
    ensures
        parent(s, pid) == Some((q, i)),
        pid != s.root,
{
    let (q2, i2) = parent(s, pid)->0;
    assert(is_parent(s, pid, q2, i2));
    state::parent_is_unique(s, q, i, q2, i2);
    assert(state::node_ok(s, q));
    assert(state::kid_ok(s, q, i));
}

/// The root has no parent.
pub proof fn root_has_no_parent(s: State)
    requires
        state::inv(s),
    ensures
        parent(s, s.root) is None,
{
    if let Some((q, i)) = parent(s, s.root) {
        assert(is_parent(s, s.root, q, i));
        parent_is(s, s.root, q, i);
    }
}

/// Fewer leaves are outside a parent than outside one of several children.
pub proof fn parent_covers_more(s: State, pid: u64, q: u64, i: int)
    requires
        state::inv(s),
        is_parent(s, pid, q, i),
        state::seps(s, q).len() > 0,
    ensures
        outside(s, q) < outside(s, pid),
{
    assert(state::node_ok(s, q));
    assert(state::kid_ok(s, q, i));
    state::kid_inside(s, q, i);
    assert(state::node_ok(s, pid));
    if i > 0 {
        assert(state::kid_ok(s, q, i - 1));
        state::kid_inside(s, q, i - 1);
        assert(state::node_ok(s, state::kids(s, q)[i - 1]));
    }
}

// ---------------------------------------------------------------------------
// Inner nodes.

/// The tree once the parent of a node has room for a separator: while it has none it
/// is split, and a root gets a root above it. In a tree fewer leaves are outside the
/// parent than outside the node, and a split leaves the node a parent with fewer
/// separators.
pub open spec fn with_room(s: State, pid: u64, key_len: int) -> State
    decreases outside(s, pid), 1nat, parent_load(s, pid),
{
    match parent(s, pid) {
        None => change::with_root(change::with_free(s), s.nodes.len() as u64),
        Some((q, _)) => if node::can_insert_separator(state::seps(s, q), key_len) {
            s
        } else if outside(s, q) < outside(s, pid) {
            let t = inner_split(s, q);
            if outside(t, pid) == outside(s, pid) && parent_load(t, pid) < parent_load(s, pid) {
                with_room(t, pid, key_len)
            } else {
                t
            }
        } else {
            s
        },
    }
}

/// The tree after an inner node was split: it keeps the separators before the one in
/// the middle, that one goes to its parent, and those behind it to a new node.
pub open spec fn inner_split(s: State, pid: u64) -> State
    decreases outside(s, pid), 2nat, 0nat,
{
    let seps = state::seps(s, pid);
    let m = seps.len() as int / 2;
    let t = with_room(change::with_free(s), pid, seps[m].len() as int);
    let (q, i) = parent(t, pid)->0;
    grow_inner::split_inner(t, pid, m, s.nodes.len() as u64, q, i)
}

/// An inner node of `s` was cut in the middle, and page `sib` has what was behind.
pub open spec fn was_cut(s: State, t: State, pid: u64, sib: u64) -> bool {
    let seps = state::seps(s, pid);
    let kids = state::kids(s, pid);
    let m = seps.len() as int / 2;
    &&& state::is_inner(t, pid)
    &&& state::seps(t, pid) == seps.take(m)
    &&& state::kids(t, pid) == kids.take(m + 1)
    &&& state::is_inner(t, sib)
    &&& state::seps(t, sib) == seps.skip(m + 1)
    &&& state::kids(t, sib) == kids.skip(m + 1)
}

/// A child of a node that was cut has a parent with fewer separators.
pub proof fn cut_leaves_fewer(s: State, t: State, pid: u64, q: u64, i: int, sib: u64)
    requires
        state::inv(s),
        state::inv(t),
        is_parent(s, pid, q, i),
        state::seps(s, q).len() > 0,
        was_cut(s, t, q, sib),
    ensures
        parent_load(t, pid) < parent_load(s, pid),
{
    let m = state::seps(s, q).len() as int / 2;
    assert(state::node_ok(s, q));
    parent_is(s, pid, q, i);
    if i <= m {
        assert(is_parent(t, pid, q, i));
        parent_is(t, pid, q, i);
    } else {
        assert(is_parent(t, pid, sib, i - m - 1));
        parent_is(t, pid, sib, i - m - 1);
    }
}

// ---------------------------------------------------------------------------
// Leaves.

/// The tree after the leaf at index `f` was cut before row `m`, with `sep` before the
/// new leaf.
pub open spec fn leaf_split(s: State, f: int, m: int, sep: Seq<u8>) -> State {
    let t = with_room(change::with_free(s), s.order[f], sep.len() as int);
    let (q, i) = parent(t, s.order[f])->0;
    grow::split_leaf(t, f, m, s.nodes.len() as u64, q, i, sep)
}

/// The tree after the leaf at index `f` was split for a key.
pub open spec fn split_for(s: State, f: int, key: Seq<u8>) -> State {
    let rows = state::rows_at(s, f);
    let m = placing::cut(rows, key);
    leaf_split(s, f, m, rows[m - 1].key)
}

/// The tree after the leaf at index `f`, which has one row, was split and `row` put
/// into the leaf without rows that came of it.
pub open spec fn paired(s: State, f: int, row: RowView) -> State {
    let key = state::rows_at(s, f)[0].key;
    if bytes::lex_lt(row.key, key) {
        change::with_rows(leaf_split(s, f, 0, row.key), f, seq![row])
    } else {
        change::with_rows(leaf_split(s, f, 1, key), f + 1, seq![row])
    }
}

/// How many rows the leaf of a key has.
pub open spec fn target_len(s: State, key: Seq<u8>) -> nat {
    state::rows_at(s, contents::target(s, key)).len()
}

/// The tree after a row was written to the leaf of its key, which is split until
/// there is room. A split leaves the key a leaf with fewer rows.
pub open spec fn written(s: State, row: RowView) -> State
    decreases target_len(s, row.key),
{
    let f = contents::target(s, row.key);
    let rows = state::rows_at(s, f);
    if rows.len() == 0 || node::rows_len(placing::with_row(rows, row)) <= node::LEAF_CAPACITY {
        change::with_rows(s, f, placing::with_row(rows, row))
    } else if rows.len() == 1 {
        paired(s, f, row)
    } else {
        let t = split_for(s, f, row.key);
        if target_len(t, row.key) < target_len(s, row.key) {
            written(t, row)
        } else {
            t
        }
    }
}

} // verus!
