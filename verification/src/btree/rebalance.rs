//! What a tree becomes when a leaf has lost a row: neighbours are merged, a
//! separator is lowered, and a root with one child is dropped.
use vstd::prelude::*;

use crate::betree::scan::RowView;
use crate::btree::change;
use crate::btree::contents;
use crate::btree::merge_inner;
use crate::btree::merge_leaf;
use crate::btree::node;
use crate::btree::state;
use crate::btree::state::State;

verus! {

/// `i` is the first place of the child.
pub open spec fn first_place(kids: Seq<u64>, child: u64, i: int) -> bool {
    0 <= i < kids.len() && kids[i] == child && forall|k: int| 0 <= k < i ==> kids[k] != child
}

/// The place of a child in a node, if it is one of an inner node.
pub open spec fn place(s: State, q: u64, child: u64) -> Option<int> {
    if state::is_inner(s, q) && state::kids(s, q).contains(child) {
        Some(choose|i: int| first_place(state::kids(s, q), child, i))
    } else {
        None
    }
}

/// A first place is the place.
pub proof fn place_is(s: State, q: u64, child: u64, i: int)
    requires
        state::is_inner(s, q),
        first_place(state::kids(s, q), child, i),
    ensures
        place(s, q, child) == Some(i),
{
    let kids = state::kids(s, q);
    assert(kids.contains(child));
    let j = choose|j: int| first_place(kids, child, j);
    assert(first_place(kids, child, j));
    if i < j {
        assert(kids[i] != child);
    } else if j < i {
        assert(kids[j] != child);
    }
}

// ---------------------------------------------------------------------------
// Two neighbours.

/// The rows of two leaves that are children `i` and `i + 1` of `q`.
pub open spec fn pair_rows(s: State, q: u64, i: int) -> Seq<RowView> {
    let f = state::lo(s, state::kids(s, q)[i]);
    state::rows_at(s, f) + state::rows_at(s, f + 1)
}

/// Both leaves fit one page.
pub open spec fn leaves_fit(s: State, q: u64, i: int) -> bool {
    node::rows_len(pair_rows(s, q, i)) <= node::LEAF_CAPACITY
}

/// The separator behind two leaves once they are merged: their greatest key, or
/// the one that was between them if they are empty. It is left as it is where
/// there is no room for another, or none behind them.
pub open spec fn merged_sep(s: State, q: u64, i: int) -> Option<Seq<u8>> {
    let seps = state::seps(s, q);
    let rows = pair_rows(s, q, i);
    let sep = if rows.len() > 0 {
        rows.last().key
    } else {
        seps[i]
    };
    if i + 1 < seps.len() && node::seps_len(merge_leaf::merged_seps(seps, i, Some(sep)))
        <= node::INNER_CAPACITY {
        Some(sep)
    } else {
        None
    }
}

/// Leaf `i + 1` of `q` merged into leaf `i`.
pub open spec fn leaves_merged(s: State, q: u64, i: int) -> State {
    merge_leaf::merge_leaf(s, state::lo(s, state::kids(s, q)[i]), q, i, merged_sep(s, q, i))
}

/// Children `i` and `i + 1` of `q`, inner nodes, fit one page with the separator
/// between them.
pub open spec fn inners_fit(s: State, q: u64, i: int) -> bool {
    node::seps_len(
        state::seps(s, state::kids(s, q)[i]).push(state::seps(s, q)[i]) + state::seps(
            s,
            state::kids(s, q)[i + 1],
        ),
    ) <= node::INNER_CAPACITY
}

/// Inner node `i + 1` of `q` merged into inner node `i`.
pub open spec fn inners_merged(s: State, q: u64, i: int) -> State {
    merge_inner::merge_inner(s, q, i, None)
}

/// Which two leaves are merged for the one at `pos`: with the neighbour to the
/// right, or else with the one to the left.
pub open spec fn leaf_pair(s: State, q: u64, pos: int) -> Option<int> {
    if pos < state::seps(s, q).len() && leaves_fit(s, q, pos) {
        Some(pos)
    } else if pos > 0 && leaves_fit(s, q, pos - 1) {
        Some(pos - 1)
    } else {
        None
    }
}

/// The same for inner nodes.
pub open spec fn inner_pair(s: State, q: u64, pos: int) -> Option<int> {
    if pos < state::seps(s, q).len() && inners_fit(s, q, pos) {
        Some(pos)
    } else if pos > 0 && inners_fit(s, q, pos - 1) {
        Some(pos - 1)
    } else {
        None
    }
}

// ---------------------------------------------------------------------------
// Up the path.

/// What is left of a tree and of a path, and whether there was a merge.
pub struct Merged {
    pub state: State,
    pub path: Seq<u64>,
    pub done: bool,
}

pub open spec fn not_merged(s: State, path: Seq<u64>) -> Merged {
    Merged { state: s, path, done: false }
}

/// An inner node is small enough to be merged.
pub open spec fn is_small(s: State, q: u64) -> bool {
    node::INNER_CAPACITY - node::seps_len(state::seps(s, q)) > node::UNDERFULL_THRESHOLD
}

/// After a parent has lost a child: as the root it is dropped if it has one child
/// left, and elsewhere it is merged in turn if it is small.
pub open spec fn settled(s: State, q: u64, path: Seq<u64>) -> (State, Seq<u64>)
    decreases path.len(), 1int,
{
    if q == s.root {
        if state::seps(s, q).len() == 0 {
            (merge_inner::without_root(s), path)
        } else {
            (s, path)
        }
    } else if is_small(s, q) {
        let m = inner_merged(s, path, q);
        (m.state, m.path)
    } else {
        (s, path)
    }
}

/// After an inner node was to be merged under the parent that the path names.
pub open spec fn inner_merged(s: State, path: Seq<u64>, child: u64) -> Merged
    decreases path.len(), 0int,
{
    if path.len() == 0 {
        not_merged(s, path)
    } else {
        let q = path.last();
        let rest = path.drop_last();
        match place(s, q, child) {
            None => not_merged(s, rest),
            Some(pos) => match inner_pair(s, q, pos) {
                None => not_merged(s, rest),
                Some(i) => {
                    let (t, left) = settled(inners_merged(s, q, i), q, rest);
                    Merged { state: t, path: left, done: true }
                },
            },
        }
    }
}

/// After a leaf was to be merged under the parent that the path names.
pub open spec fn leaf_merged(s: State, path: Seq<u64>, leaf: u64) -> Merged {
    if path.len() == 0 {
        not_merged(s, path)
    } else {
        let q = path.last();
        let rest = path.drop_last();
        match place(s, q, leaf) {
            None => not_merged(s, rest),
            Some(pos) => match leaf_pair(s, q, pos) {
                None => not_merged(s, rest),
                Some(i) => {
                    let (t, left) = settled(leaves_merged(s, q, i), q, rest);
                    Merged { state: t, path: left, done: true }
                },
            },
        }
    }
}

/// After the separator behind a node was to become `key`: it stands in the first
/// node up the path of which the node is not the end, and is left as it is where
/// the key has no room.
pub open spec fn sep_lowered(s: State, path: Seq<u64>, child: u64, key: Seq<u8>) -> (State, Seq<u64>)
    decreases path.len(),
{
    if path.len() == 0 {
        (s, path)
    } else {
        let q = path.last();
        let rest = path.drop_last();
        match place(s, q, child) {
            None => (s, rest),
            Some(pos) => if pos >= state::seps(s, q).len() {
                sep_lowered(s, rest, q, key)
            } else if node::seps_len(state::seps(s, q).update(pos, key)) <= node::INNER_CAPACITY {
                (merge_inner::with_sep(s, q, pos, key), rest)
            } else {
                (s, rest)
            },
        }
    }
}

/// After the greatest key of a leaf was removed and `new_max` became the
/// greatest.
pub open spec fn repaired(s: State, path: Seq<u64>, leaf: u64, new_max: Option<Seq<u8>>) -> (
    State,
    Seq<u64>,
) {
    match new_max {
        Some(key) => sep_lowered(s, path, leaf, key),
        None => (s, path),
    }
}

/// A leaf with these rows is small enough to be merged.
pub open spec fn is_small_leaf(rows: Seq<RowView>) -> bool {
    node::LEAF_CAPACITY - node::rows_len(rows) > node::UNDERFULL_THRESHOLD
}

/// After the row of a key that is there was removed, which stood at `pos` in its
/// leaf.
pub open spec fn removed_at(s: State, key: Seq<u8>, pos: int) -> State {
    let f = contents::target(s, key);
    let rows = state::rows_at(s, f);
    let left = rows.remove(pos);
    let was_max = pos + 1 == rows.len();
    rebalanced(
        change::with_rows(s, f, left),
        contents::way(s, s.root, key),
        s.order[f],
        was_max,
        if was_max && left.len() > 0 {
            Some(left.last().key)
        } else {
            None
        },
        is_small_leaf(left),
    ).0
}

/// The tree after a key was removed: its row is taken out of its leaf, and the
/// tree is rebalanced up the way to the leaf. Without the key nothing changes.
pub open spec fn removed(s: State, key: Seq<u8>) -> State {
    let rows = state::rows_at(s, contents::target(s, key));
    if exists|i: int| 0 <= i < rows.len() && (#[trigger] rows[i]).key == key {
        removed_at(s, key, choose|i: int| 0 <= i < rows.len() && (#[trigger] rows[i]).key == key)
    } else {
        s
    }
}

/// After a row was taken out of a leaf: the leaf is merged if it should be, or
/// else the separator behind it is lowered if its greatest key is gone.
pub open spec fn rebalanced(
    s: State,
    path: Seq<u64>,
    leaf: u64,
    deleted_was_max: bool,
    new_max: Option<Seq<u8>>,
    should_merge: bool,
) -> (State, Seq<u64>) {
    let m = if should_merge {
        leaf_merged(s, path, leaf)
    } else {
        not_merged(s, path)
    };
    if deleted_was_max && !m.done {
        repaired(m.state, m.path, leaf, new_max)
    } else {
        (m.state, m.path)
    }
}

} // verus!
