//! Where an entry goes: what becomes of the leaf of its key.
use vstd::prelude::*;

use crate::betree::scan::RowView;
use crate::btree::change;
use crate::btree::node;
use crate::btree::state;
use crate::btree::state::State;
use crate::bytes;

verus! {

/// The rows of the leaves, from left to right.
pub open spec fn leaves(s: State) -> Seq<Seq<RowView>> {
    Seq::new(s.order.len(), |j: int| state::rows_at(s, j))
}

/// Where `key` stands among the rows of a leaf, or would.
pub open spec fn pos(rows: Seq<RowView>, key: Seq<u8>) -> int {
    choose|p: int| node::is_pos(rows, key, p)
}

/// Rows with another at its place, instead of the one with its key if there is one.
pub open spec fn with_row(rows: Seq<RowView>, row: RowView) -> Seq<RowView> {
    let p = pos(rows, row.key);
    if p < rows.len() && rows[p].key == row.key {
        rows.update(p, row)
    } else {
        rows.insert(p, row)
    }
}

/// How many rows of a leaf stay when it is split for `key`: up to the one in the
/// middle. Of two rows only the first stays, unless the key is behind both.
pub open spec fn cut(rows: Seq<RowView>, key: Seq<u8>) -> int {
    if rows.len() == 2 && !bytes::lex_lt(rows[1].key, key) {
        1
    } else {
        rows.len() as int / 2 + 1
    }
}

/// The leaves that a leaf becomes when a row is written to it: itself if there is
/// room. Otherwise two leaves, if it has one row; else it is cut, and the half of the
/// key is written to.
pub open spec fn parts(rows: Seq<RowView>, row: RowView) -> Seq<Seq<RowView>>
    decreases rows.len(),
{
    let m = cut(rows, row.key);
    if rows.len() == 0 || node::rows_len(with_row(rows, row)) <= node::LEAF_CAPACITY {
        seq![with_row(rows, row)]
    } else if rows.len() == 1 {
        if bytes::lex_lt(row.key, rows[0].key) {
            seq![seq![row], rows]
        } else {
            seq![rows, seq![row]]
        }
    } else if bytes::lex_lt(rows[m - 1].key, row.key) {
        seq![rows.take(m)] + parts(rows.skip(m), row)
    } else {
        parts(rows.take(m), row).push(rows.skip(m))
    }
}

/// Leaves with a row written to the one at index `f`.
pub open spec fn grown(ls: Seq<Seq<RowView>>, f: int, row: RowView) -> Seq<Seq<RowView>> {
    ls.take(f) + parts(ls[f], row) + ls.skip(f + 1)
}

/// A key has one place among rows.
pub proof fn pos_is(rows: Seq<RowView>, key: Seq<u8>, p: int)
    requires
        node::is_pos(rows, key, p),
    ensures
        pos(rows, key) == p,
{
    let q = pos(rows, key);
    assert(node::is_pos(rows, key, q));
    if q < p {
        assert(bytes::lex_lt(rows[q].key, key));
    }
    if p < q {
        assert(bytes::lex_lt(rows[p].key, key));
    }
}

/// Other rows in one leaf leave the other leaves alone.
pub proof fn leaves_with(t: State, u: State, f: int, rows: Seq<RowView>)
    requires
        state::inv(t),
        0 <= f < t.order.len(),
        u == change::with_rows(t, f, rows),
    ensures
        u.order == t.order,
        forall|j: int|
            0 <= j < t.order.len() ==> #[trigger] state::rows_at(u, j) == (if j == f {
                rows
            } else {
                state::rows_at(t, j)
            }),
        leaves(u) == leaves(t).update(f, rows),
{
    assert forall|j: int| 0 <= j < t.order.len() implies #[trigger] state::rows_at(u, j) == (if j
        == f {
        rows
    } else {
        state::rows_at(t, j)
    }) by {
        assert(state::lo(t, t.order[j]) == j && state::lo(t, t.order[f]) == f);
        assert(state::is_leaf(t, t.order[j]) && state::is_leaf(t, t.order[f]));
        assert(state::node_ok(t, t.order[j]) && state::node_ok(t, t.order[f]));
    }
    assert(leaves(u) =~= leaves(t).update(f, rows));
}

/// A leaf that has room is written to.
pub proof fn grown_in_place(ls: Seq<Seq<RowView>>, f: int, row: RowView)
    requires
        0 <= f < ls.len(),
        node::rows_len(with_row(ls[f], row)) <= node::LEAF_CAPACITY,
    ensures
        grown(ls, f, row) == ls.update(f, with_row(ls[f], row)),
{
    assert(grown(ls, f, row) =~= ls.update(f, with_row(ls[f], row)));
}

/// Writing to leaves of which the one of the key was cut is writing to the leaves as
/// they were.
pub proof fn grown_after_cut(ls: Seq<Seq<RowView>>, f: int, row: RowView, ms: Seq<Seq<RowView>>)
    requires
        0 <= f < ls.len(),
        ls[f].len() >= 2,
        node::rows_len(with_row(ls[f], row)) > node::LEAF_CAPACITY,
        ({
            let m = cut(ls[f], row.key);
            ms == ls.take(f) + seq![ls[f].take(m), ls[f].skip(m)] + ls.skip(f + 1)
        }),
    ensures
        ({
            let m = cut(ls[f], row.key);
            let g = if bytes::lex_lt(ls[f][m - 1].key, row.key) {
                f + 1
            } else {
                f
            };
            grown(ms, g, row) == grown(ls, f, row)
        }),
{
    let m = cut(ls[f], row.key);
    let left = ls[f].take(m);
    let right = ls[f].skip(m);
    if bytes::lex_lt(ls[f][m - 1].key, row.key) {
        assert(ms[f + 1] == right);
        assert(ms.take(f + 1) =~= ls.take(f).push(left));
        assert(ms.skip(f + 2) =~= ls.skip(f + 1));
        assert(parts(ls[f], row) == seq![left] + parts(right, row));
        assert(grown(ms, f + 1, row) =~= grown(ls, f, row));
    } else {
        assert(ms[f] == left);
        assert(ms.take(f) =~= ls.take(f));
        assert(ms.skip(f + 1) =~= seq![right] + ls.skip(f + 1));
        assert(parts(ls[f], row) == parts(left, row).push(right));
        assert(grown(ms, f, row) =~= grown(ls, f, row));
    }
}

} // verus!
