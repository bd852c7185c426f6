//! What writing an entry does to the leaves: a leaf with room stays one, and a full one
//! is cut in the middle.
use vstd::prelude::*;

use crate::betree::scan::RowView;
use crate::btree::contents;
use crate::btree::node;
use crate::btree::placing;
use crate::btree::state;
use crate::btree::tree::BTree;
use crate::bytes;

verus! {

proof fn pos_from(rows: Seq<RowView>, key: Seq<u8>, k: int)
    requires
        node::sorted_rows(rows),
        0 <= k <= rows.len(),
        forall|i: int| 0 <= i < k ==> bytes::lex_lt((#[trigger] rows[i]).key, key),
    ensures
        node::is_pos(rows, key, placing::pos(rows, key)),
    decreases rows.len() - k,
{
    if k < rows.len() && bytes::lex_lt(rows[k].key, key) {
        pos_from(rows, key, k + 1);
    } else {
        assert forall|i: int| k <= i < rows.len() implies !bytes::lex_lt(
            (#[trigger] rows[i]).key,
            key,
        ) by {
            if i > k && bytes::lex_lt(rows[i].key, key) {
                assert(bytes::lex_lt(rows[k].key, rows[i].key));
                bytes::lex_lt_transitive(rows[k].key, rows[i].key, key);
            }
        }
        assert(node::is_pos(rows, key, k));
    }
}

/// The rows of the leaf have the key.
pub open spec fn has_key(rows: Seq<RowView>, key: Seq<u8>) -> bool {
    exists|i: int| 0 <= i < rows.len() && (#[trigger] rows[i]).key == key
}

proof fn one_row_more(rows: Seq<RowView>, row: RowView)
    requires
        node::sorted_rows(rows),
    ensures
        ({
            let w = placing::with_row(rows, row);
            &&& rows.len() <= w.len() <= rows.len() + 1
            &&& w.contains(row)
            &&& !has_key(rows, row.key) ==> w.len() == rows.len() + 1 && node::rows_len(w)
                == node::rows_len(rows) + node::row_len(row)
            &&& has_key(rows, row.key) ==> w.len() == rows.len()
        }),
{
    let p = placing::pos(rows, row.key);
    let w = placing::with_row(rows, row);
    pos_from(rows, row.key, 0);
    assert(w[p] == row);
    if p < rows.len() && rows[p].key == row.key {
    } else {
        node::rows_len_insert(rows, p, row);
        if has_key(rows, row.key) {
            let i = choose|i: int| 0 <= i < rows.len() && (#[trigger] rows[i]).key == row.key;
            bytes::lex_lt_irreflexive(row.key);
            if i > p {
                assert(bytes::lex_lt(rows[p].key, rows[i].key));
                assert(!bytes::lex_lt(rows[p].key, row.key));
            }
        }
    }
}

/// No part that a leaf becomes has more rows than it had and the one that was written.
proof fn parts_are_short(rows: Seq<RowView>, row: RowView)
    requires
        node::sorted_rows(rows),
    ensures
        placing::parts(rows, row).len() >= 1,
        forall|j: int|
            0 <= j < placing::parts(rows, row).len() ==> (#[trigger] placing::parts(
                rows,
                row,
            )[j]).len() <= rows.len() + 1,
    decreases rows.len(),
{
    one_row_more(rows, row);
    if rows.len() == 0 || node::rows_len(placing::with_row(rows, row)) <= node::LEAF_CAPACITY {
    } else if rows.len() > 1 {
        let m = placing::cut(rows, row.key);
        if bytes::lex_lt(rows[m - 1].key, row.key) {
            sorted_part(rows, m, rows.len() as int);
            parts_are_short(rows.skip(m), row);
        } else {
            sorted_part(rows, 0, m);
            if m < rows.len() {
                parts_are_short(rows.take(m), row);
            } else {
                assert(rows.take(m) =~= rows);
            }
        }
    }
}

proof fn sorted_part(rows: Seq<RowView>, a: int, b: int)
    requires
        node::sorted_rows(rows),
        0 <= a <= b <= rows.len(),
    ensures
        node::sorted_rows(rows.subrange(a, b)),
        rows.take(b) == rows.subrange(0, b),
        rows.skip(a) == rows.subrange(a, rows.len() as int),
{
    let part = rows.subrange(a, b);
    assert forall|i: int, j: int|
        #![trigger part[i], part[j]]
        0 <= i < j < part.len() implies bytes::lex_lt(part[i].key, part[j].key) by {
        assert(part[i] == rows[a + i] && part[j] == rows[a + j]);
    }
}

/// A row that has room in the leaf of its key is put there: no leaf comes or goes, and
/// no other leaf changes.
pub proof fn row_with_room_splits_nothing(pre: BTree, post: BTree, row: RowView)
    requires
        pre.wf(),
        placing::leaves(post.state()) == placing::grown(
            placing::leaves(pre.state()),
            contents::target(pre.state(), row.key),
            row,
        ),
        0 <= contents::target(pre.state(), row.key) < pre.state().order.len(),
        ({
            let rows = state::rows_at(pre.state(), contents::target(pre.state(), row.key));
            !has_key(rows, row.key) && node::rows_len(rows) + node::row_len(row)
                <= node::LEAF_CAPACITY
        }),
    ensures
        ({
            let f = contents::target(pre.state(), row.key);
            let (a, b) = (placing::leaves(pre.state()), placing::leaves(post.state()));
            &&& b.len() == a.len()
            &&& b[f].len() == a[f].len() + 1
            &&& b[f].contains(row)
            &&& forall|j: int| 0 <= j < a.len() && j != f ==> #[trigger] b[j] == a[j]
        }),
{
    let s = pre.state();
    let f = contents::target(s, row.key);
    let a = placing::leaves(s);
    assert(a[f] == state::rows_at(s, f));
    assert(node::sorted_rows(state::rows_at(s, f)));
    one_row_more(a[f], row);
    placing::grown_in_place(a, f, row);
}

/// A leaf of three rows or more without room for a new key is cut in the middle: it
/// becomes two leaves or more, none of which has more than half of its rows and two.
/// The other leaves do not change.
#[verifier::rlimit(40)]
#[verifier::spinoff_prover]
pub proof fn full_leaf_is_cut_in_the_middle(pre: BTree, post: BTree, row: RowView)
    requires
        pre.wf(),
        placing::leaves(post.state()) == placing::grown(
            placing::leaves(pre.state()),
            contents::target(pre.state(), row.key),
            row,
        ),
        0 <= contents::target(pre.state(), row.key) < pre.state().order.len(),
        ({
            let rows = state::rows_at(pre.state(), contents::target(pre.state(), row.key));
            &&& rows.len() >= 3
            &&& !has_key(rows, row.key)
            &&& node::rows_len(rows) + node::row_len(row) > node::LEAF_CAPACITY
        }),
    ensures
        ({
            let f = contents::target(pre.state(), row.key);
            let (a, b) = (placing::leaves(pre.state()), placing::leaves(post.state()));
            let more = b.len() - a.len();
            &&& more >= 1
            &&& forall|j: int| 0 <= j < f ==> #[trigger] b[j] == a[j]
            &&& forall|j: int| f < j < a.len() ==> b[j + more] == #[trigger] a[j]
            &&& forall|j: int|
                f <= j <= f + more ==> (#[trigger] b[j]).len() <= a[f].len() as int / 2 + 2
        }),
{
    let s = pre.state();
    let f = contents::target(s, row.key);
    let (a, b) = (placing::leaves(s), placing::leaves(post.state()));
    let rows = state::rows_at(s, f);
    assert(a[f] == rows);
    assert(node::sorted_rows(rows));
    one_row_more(rows, row);
    let m = placing::cut(rows, row.key);
    let p = placing::parts(rows, row);
    sorted_part(rows, m, rows.len() as int);
    sorted_part(rows, 0, m);
    if bytes::lex_lt(rows[m - 1].key, row.key) {
        let q = placing::parts(rows.skip(m), row);
        parts_are_short(rows.skip(m), row);
        assert(p == seq![rows.take(m)] + q);
        assert forall|j: int| 0 <= j < p.len() implies (#[trigger] p[j]).len() <= rows.len() as int
            / 2 + 2 by {
            if j > 0 {
                assert(p[j] == q[j - 1]);
            }
        }
    } else {
        let q = placing::parts(rows.take(m), row);
        parts_are_short(rows.take(m), row);
        assert(p == q.push(rows.skip(m)));
        assert forall|j: int| 0 <= j < p.len() implies (#[trigger] p[j]).len() <= rows.len() as int
            / 2 + 2 by {
            if j < q.len() {
                assert(p[j] == q[j]);
            }
        }
    }
    let more = b.len() - a.len();
    assert(p.len() == more + 1);
    assert forall|j: int| f <= j <= f + more implies (#[trigger] b[j]).len() <= a[f].len() as int / 2
        + 2 by {
        assert(b[j] == p[j - f]);
    }
    assert forall|j: int| f < j < a.len() implies b[j + more] == #[trigger] a[j] by {
        assert(a.skip(f + 1)[j - f - 1] == a[j]);
    }
}

} // verus!
