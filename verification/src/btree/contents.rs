//! What a B-link tree holds, and in which leaf a key belongs.
use vstd::prelude::*;

use crate::betree::scan::RowView;
use crate::btree::change;
use crate::btree::grow;
use crate::btree::merge_leaf;
use crate::btree::node;
use crate::btree::state;
use crate::btree::state::State;
use crate::bytes;

verus! {

/// Some leaf holds the row.
pub open spec fn has(s: State, row: RowView) -> bool {
    exists|j: int, a: int|
        #![trigger state::rows_at(s, j)[a]]
        0 <= j < s.order.len() && 0 <= a < state::rows_at(s, j).len() && state::rows_at(s, j)[a]
            == row
}

/// All rows of the tree.
pub open spec fn rows(s: State) -> Set<RowView> {
    Set::new(|row: RowView| has(s, row))
}

/// Rows with different keys as a map.
pub open spec fn map_of(rows: Set<RowView>) -> Map<Seq<u8>, Seq<u8>> {
    Map::new(
        |key: Seq<u8>| exists|value: Seq<u8>| #[trigger] rows.contains(RowView { key, value }),
        |key: Seq<u8>| choose|value: Seq<u8>| #[trigger] rows.contains(RowView { key, value }),
    )
}

pub open spec fn keys_differ(rows: Set<RowView>) -> bool {
    forall|a: RowView, b: RowView| #[trigger]
        rows.contains(a) && #[trigger] rows.contains(b) && a.key == b.key ==> a == b
}

/// What the tree holds, as a map.
pub open spec fn contents(s: State) -> Map<Seq<u8>, Seq<u8>> {
    map_of(rows(s))
}

pub proof fn row_is_in(s: State, j: int, a: int)
    requires
        0 <= j < s.order.len(),
        0 <= a < state::rows_at(s, j).len(),
    ensures
        rows(s).contains(state::rows_at(s, j)[a]),
{
    let row = state::rows_at(s, j)[a];
    assert(has(s, row));
}

pub proof fn keys_differ_in(s: State)
    requires
        state::keys_ok(s),
    ensures
        keys_differ(rows(s)),
{
    assert forall|x: RowView, y: RowView| #[trigger]
        rows(s).contains(x) && #[trigger] rows(s).contains(y) && x.key == y.key implies x == y by {
        let (j, a) = choose|j: int, a: int|
            #![trigger state::rows_at(s, j)[a]]
            0 <= j < s.order.len() && 0 <= a < state::rows_at(s, j).len() && state::rows_at(
                s,
                j,
            )[a] == x;
        let (k, b) = choose|j: int, a: int|
            #![trigger state::rows_at(s, j)[a]]
            0 <= j < s.order.len() && 0 <= a < state::rows_at(s, j).len() && state::rows_at(
                s,
                j,
            )[a] == y;
        bytes::lex_lt_irreflexive(x.key);
        assert(node::sorted_rows(state::rows_at(s, j)));
        let u = state::rows_at(s, j)[a];
        let v = state::rows_at(s, k)[b];
        if j == k && a != b {
            if a < b {
                assert(bytes::lex_lt(u.key, v.key));
            } else {
                assert(bytes::lex_lt(v.key, u.key));
            }
        }
    }
}

/// A row is found under its key.
pub proof fn map_has(rows: Set<RowView>, row: RowView)
    requires
        keys_differ(rows),
        rows.contains(row),
    ensures
        map_of(rows).contains_key(row.key),
        map_of(rows)[row.key] == row.value,
{
    assert(rows.contains(RowView { key: row.key, value: row.value }));
    let v = choose|value: Seq<u8>| #[trigger] rows.contains(RowView { key: row.key, value });
    assert(rows.contains(RowView { key: row.key, value: v }));
}

pub proof fn map_lacks(rows: Set<RowView>, key: Seq<u8>)
    requires
        forall|row: RowView| #[trigger] rows.contains(row) ==> row.key != key,
    ensures
        !map_of(rows).contains_key(key),
{
}

/// One row more.
pub proof fn map_insert(rows: Set<RowView>, row: RowView)
    requires
        keys_differ(rows),
        forall|x: RowView| #[trigger] rows.contains(x) ==> x.key != row.key,
    ensures
        map_of(rows.insert(row)) == map_of(rows).insert(row.key, row.value),
{
    let more = rows.insert(row);
    let m = map_of(rows).insert(row.key, row.value);
    assert(keys_differ(more));
    assert forall|key: Seq<u8>|
        #![trigger map_of(more).contains_key(key)]
        map_of(more).contains_key(key) == m.contains_key(key) && (m.contains_key(key) ==> map_of(
            more,
        )[key] == m[key]) by {
        if m.contains_key(key) {
            if key == row.key {
                map_has(more, row);
            } else {
                let v = choose|value: Seq<u8>| #[trigger] rows.contains(RowView { key, value });
                assert(rows.contains(RowView { key, value: v }));
                assert(more.contains(RowView { key, value: v }));
                map_has(more, RowView { key, value: v });
                map_has(rows, RowView { key, value: v });
            }
        } else {
            assert forall|x: RowView| #[trigger] more.contains(x) implies x.key != key by {
                if x != row && x.key == key {
                    map_has(rows, x);
                }
            }
            map_lacks(more, key);
        }
    }
    assert(map_of(more) =~= m);
}

/// One row less.
pub proof fn map_remove(rows: Set<RowView>, row: RowView)
    requires
        keys_differ(rows),
        rows.contains(row),
    ensures
        map_of(rows.remove(row)) == map_of(rows).remove(row.key),
{
    let less = rows.remove(row);
    assert(keys_differ(less));
    assert forall|x: RowView| #[trigger] less.contains(x) implies x.key != row.key by {}
    map_insert(less, row);
    assert(less.insert(row) =~= rows);
    map_lacks(less, row.key);
    assert(map_of(less) =~= map_of(less).insert(row.key, row.value).remove(row.key));
}

/// Another value under the same key.
pub proof fn map_replace(rows: Set<RowView>, row: RowView, value: Seq<u8>)
    requires
        keys_differ(rows),
        rows.contains(row),
    ensures
        map_of(rows.remove(row).insert(RowView { key: row.key, value })) == map_of(rows).insert(
            row.key,
            value,
        ),
{
    map_remove(rows, row);
    let less = rows.remove(row);
    assert(keys_differ(less));
    map_insert(less, RowView { key: row.key, value });
    assert(map_of(rows).remove(row.key).insert(row.key, value) =~= map_of(rows).insert(
        row.key,
        value,
    ));
}

// ---------------------------------------------------------------------------
// Steps that keep the rows.

/// The same rows leaf by leaf.
pub proof fn same_rows(s: State, t: State)
    requires
        t.order.len() == s.order.len(),
        forall|j: int|
            0 <= j < s.order.len() ==> #[trigger] state::rows_at(t, j) == state::rows_at(s, j),
    ensures
        rows(t) == rows(s),
{
    assert forall|row: RowView| has(t, row) <==> has(s, row) by {
        if has(t, row) {
            let (j, a) = choose|j: int, a: int|
                #![trigger state::rows_at(t, j)[a]]
                0 <= j < t.order.len() && 0 <= a < state::rows_at(t, j).len() && state::rows_at(
                    t,
                    j,
                )[a] == row;
            assert(state::rows_at(s, j)[a] == row);
        }
        if has(s, row) {
            let (j, a) = choose|j: int, a: int|
                #![trigger state::rows_at(s, j)[a]]
                0 <= j < s.order.len() && 0 <= a < state::rows_at(s, j).len() && state::rows_at(
                    s,
                    j,
                )[a] == row;
            assert(state::rows_at(t, j)[a] == row);
        }
    }
    assert(rows(t) =~= rows(s));
}

/// A split keeps the rows.
pub proof fn split_keeps_rows(
    s: State,
    f: int,
    m: int,
    sib: u64,
    q: u64,
    i: int,
    sep: Seq<u8>,
)
    requires
        grow::can_split_leaf(s, f, m, sib, q, i, sep),
    ensures
        rows(grow::split_leaf(s, f, m, sib, q, i, sep)) == rows(s),
{
    let t = grow::split_leaf(s, f, m, sib, q, i, sep);
    grow::split_leaf_rows(s, f, m, sib, q, i, sep);
    assert(0 <= f < s.order.len() && 0 <= m <= state::rows_at(s, f).len()) by {
        reveal(grow::can_split_leaf);
    }
    assert forall|row: RowView| has(t, row) <==> has(s, row) by {
        if has(t, row) {
            let (j, a) = choose|j: int, a: int|
                #![trigger state::rows_at(t, j)[a]]
                0 <= j < t.order.len() && 0 <= a < state::rows_at(t, j).len() && state::rows_at(
                    t,
                    j,
                )[a] == row;
            let (j0, a0) = grow::came_from(f, m, j, a);
            assert(state::rows_at(s, j0)[a0] == row);
        }
        if has(s, row) {
            let (j, a) = choose|j: int, a: int|
                #![trigger state::rows_at(s, j)[a]]
                0 <= j < s.order.len() && 0 <= a < state::rows_at(s, j).len() && state::rows_at(
                    s,
                    j,
                )[a] == row;
            if j < f {
                assert(state::rows_at(t, j)[a] == row);
            } else if j > f {
                assert(state::rows_at(t, j + 1)[a] == row);
            } else if a < m {
                assert(state::rows_at(t, f)[a] == row);
            } else {
                assert(state::rows_at(t, f + 1)[a - m] == row);
            }
        }
    }
    assert(rows(t) =~= rows(s));
}

/// A merge keeps the rows.
pub proof fn merge_keeps_rows(s: State, f: int, q: u64, i: int, new: Option<Seq<u8>>)
    requires
        merge_leaf::can_merge_leaf(s, f, q, i, new),
    ensures
        rows(merge_leaf::merge_leaf(s, f, q, i, new)) == rows(s),
{
    let t = merge_leaf::merge_leaf(s, f, q, i, new);
    merge_leaf::merge_leaf_rows(s, f, q, i, new);
    assert(0 <= f && f + 1 < s.order.len()) by {
        reveal(merge_leaf::can_merge_leaf);
    }
    let n = state::rows_at(s, f).len() as int;
    assert forall|row: RowView| has(t, row) <==> has(s, row) by {
        if has(t, row) {
            let (j, a) = choose|j: int, a: int|
                #![trigger state::rows_at(t, j)[a]]
                0 <= j < t.order.len() && 0 <= a < state::rows_at(t, j).len() && state::rows_at(
                    t,
                    j,
                )[a] == row;
            let (j0, a0) = merge_leaf::came_from(f, n, j, a);
            assert(state::rows_at(s, j0)[a0] == row);
        }
        if has(s, row) {
            let (j, a) = choose|j: int, a: int|
                #![trigger state::rows_at(s, j)[a]]
                0 <= j < s.order.len() && 0 <= a < state::rows_at(s, j).len() && state::rows_at(
                    s,
                    j,
                )[a] == row;
            if j <= f {
                assert(state::rows_at(t, j)[a] == row);
            } else if j == f + 1 {
                assert(state::rows_at(t, f)[n + a] == row);
            } else {
                assert(state::rows_at(t, j - 1)[a] == row);
            }
        }
    }
    assert(rows(t) =~= rows(s));
}

// ---------------------------------------------------------------------------
// The leaf of a key.

/// All keys of the leaf are below `key`.
pub open spec fn all_below(rows: Seq<RowView>, key: Seq<u8>) -> bool {
    forall|a: int| 0 <= a < rows.len() ==> bytes::lex_lt((#[trigger] rows[a]).key, key)
}

/// The keys of all leaves before index `f` are below `key`.
pub open spec fn before(s: State, key: Seq<u8>, f: int) -> bool {
    forall|j: int| 0 <= j < f ==> all_below(#[trigger] state::rows_at(s, j), key)
}

/// The first leaf that reaches up to `key`, or the last leaf.
pub open spec fn is_target(s: State, key: Seq<u8>, f: int) -> bool {
    &&& 0 <= f < s.order.len()
    &&& before(s, key, f)
    &&& f + 1 < s.order.len() ==> !all_below(state::rows_at(s, f), key)
}

/// The index of the leaf into which `key` belongs.
pub open spec fn target(s: State, key: Seq<u8>) -> int {
    choose|f: int| is_target(s, key, f)
}

/// The inner nodes on the way from a node down to the leaf that `key` is routed
/// to.
pub open spec fn way(s: State, pid: u64, key: Seq<u8>) -> Seq<u64>
    decreases state::level(s, pid),
{
    if state::is_inner(s, pid) {
        let child = state::kids(s, pid)[node::route(state::seps(s, pid), key)];
        seq![pid] + if state::level(s, child) < state::level(s, pid) {
            way(s, child, key)
        } else {
            Seq::empty()
        }
    } else {
        Seq::empty()
    }
}

pub proof fn target_is_unique(s: State, key: Seq<u8>, f: int, g: int)
    requires
        is_target(s, key, f),
        is_target(s, key, g),
    ensures
        f == g,
{
    if f < g {
        assert(all_below(state::rows_at(s, f), key));
    } else if g < f {
        assert(all_below(state::rows_at(s, g), key));
    }
}

/// Leaves are below a key if and only if their last row is.
pub proof fn last_row_decides(rows: Seq<RowView>, key: Seq<u8>)
    requires
        node::sorted_rows(rows),
    ensures
        all_below(rows, key) <==> rows.len() == 0 || bytes::lex_lt(rows.last().key, key),
{
    if rows.len() > 0 && bytes::lex_lt(rows.last().key, key) {
        assert forall|a: int| 0 <= a < rows.len() implies bytes::lex_lt(
            (#[trigger] rows[a]).key,
            key,
        ) by {
            if a + 1 < rows.len() {
                bytes::lex_lt_transitive(rows[a].key, rows[rows.len() - 1].key, key);
            }
        }
    }
    if rows.len() > 0 && all_below(rows, key) {
        assert(bytes::lex_lt(rows[rows.len() - 1].key, key));
    }
}

/// Behind the leaf of a key all keys are above it.
pub proof fn above_target(s: State, key: Seq<u8>, f: int, j: int, a: int)
    requires
        state::keys_ok(s),
        is_target(s, key, f),
        f < j < s.order.len(),
        0 <= a < state::rows_at(s, j).len(),
    ensures
        bytes::lex_lt(key, state::rows_at(s, j)[a].key),
{
    let rows = state::rows_at(s, f);
    let b = choose|b: int| 0 <= b < rows.len() && !bytes::lex_lt((#[trigger] rows[b]).key, key);
    let y = state::rows_at(s, j)[a].key;
    assert(bytes::lex_lt(state::rows_at(s, f)[b].key, y));
    bytes::lex_lt_total(key, rows[b].key);
    if key != rows[b].key {
        bytes::lex_lt_transitive(key, rows[b].key, y);
    }
}

/// The leaf of a key holds it if any does.
pub proof fn target_holds(s: State, key: Seq<u8>, f: int, row: RowView)
    requires
        state::keys_ok(s),
        is_target(s, key, f),
        rows(s).contains(row),
        row.key == key,
    ensures
        state::rows_at(s, f).contains(row),
{
    let (j, a) = choose|j: int, a: int|
        #![trigger state::rows_at(s, j)[a]]
        0 <= j < s.order.len() && 0 <= a < state::rows_at(s, j).len() && state::rows_at(s, j)[a]
            == row;
    bytes::lex_lt_irreflexive(key);
    if j < f {
        assert(all_below(state::rows_at(s, j), key));
        assert(bytes::lex_lt(state::rows_at(s, j)[a].key, key));
    } else if j > f {
        above_target(s, key, f, j, a);
    }
}

/// Routing goes past leaves that are below the key.
pub proof fn route_is_before(s: State, p: u64, i: int, key: Seq<u8>)
    requires
        state::inv(s),
        state::is_inner(s, p),
        node::is_route(state::seps(s, p), key, i),
        before(s, key, state::lo(s, p)),
    ensures
        0 <= i < state::kids(s, p).len(),
        state::kid_ok(s, p, i),
        before(s, key, state::lo(s, state::kids(s, p)[i])),
{
    assert(state::node_ok(s, p));
    assert(state::kid_ok(s, p, i));
    if i > 0 {
        assert(state::kid_ok(s, p, i - 1));
        let sep = state::seps(s, p)[i - 1];
        assert(state::sep_bounds(s, p, i - 1, sep));
        assert(state::node_ok(s, state::kids(s, p)[i - 1]));
        assert forall|j: int| 0 <= j < state::lo(s, state::kids(s, p)[i]) implies all_below(
            #[trigger] state::rows_at(s, j),
            key,
        ) by {
            let rows = state::rows_at(s, j);
            assert forall|a: int| 0 <= a < rows.len() implies bytes::lex_lt(
                (#[trigger] rows[a]).key,
                key,
            ) by {
                let x = state::rows_at(s, j)[a].key;
                assert(!bytes::lex_lt(sep, x));
                bytes::lex_lt_total(sep, x);
                if x != sep {
                    bytes::lex_lt_transitive(x, sep, key);
                }
            }
        }
    }
}

// ---------------------------------------------------------------------------
// Changing rows in the leaf of a key.

/// A new row belongs into the leaf of its key.
pub proof fn inserted_belongs(s: State, f: int, pos: int, row: RowView)
    requires
        state::inv(s),
        is_target(s, row.key, f),
        node::is_pos(state::rows_at(s, f), row.key, pos),
        pos < state::rows_at(s, f).len() ==> state::rows_at(s, f)[pos].key != row.key,
    ensures
        change::rows_belong(s, f, state::rows_at(s, f).insert(pos, row)),
{
    let rows = state::rows_at(s, f);
    let more = rows.insert(pos, row);
    assert(node::sorted_rows(rows));
    assert forall|b: int| #![trigger more[b]] 0 <= b < more.len() implies more[b] == (if b < pos {
        rows[b]
    } else if b == pos {
        row
    } else {
        rows[b - 1]
    }) by {}
    assert(node::sorted_rows(more)) by {
        assert forall|a: int, b: int|
            #![trigger more[a], more[b]]
            0 <= a < b < more.len() implies bytes::lex_lt(more[a].key, more[b].key) by {
            if a == pos {
                let y = rows[b - 1].key;
                assert(!bytes::lex_lt(y, row.key));
                bytes::lex_lt_total(y, row.key);
                if y == row.key {
                    bytes::lex_lt_irreflexive(y);
                    if b - 1 > pos {
                        assert(bytes::lex_lt(rows[pos].key, rows[b - 1].key));
                        assert(!bytes::lex_lt(rows[pos].key, row.key));
                    }
                }
            } else if b == pos {
                assert(bytes::lex_lt(rows[a].key, row.key));
            } else {
                let a0 = if a < pos {
                    a
                } else {
                    a - 1
                };
                let b0 = if b < pos {
                    b
                } else {
                    b - 1
                };
                assert(bytes::lex_lt(rows[a0].key, rows[b0].key));
            }
        }
    }
    new_row_belongs(s, f, row);
    assert forall|j: int, a: int, b: int|
        #![trigger state::rows_at(s, j)[a], more[b]]
        0 <= j < f && 0 <= a < state::rows_at(s, j).len() && 0 <= b
            < more.len() implies bytes::lex_lt(state::rows_at(s, j)[a].key, more[b].key) by {
        if b != pos {
            let b0 = if b < pos {
                b
            } else {
                b - 1
            };
            assert(more[b] == state::rows_at(s, f)[b0]);
        }
    }
    assert forall|j: int, a: int, b: int|
        #![trigger state::rows_at(s, j)[a], more[b]]
        f < j < s.order.len() && 0 <= a < state::rows_at(s, j).len() && 0 <= b
            < more.len() implies bytes::lex_lt(more[b].key, state::rows_at(s, j)[a].key) by {
        if b != pos {
            let b0 = if b < pos {
                b
            } else {
                b - 1
            };
            assert(more[b] == state::rows_at(s, f)[b0]);
        }
    }
    assert forall|p: u64, i: int, b: int|
        #![trigger state::seps(s, p)[i], more[b]]
        state::is_inner(s, p) && 0 <= i < state::seps(s, p).len() && f < state::hi(
            s,
            state::kids(s, p)[i],
        ) && 0 <= b < more.len() implies !bytes::lex_lt(state::seps(s, p)[i], more[b].key) by {
        if b != pos {
            let b0 = if b < pos {
                b
            } else {
                b - 1
            };
            assert(state::sep_bounds(s, p, i, state::seps(s, p)[i]));
            assert(more[b] == state::rows_at(s, f)[b0]);
        }
    }
}

/// How a row whose key belongs into leaf `f` stands to the other leaves.
proof fn new_row_belongs(s: State, f: int, row: RowView)
    requires
        state::inv(s),
        is_target(s, row.key, f),
    ensures
        forall|j: int, a: int|
            #![trigger state::rows_at(s, j)[a]]
            0 <= j < f && 0 <= a < state::rows_at(s, j).len() ==> bytes::lex_lt(
                state::rows_at(s, j)[a].key,
                row.key,
            ),
        forall|j: int, a: int|
            #![trigger state::rows_at(s, j)[a]]
            f < j < s.order.len() && 0 <= a < state::rows_at(s, j).len() ==> bytes::lex_lt(
                row.key,
                state::rows_at(s, j)[a].key,
            ),
        forall|p: u64, i: int|
            #![trigger state::seps(s, p)[i]]
            state::is_inner(s, p) && 0 <= i < state::seps(s, p).len() && f < state::hi(
                s,
                state::kids(s, p)[i],
            ) ==> !bytes::lex_lt(state::seps(s, p)[i], row.key),
{
    let rows = state::rows_at(s, f);
    assert forall|j: int, a: int|
        #![trigger state::rows_at(s, j)[a]]
        0 <= j < f && 0 <= a < state::rows_at(s, j).len() implies bytes::lex_lt(
        state::rows_at(s, j)[a].key,
        row.key,
    ) by {
        assert(all_below(state::rows_at(s, j), row.key));
    }
    assert forall|j: int, a: int|
        #![trigger state::rows_at(s, j)[a]]
        f < j < s.order.len() && 0 <= a < state::rows_at(s, j).len() implies bytes::lex_lt(
        row.key,
        state::rows_at(s, j)[a].key,
    ) by {
        above_target(s, row.key, f, j, a);
    }
    assert forall|p: u64, i: int|
        #![trigger state::seps(s, p)[i]]
        state::is_inner(s, p) && 0 <= i < state::seps(s, p).len() && f < state::hi(
            s,
            state::kids(s, p)[i],
        ) implies !bytes::lex_lt(state::seps(s, p)[i], row.key) by {
        let sep = state::seps(s, p)[i];
        assert(state::node_ok(s, p));
        state::kid_inside(s, p, i);
        assert(state::sep_bounds(s, p, i, sep));
        assert(f + 1 < s.order.len());
        let b = choose|b: int|
            0 <= b < rows.len() && !bytes::lex_lt((#[trigger] rows[b]).key, row.key);
        let x = state::rows_at(s, f)[b].key;
        assert(!bytes::lex_lt(sep, x));
        if bytes::lex_lt(sep, row.key) {
            bytes::lex_lt_total(row.key, x);
            if row.key != x {
                bytes::lex_lt_transitive(sep, row.key, x);
            }
        }
    }
}

/// Rows without one of them, or with another value, still belong.
pub proof fn fewer_belong(s: State, f: int, pos: int)
    requires
        state::inv(s),
        0 <= f < s.order.len(),
        0 <= pos < state::rows_at(s, f).len(),
    ensures
        change::rows_belong(s, f, state::rows_at(s, f).remove(pos)),
{
    let rows = state::rows_at(s, f);
    let less = rows.remove(pos);
    assert(node::sorted_rows(rows));
    assert forall|b: int| #![trigger less[b]] 0 <= b < less.len() implies less[b] == (if b < pos {
        rows[b]
    } else {
        rows[b + 1]
    }) by {}
    assert forall|j: int, a: int, b: int|
        #![trigger state::rows_at(s, j)[a], less[b]]
        0 <= j < f && 0 <= a < state::rows_at(s, j).len() && 0 <= b
            < less.len() implies bytes::lex_lt(state::rows_at(s, j)[a].key, less[b].key) by {
        let b0 = if b < pos {
            b
        } else {
            b + 1
        };
        assert(less[b] == state::rows_at(s, f)[b0]);
    }
    assert forall|j: int, a: int, b: int|
        #![trigger state::rows_at(s, j)[a], less[b]]
        f < j < s.order.len() && 0 <= a < state::rows_at(s, j).len() && 0 <= b
            < less.len() implies bytes::lex_lt(less[b].key, state::rows_at(s, j)[a].key) by {
        let b0 = if b < pos {
            b
        } else {
            b + 1
        };
        assert(less[b] == state::rows_at(s, f)[b0]);
    }
    assert forall|p: u64, i: int, b: int|
        #![trigger state::seps(s, p)[i], less[b]]
        state::is_inner(s, p) && 0 <= i < state::seps(s, p).len() && f < state::hi(
            s,
            state::kids(s, p)[i],
        ) && 0 <= b < less.len() implies !bytes::lex_lt(state::seps(s, p)[i], less[b].key) by {
        let b0 = if b < pos {
            b
        } else {
            b + 1
        };
        assert(state::sep_bounds(s, p, i, state::seps(s, p)[i]));
        assert(less[b] == state::rows_at(s, f)[b0]);
    }
}

pub proof fn replaced_belongs(s: State, f: int, pos: int, value: Seq<u8>)
    requires
        state::inv(s),
        0 <= f < s.order.len(),
        0 <= pos < state::rows_at(s, f).len(),
    ensures
        change::rows_belong(
            s,
            f,
            state::rows_at(s, f).update(
                pos,
                RowView { key: state::rows_at(s, f)[pos].key, value },
            ),
        ),
{
    let rows = state::rows_at(s, f);
    let other = rows.update(pos, RowView { key: rows[pos].key, value });
    assert(node::sorted_rows(rows));
    assert forall|b: int| #![trigger other[b]] 0 <= b < other.len() implies other[b].key
        == rows[b].key by {}
    assert(node::sorted_rows(other)) by {
        assert forall|a: int, b: int|
            #![trigger other[a], other[b]]
            0 <= a < b < other.len() implies bytes::lex_lt(other[a].key, other[b].key) by {
            assert(bytes::lex_lt(rows[a].key, rows[b].key));
        }
    }
    assert forall|j: int, a: int, b: int|
        #![trigger state::rows_at(s, j)[a], other[b]]
        0 <= j < f && 0 <= a < state::rows_at(s, j).len() && 0 <= b
            < other.len() implies bytes::lex_lt(state::rows_at(s, j)[a].key, other[b].key) by {
        let x = state::rows_at(s, f)[b];
    }
    assert forall|j: int, a: int, b: int|
        #![trigger state::rows_at(s, j)[a], other[b]]
        f < j < s.order.len() && 0 <= a < state::rows_at(s, j).len() && 0 <= b
            < other.len() implies bytes::lex_lt(other[b].key, state::rows_at(s, j)[a].key) by {
        let x = state::rows_at(s, f)[b];
    }
    assert forall|p: u64, i: int, b: int|
        #![trigger state::seps(s, p)[i], other[b]]
        state::is_inner(s, p) && 0 <= i < state::seps(s, p).len() && f < state::hi(
            s,
            state::kids(s, p)[i],
        ) && 0 <= b < other.len() implies !bytes::lex_lt(state::seps(s, p)[i], other[b].key) by {
        assert(state::sep_bounds(s, p, i, state::seps(s, p)[i]));
        let x = state::rows_at(s, f)[b];
    }
}

/// The rows of the tree when those of leaf `f` were replaced.
pub proof fn rows_of_changed(s: State, f: int, new: Seq<RowView>)
    requires
        state::inv(s),
        0 <= f < s.order.len(),
        change::rows_belong(s, f, new),
        node::rows_len(new) <= node::LEAF_CAPACITY,
    ensures
        state::inv(change::with_rows(s, f, new)),
        forall|row: RowView| #[trigger]
            rows(change::with_rows(s, f, new)).contains(row) <==> new.contains(row) || (rows(
                s,
            ).contains(row) && !state::rows_at(s, f).contains(row)),
{
    let t = change::with_rows(s, f, new);
    change::with_rows_ok(s, f, new);
    keys_differ_in(s);
    assert forall|row: RowView| #[trigger]
        rows(t).contains(row) <==> new.contains(row) || (rows(s).contains(row)
            && !state::rows_at(s, f).contains(row)) by {
        if has(t, row) {
            let (j, a) = choose|j: int, a: int|
                #![trigger state::rows_at(t, j)[a]]
                0 <= j < t.order.len() && 0 <= a < state::rows_at(t, j).len() && state::rows_at(
                    t,
                    j,
                )[a] == row;
            if j == f {
                assert(new[a] == row);
            } else {
                assert(state::rows_at(s, j)[a] == row);
                assert(has(s, row));
                if state::rows_at(s, f).contains(row) {
                    let b = choose|b: int|
                        0 <= b < state::rows_at(s, f).len() && state::rows_at(s, f)[b] == row;
                    bytes::lex_lt_irreflexive(row.key);
                    if j < f {
                        assert(bytes::lex_lt(
                            state::rows_at(s, j)[a].key,
                            state::rows_at(s, f)[b].key,
                        ));
                    } else {
                        assert(bytes::lex_lt(
                            state::rows_at(s, f)[b].key,
                            state::rows_at(s, j)[a].key,
                        ));
                    }
                }
            }
        }
        if new.contains(row) {
            let a = choose|a: int| 0 <= a < new.len() && new[a] == row;
            assert(state::rows_at(t, f)[a] == row);
            assert(has(t, row));
        }
        if rows(s).contains(row) && !state::rows_at(s, f).contains(row) {
            let (j, a) = choose|j: int, a: int|
                #![trigger state::rows_at(s, j)[a]]
                0 <= j < s.order.len() && 0 <= a < state::rows_at(s, j).len() && state::rows_at(
                    s,
                    j,
                )[a] == row;
            assert(j != f);
            assert(state::rows_at(t, j)[a] == row);
            assert(has(t, row));
        }
    }
}

/// Inserting a row whose key is not there.
pub proof fn insert_ok(s: State, f: int, pos: int, row: RowView)
    requires
        state::inv(s),
        is_target(s, row.key, f),
        node::is_pos(state::rows_at(s, f), row.key, pos),
        pos < state::rows_at(s, f).len() ==> state::rows_at(s, f)[pos].key != row.key,
        node::can_insert(
            state::rows_at(s, f),
            row.key.len() as int,
            row.value.len() as int,
        ),
    ensures
        ({
            let t = change::with_rows(s, f, state::rows_at(s, f).insert(pos, row));
            &&& state::inv(t)
            &&& contents(t) == contents(s).insert(row.key, row.value)
            &&& !contents(s).contains_key(row.key)
        }),
{
    let old = state::rows_at(s, f);
    let new = old.insert(pos, row);
    let t = change::with_rows(s, f, new);
    node::rows_len_insert(old, pos, row);
    inserted_belongs(s, f, pos, row);
    rows_of_changed(s, f, new);
    keys_differ_in(s);
    assert forall|x: RowView| #[trigger] rows(s).contains(x) implies x.key != row.key by {
        if x.key == row.key {
            target_holds(s, row.key, f, x);
            key_at_pos(old, pos, x);
        }
    }
    assert(rows(t) =~= rows(s).insert(row)) by {
        assert forall|x: RowView| rows(t).contains(x) <==> rows(s).insert(row).contains(x) by {
            insert_contains(old, pos, row, x);
            if old.contains(x) {
                let b = choose|b: int| 0 <= b < old.len() && old[b] == x;
                row_is_in(s, f, b);
            }
        }
    }
    map_insert(rows(s), row);
    map_lacks(rows(s), row.key);
}

/// A row with the key stands at its position.
pub proof fn key_at_pos(rows: Seq<RowView>, pos: int, x: RowView)
    requires
        node::sorted_rows(rows),
        node::is_pos(rows, x.key, pos),
        rows.contains(x),
    ensures
        pos < rows.len(),
        rows[pos] == x,
{
    let b = choose|b: int| 0 <= b < rows.len() && rows[b] == x;
    bytes::lex_lt_irreflexive(x.key);
    if b < pos {
        assert(bytes::lex_lt(rows[b].key, x.key));
    }
    if b > pos {
        assert(bytes::lex_lt(rows[pos].key, rows[b].key));
        assert(!bytes::lex_lt(rows[pos].key, x.key));
    }
}

proof fn insert_contains(rows: Seq<RowView>, pos: int, row: RowView, x: RowView)
    requires
        0 <= pos <= rows.len(),
    ensures
        rows.insert(pos, row).contains(x) <==> rows.contains(x) || x == row,
{
    let more = rows.insert(pos, row);
    if more.contains(x) {
        let b = choose|b: int| 0 <= b < more.len() && more[b] == x;
        if b < pos {
            assert(rows[b] == x);
        } else if b > pos {
            assert(rows[b - 1] == x);
        }
    }
    if rows.contains(x) {
        let b = choose|b: int| 0 <= b < rows.len() && rows[b] == x;
        if b < pos {
            assert(more[b] == x);
        } else {
            assert(more[b + 1] == x);
        }
    }
    if x == row {
        assert(more[pos] == x);
    }
}

/// Removing a row.
pub proof fn remove_ok(s: State, f: int, pos: int)
    requires
        state::inv(s),
        0 <= f < s.order.len(),
        0 <= pos < state::rows_at(s, f).len(),
    ensures
        ({
            let row = state::rows_at(s, f)[pos];
            let t = change::with_rows(s, f, state::rows_at(s, f).remove(pos));
            &&& state::inv(t)
            &&& contents(t) == contents(s).remove(row.key)
            &&& contents(s).contains_key(row.key)
        }),
{
    let old = state::rows_at(s, f);
    let row = old[pos];
    let new = old.remove(pos);
    let t = change::with_rows(s, f, new);
    assert(state::is_leaf(s, s.order[f]));
    assert(node::fits(s.nodes[s.order[f] as int]));
    node::rows_len_remove(old, pos);
    fewer_belong(s, f, pos);
    rows_of_changed(s, f, new);
    keys_differ_in(s);
    row_is_in(s, f, pos);
    assert(node::sorted_rows(old));
    assert(rows(t) =~= rows(s).remove(row)) by {
        assert forall|x: RowView| rows(t).contains(x) <==> rows(s).remove(row).contains(x) by {
            if new.contains(x) {
                let b = choose|b: int| 0 <= b < new.len() && new[b] == x;
                let b0 = if b < pos {
                    b
                } else {
                    b + 1
                };
                assert(old[b0] == x);
                row_is_in(s, f, b0);
                bytes::lex_lt_irreflexive(row.key);
                if b0 < pos {
                    assert(bytes::lex_lt(old[b0].key, old[pos].key));
                } else {
                    assert(bytes::lex_lt(old[pos].key, old[b0].key));
                }
            }
            if rows(s).remove(row).contains(x) && old.contains(x) {
                let b = choose|b: int| 0 <= b < old.len() && old[b] == x;
                if b < pos {
                    assert(new[b] == x);
                } else {
                    assert(new[b - 1] == x);
                }
            }
        }
    }
    map_remove(rows(s), row);
    map_has(rows(s), row);
}

/// Giving a key another value.
pub proof fn replace_ok(s: State, f: int, pos: int, value: Seq<u8>)
    requires
        state::inv(s),
        0 <= f < s.order.len(),
        0 <= pos < state::rows_at(s, f).len(),
        node::rows_len(
            state::rows_at(s, f).update(
                pos,
                RowView { key: state::rows_at(s, f)[pos].key, value },
            ),
        ) <= node::LEAF_CAPACITY,
    ensures
        ({
            let key = state::rows_at(s, f)[pos].key;
            let t = change::with_rows(
                s,
                f,
                state::rows_at(s, f).update(pos, RowView { key, value }),
            );
            &&& state::inv(t)
            &&& contents(t) == contents(s).insert(key, value)
            &&& contents(s).contains_key(key)
        }),
{
    let old = state::rows_at(s, f);
    let row = old[pos];
    let other = RowView { key: row.key, value };
    let new = old.update(pos, other);
    let t = change::with_rows(s, f, new);
    replaced_belongs(s, f, pos, value);
    rows_of_changed(s, f, new);
    keys_differ_in(s);
    row_is_in(s, f, pos);
    assert(node::sorted_rows(old));
    assert(rows(t) =~= rows(s).remove(row).insert(other)) by {
        assert forall|x: RowView|
            rows(t).contains(x) <==> rows(s).remove(row).insert(other).contains(x) by {
            bytes::lex_lt_irreflexive(row.key);
            if new.contains(x) {
                let b = choose|b: int| 0 <= b < new.len() && new[b] == x;
                if b != pos {
                    assert(old[b] == x);
                    row_is_in(s, f, b);
                    if b < pos {
                        assert(bytes::lex_lt(old[b].key, old[pos].key));
                    } else {
                        assert(bytes::lex_lt(old[pos].key, old[b].key));
                    }
                }
            }
            if x == other {
                assert(new[pos] == x);
            } else if rows(s).remove(row).contains(x) && old.contains(x) {
                let b = choose|b: int| 0 <= b < old.len() && old[b] == x;
                assert(new[b] == x);
            }
        }
    }
    map_replace(rows(s), row, value);
    map_has(rows(s), row);
}

} // verus!
