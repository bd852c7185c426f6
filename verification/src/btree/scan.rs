//! Scans of a B-link tree along its leaves.
use vstd::prelude::*;

use crate::betree::scan as range;
use crate::betree::scan::{Bound, Row, RowView};
use crate::btree::contents;
use crate::btree::node;
use crate::btree::node::Node;
use crate::btree::state;
use crate::btree::state::State;
use crate::btree::tree::BTree;
use crate::bytes;

verus! {

/// Keys ascend.
pub open spec fn ascending(rows: Seq<RowView>) -> bool {
    forall|i: int, j: int|
        #![trigger rows[i], rows[j]]
        0 <= i < j < rows.len() ==> bytes::lex_lt(rows[i].key, rows[j].key)
}

/// Keys descend.
pub open spec fn descending(rows: Seq<RowView>) -> bool {
    forall|i: int, j: int|
        #![trigger rows[i], rows[j]]
        0 <= i < j < rows.len() ==> bytes::lex_lt(rows[j].key, rows[i].key)
}

/// The rows are the entries of the map whose keys are wanted.
pub open spec fn are_entries(
    map: Map<Seq<u8>, Seq<u8>>,
    wanted: spec_fn(Seq<u8>) -> bool,
    rows: Seq<RowView>,
) -> bool {
    forall|row: RowView| #[trigger]
        rows.contains(row) <==> map.contains_key(row.key) && map[row.key] == row.value && wanted(
            row.key,
        )
}

/// The row stands before row `pos` of leaf `g`.
pub open spec fn stands_before(s: State, g: int, pos: int, row: RowView) -> bool {
    exists|j: int, a: int|
        #![trigger state::rows_at(s, j)[a]]
        0 <= j < s.order.len() && 0 <= a < state::rows_at(s, j).len() && state::rows_at(s, j)[a]
            == row && (j < g || (j == g && a < pos))
}

/// The rows are those that are wanted up to row `pos` of leaf `g`.
pub open spec fn collected(
    s: State,
    wanted: spec_fn(Seq<u8>) -> bool,
    g: int,
    pos: int,
    rows: Seq<RowView>,
) -> bool {
    &&& ascending(rows)
    &&& forall|row: RowView| #[trigger]
        rows.contains(row) <==> stands_before(s, g, pos, row) && wanted(row.key)
}

/// Rows that stand before others have smaller keys.
proof fn before_is_below(s: State, g: int, pos: int, row: RowView)
    requires
        state::keys_ok(s),
        0 <= g < s.order.len(),
        0 <= pos < state::rows_at(s, g).len(),
        stands_before(s, g, pos, row),
    ensures
        bytes::lex_lt(row.key, state::rows_at(s, g)[pos].key),
{
    let (j, a) = choose|j: int, a: int|
        #![trigger state::rows_at(s, j)[a]]
        0 <= j < s.order.len() && 0 <= a < state::rows_at(s, j).len() && state::rows_at(s, j)[a]
            == row && (j < g || (j == g && a < pos));
    assert(node::sorted_rows(state::rows_at(s, g)));
    let x = state::rows_at(s, j)[a];
    let y = state::rows_at(s, g)[pos];
}

/// One position further.
proof fn before_next(s: State, g: int, pos: int, row: RowView)
    requires
        0 <= g < s.order.len(),
        0 <= pos < state::rows_at(s, g).len(),
    ensures
        stands_before(s, g, pos + 1, row) <==> stands_before(s, g, pos, row) || row
            == state::rows_at(s, g)[pos],
{
    if stands_before(s, g, pos + 1, row) {
        let (j, a) = choose|j: int, a: int|
            #![trigger state::rows_at(s, j)[a]]
            0 <= j < s.order.len() && 0 <= a < state::rows_at(s, j).len() && state::rows_at(
                s,
                j,
            )[a] == row && (j < g || (j == g && a < pos + 1));
        assert(state::rows_at(s, j)[a] == row);
    }
    if row == state::rows_at(s, g)[pos] {
        assert(state::rows_at(s, g)[pos] == row);
    }
}

/// The end of a leaf is the beginning of the next.
proof fn before_next_leaf(s: State, g: int, row: RowView)
    requires
        0 <= g < s.order.len(),
    ensures
        stands_before(s, g, state::rows_at(s, g).len() as int, row) <==> stands_before(
            s,
            g + 1,
            0,
            row,
        ),
{
    let n = state::rows_at(s, g).len() as int;
    if stands_before(s, g, n, row) {
        let (j, a) = choose|j: int, a: int|
            #![trigger state::rows_at(s, j)[a]]
            0 <= j < s.order.len() && 0 <= a < state::rows_at(s, j).len() && state::rows_at(
                s,
                j,
            )[a] == row && (j < g || (j == g && a < n));
        assert(state::rows_at(s, j)[a] == row);
    }
    if stands_before(s, g + 1, 0, row) {
        let (j, a) = choose|j: int, a: int|
            #![trigger state::rows_at(s, j)[a]]
            0 <= j < s.order.len() && 0 <= a < state::rows_at(s, j).len() && state::rows_at(
                s,
                j,
            )[a] == row && (j < g + 1 || (j == g + 1 && a < 0));
        assert(state::rows_at(s, j)[a] == row);
    }
}

/// A row of the tree that does not stand before a position has a key at or above
/// the key there.
proof fn behind_is_above(s: State, g: int, pos: int, row: RowView)
    requires
        state::keys_ok(s),
        0 <= g < s.order.len(),
        0 <= pos < state::rows_at(s, g).len(),
        contents::rows(s).contains(row),
        !stands_before(s, g, pos, row),
    ensures
        !bytes::lex_lt(row.key, state::rows_at(s, g)[pos].key),
{
    let (j, a) = choose|j: int, a: int|
        #![trigger state::rows_at(s, j)[a]]
        0 <= j < s.order.len() && 0 <= a < state::rows_at(s, j).len() && state::rows_at(s, j)[a]
            == row;
    let y = state::rows_at(s, g)[pos].key;
    assert(node::sorted_rows(state::rows_at(s, g)));
    bytes::lex_lt_irreflexive(y);
    if j == g && a == pos {
    } else {
        assert(j > g || (j == g && a > pos));
        assert(bytes::lex_lt(y, row.key)) by {
            let x = state::rows_at(s, j)[a];
            let z = state::rows_at(s, g)[pos];
        }
        bytes::lex_lt_asymmetric(y, row.key);
    }
}

/// All rows of the tree stand before its end.
proof fn all_before_end(s: State, g: int, pos: int, row: RowView)
    requires
        0 <= g,
        g + 1 >= s.order.len(),
        g < s.order.len() ==> pos >= state::rows_at(s, g).len(),
    ensures
        stands_before(s, g, pos, row) <==> contents::rows(s).contains(row),
{
    if contents::rows(s).contains(row) {
        let (j, a) = choose|j: int, a: int|
            #![trigger state::rows_at(s, j)[a]]
            0 <= j < s.order.len() && 0 <= a < state::rows_at(s, j).len() && state::rows_at(
                s,
                j,
            )[a] == row;
        assert(state::rows_at(s, j)[a] == row);
    }
    if stands_before(s, g, pos, row) {
        let (j, a) = choose|j: int, a: int|
            #![trigger state::rows_at(s, j)[a]]
            0 <= j < s.order.len() && 0 <= a < state::rows_at(s, j).len() && state::rows_at(
                s,
                j,
            )[a] == row && (j < g || (j == g && a < pos));
        assert(state::rows_at(s, j)[a] == row);
    }
}

/// What was collected is all that is wanted, if nothing behind it is.
proof fn collected_all(
    s: State,
    wanted: spec_fn(Seq<u8>) -> bool,
    g: int,
    pos: int,
    rows: Seq<RowView>,
)
    requires
        state::keys_ok(s),
        collected(s, wanted, g, pos, rows),
        forall|row: RowView| #[trigger]
            contents::rows(s).contains(row) && !stands_before(s, g, pos, row) ==> !wanted(
                row.key,
            ),
    ensures
        ascending(rows),
        are_entries(contents::contents(s), wanted, rows),
{
    contents::keys_differ_in(s);
    assert forall|row: RowView| #[trigger]
        rows.contains(row) <==> contents::contents(s).contains_key(row.key) && contents::contents(
            s,
        )[row.key] == row.value && wanted(row.key) by {
        if rows.contains(row) {
            let (j, a) = choose|j: int, a: int|
                #![trigger state::rows_at(s, j)[a]]
                0 <= j < s.order.len() && 0 <= a < state::rows_at(s, j).len() && state::rows_at(
                    s,
                    j,
                )[a] == row && (j < g || (j == g && a < pos));
            contents::row_is_in(s, j, a);
            contents::map_has(contents::rows(s), row);
        }
        if contents::contents(s).contains_key(row.key) && contents::contents(s)[row.key]
            == row.value && wanted(row.key) {
            let v = choose|value: Seq<u8>| #[trigger]
                contents::rows(s).contains(RowView { key: row.key, value });
            assert(contents::rows(s).contains(RowView { key: row.key, value: v }));
            contents::map_has(contents::rows(s), RowView { key: row.key, value: v });
            assert(row == RowView { key: row.key, value: v });
            assert(contents::rows(s).contains(row));
        }
    }
}

/// One more row at the end.
proof fn push_row(
    s: State,
    wanted: spec_fn(Seq<u8>) -> bool,
    g: int,
    pos: int,
    rows: Seq<RowView>,
)
    requires
        state::keys_ok(s),
        0 <= g < s.order.len(),
        0 <= pos < state::rows_at(s, g).len(),
        collected(s, wanted, g, pos, rows),
        wanted(state::rows_at(s, g)[pos].key),
    ensures
        collected(s, wanted, g, pos + 1, rows.push(state::rows_at(s, g)[pos])),
{
    let row = state::rows_at(s, g)[pos];
    let more = rows.push(row);
    assert forall|x: RowView| #[trigger]
        more.contains(x) <==> stands_before(s, g, pos + 1, x) && wanted(x.key) by {
        before_next(s, g, pos, x);
        assert(more.contains(x) <==> rows.contains(x) || x == row) by {
            if more.contains(x) {
                let i = choose|i: int| 0 <= i < more.len() && more[i] == x;
                if i < rows.len() {
                    assert(rows[i] == x);
                }
            }
            if rows.contains(x) {
                let i = choose|i: int| 0 <= i < rows.len() && rows[i] == x;
                assert(more[i] == x);
            }
            if x == row {
                assert(more[rows.len() as int] == x);
            }
        }
    }
    assert forall|i: int, j: int|
        #![trigger more[i], more[j]]
        0 <= i < j < more.len() implies bytes::lex_lt(more[i].key, more[j].key) by {
        if j < rows.len() {
            assert(bytes::lex_lt(rows[i].key, rows[j].key));
        } else {
            assert(rows.contains(rows[i]));
            before_is_below(s, g, pos, rows[i]);
        }
    }
}

proof fn next_leaf(
    s: State,
    wanted: spec_fn(Seq<u8>) -> bool,
    g: int,
    rows: Seq<RowView>,
)
    requires
        0 <= g < s.order.len(),
        collected(s, wanted, g, state::rows_at(s, g).len() as int, rows),
    ensures
        collected(s, wanted, g + 1, 0, rows),
{
    assert forall|x: RowView| #[trigger]
        rows.contains(x) <==> stands_before(s, g + 1, 0, x) && wanted(x.key) by {
        before_next_leaf(s, g, x);
    }
}

/// Nothing before the leaf of a bound, or before the bound in it, is above it.
proof fn nothing_yet(
    s: State,
    key: Seq<u8>,
    wanted: spec_fn(Seq<u8>) -> bool,
    f: int,
    start: int,
)
    requires
        state::keys_ok(s),
        contents::is_target(s, key, f),
        0 <= start <= state::rows_at(s, f).len(),
        forall|a: int|
            0 <= a < start ==> !wanted((#[trigger] state::rows_at(s, f)[a]).key),
        forall|k: Seq<u8>| #[trigger] wanted(k) ==> !bytes::lex_lt(k, key),
    ensures
        collected(s, wanted, f, start, Seq::empty()),
{
    let none = Seq::<RowView>::empty();
    assert forall|x: RowView| #[trigger]
        none.contains(x) <==> stands_before(s, f, start, x) && wanted(x.key) by {
        if stands_before(s, f, start, x) && wanted(x.key) {
            let (j, a) = choose|j: int, a: int|
                #![trigger state::rows_at(s, j)[a]]
                0 <= j < s.order.len() && 0 <= a < state::rows_at(s, j).len() && state::rows_at(
                    s,
                    j,
                )[a] == x && (j < f || (j == f && a < start));
            if j < f {
                assert(contents::all_below(state::rows_at(s, j), key));
                assert(bytes::lex_lt(state::rows_at(s, j)[a].key, key));
            } else {
                assert(!wanted(state::rows_at(s, f)[a].key));
            }
        }
    }
}

/// Keys between a prefix and a key with that prefix have it too.
pub proof fn prefix_is_a_range(prefix: Seq<u8>, a: Seq<u8>, b: Seq<u8>)
    requires
        !bytes::lex_lt(a, prefix),
        !bytes::lex_lt(b, a),
        bytes::has_prefix(b, prefix),
    ensures
        bytes::has_prefix(a, prefix),
    decreases prefix.len(),
{
    if prefix.len() == 0 {
        assert(a.subrange(0, 0) =~= prefix);
    } else {
        assert(b[0] == prefix[0]) by {
            assert(b.subrange(0, prefix.len() as int)[0] == b[0]);
        }
        assert(a.len() > 0);
        assert(a[0] == prefix[0]);
        assert(bytes::has_prefix(b.skip(1), prefix.skip(1))) by {
            assert(b.skip(1).subrange(0, prefix.len() - 1) =~= prefix.skip(1)) by {
                assert forall|i: int| 0 <= i < prefix.len() - 1 implies b.skip(1)[i]
                    == prefix.skip(1)[i] by {
                    assert(b.subrange(0, prefix.len() as int)[i + 1] == prefix[i + 1]);
                }
            }
        }
        prefix_is_a_range(prefix.skip(1), a.skip(1), b.skip(1));
        assert(a.subrange(0, prefix.len() as int) =~= prefix) by {
            assert forall|i: int| 0 <= i < prefix.len() implies a[i] == prefix[i] by {
                if i > 0 {
                    assert(a.skip(1).subrange(0, prefix.len() - 1)[i - 1] == prefix.skip(1)[i
                        - 1]);
                }
            }
        }
    }
}

/// A key with a prefix is not below it.
pub proof fn prefix_is_below(prefix: Seq<u8>, key: Seq<u8>)
    requires
        bytes::has_prefix(key, prefix),
    ensures
        !bytes::lex_lt(key, prefix),
    decreases prefix.len(),
{
    if prefix.len() > 0 {
        assert(key.subrange(0, prefix.len() as int)[0] == key[0]);
        assert(bytes::has_prefix(key.skip(1), prefix.skip(1))) by {
            assert(key.skip(1).subrange(0, prefix.len() - 1) =~= prefix.skip(1)) by {
                assert forall|i: int| 0 <= i < prefix.len() - 1 implies key.skip(1)[i]
                    == prefix.skip(1)[i] by {
                    assert(key.subrange(0, prefix.len() as int)[i + 1] == prefix[i + 1]);
                }
            }
        }
        prefix_is_below(prefix.skip(1), key.skip(1));
    }
}

fn copy_row(row: &Row) -> (r: Row)
    ensures
        r@ == row@,
{
    Row { key: bytes::copy_bytes(row.key.as_slice()), value: bytes::copy_bytes(row.value.as_slice()) }
}

/// Which rows a scan wants.
#[derive(Clone, Copy)]
enum Wanted<'a> {
    Below(Bound<'a>, Bound<'a>),
    Prefix(&'a [u8]),
}

spec fn is_wanted(w: Wanted<'_>) -> spec_fn(Seq<u8>) -> bool {
    |key: Seq<u8>|
        match w {
            Wanted::Below(lower, upper) => range::in_range(key, lower, upper),
            Wanted::Prefix(prefix) => bytes::has_prefix(key, prefix@),
        }
}

/// The key from which the wanted keys begin.
spec fn from_key(w: Wanted<'_>) -> Seq<u8> {
    match w {
        Wanted::Below(Bound::Included(key), _) => key@,
        Wanted::Below(Bound::Excluded(key), _) => key@,
        Wanted::Below(Bound::Unbounded, _) => Seq::empty(),
        Wanted::Prefix(prefix) => prefix@,
    }
}

impl BTree {
    /// The first row that may be wanted, in the leaf where it may stand.
    fn scan_start(&self, leaf: u64, w: Wanted<'_>) -> (r: usize)
        requires
            self.wf(),
            state::is_leaf(self.state(), leaf),
            contents::is_target(
                self.state(),
                from_key(w),
                state::lo(self.state(), leaf),
            ),
        ensures
            ({
                let s = self.state();
                let f = state::lo(s, leaf);
                &&& r <= state::rows_at(s, f).len()
                &&& collected(s, is_wanted(w), f, r as int, Seq::empty())
                &&& forall|a: int|
                    r <= a < state::rows_at(s, f).len() ==> !bytes::lex_lt(
                        (#[trigger] state::rows_at(s, f)[a]).key,
                        from_key(w),
                    ) && (w matches Wanted::Below(lower, _) ==> range::above_lower(
                        state::rows_at(s, f)[a].key,
                        lower,
                    ))
            }),
    {
        let ghost s = self.state();
        let ghost f = self.leaf_facts(leaf);
        let ghost rows = state::rows_at(s, f);
        let ghost wanted = is_wanted(w);
        let start: usize = match self.node_at(leaf) {
            Node::Leaf(node) => {
                assert(range::rows_view(node.rows@) == rows);
                match w {
                    Wanted::Below(Bound::Unbounded, _) => 0,
                    Wanted::Below(Bound::Included(key), _) => {
                        let (pos, _) = node::lower_bound(node.rows.as_slice(), key);
                        pos
                    },
                    Wanted::Below(Bound::Excluded(key), _) => node::upper_bound(
                        node.rows.as_slice(),
                        key,
                    ),
                    Wanted::Prefix(prefix) => {
                        let (pos, _) = node::lower_bound(node.rows.as_slice(), prefix);
                        pos
                    },
                }
            },
            _ => 0,
        };
        proof {
            let key = from_key(w);
            bytes::lex_lt_irreflexive(key);
            assert forall|k: Seq<u8>| #[trigger] wanted(k) implies !bytes::lex_lt(k, key) by {
                match w {
                    Wanted::Below(Bound::Excluded(b), _) => {
                        bytes::lex_lt_asymmetric(b@, k);
                    },
                    Wanted::Prefix(prefix) => {
                        prefix_is_below(prefix@, k);
                    },
                    _ => {},
                }
            }
            assert forall|a: int| 0 <= a < start implies !wanted(
                (#[trigger] state::rows_at(s, f)[a]).key,
            ) by {
                let k = rows[a].key;
                match w {
                    Wanted::Prefix(prefix) => {
                        if wanted(k) {
                            prefix_is_below(prefix@, k);
                        }
                    },
                    _ => {},
                }
            }
            nothing_yet(s, key, wanted, f, start as int);
            assert forall|a: int| start <= a < rows.len() implies !bytes::lex_lt(
                (#[trigger] state::rows_at(s, f)[a]).key,
                key,
            ) && (w matches Wanted::Below(lower, _) ==> range::above_lower(
                state::rows_at(s, f)[a].key,
                lower,
            )) by {
                let k = rows[a].key;
                match w {
                    Wanted::Below(Bound::Excluded(b), _) => {
                        bytes::lex_lt_asymmetric(b@, k);
                    },
                    Wanted::Below(Bound::Unbounded, _) => {
                        crate::betree::read::nothing_below_empty(k);
                    },
                    _ => {},
                }
            }
        }
        start
    }
}

/// Whether a key at or behind the start is still wanted.
fn still_wanted(key: &[u8], w: Wanted<'_>) -> (r: bool)
    requires
        !bytes::lex_lt(key@, from_key(w)),
        w matches Wanted::Below(lower, _) ==> range::above_lower(key@, lower),
    ensures
        r == is_wanted(w)(key@),
{
    match w {
        Wanted::Below(_, Bound::Unbounded) => true,
        Wanted::Below(_, Bound::Included(limit)) => !bytes::key_less(limit, key),
        Wanted::Below(_, Bound::Excluded(limit)) => bytes::key_less(key, limit),
        Wanted::Prefix(prefix) => bytes::starts_with(key, prefix),
    }
}

/// Once a key at or behind the start is not wanted, no later one is.
proof fn none_later(w: Wanted<'_>, a: Seq<u8>, b: Seq<u8>)
    requires
        !bytes::lex_lt(a, from_key(w)),
        w matches Wanted::Below(lower, _) ==> range::above_lower(a, lower),
        !is_wanted(w)(a),
        !bytes::lex_lt(b, a),
    ensures
        !is_wanted(w)(b),
{
    bytes::lex_lt_total(a, b);
    match w {
        Wanted::Below(_, Bound::Included(limit)) => {
            if a != b {
                bytes::lex_lt_transitive(limit@, a, b);
            }
        },
        Wanted::Below(_, Bound::Excluded(limit)) => {
            if bytes::lex_lt(b, limit@) && a != b {
                bytes::lex_lt_transitive(a, b, limit@);
            }
        },
        Wanted::Prefix(prefix) => {
            if bytes::has_prefix(b, prefix@) {
                prefix_is_a_range(prefix@, a, b);
            }
        },
        _ => {},
    }
}

/// All keys from a position on are at or behind the start of the scan.
spec fn past_start(s: State, w: Wanted<'_>, g: int, pos: int) -> bool {
    forall|j: int, a: int|
        #![trigger state::rows_at(s, j)[a]]
        0 <= j < s.order.len() && 0 <= a < state::rows_at(s, j).len() && (j > g || (j == g && a
            >= pos)) ==> !bytes::lex_lt(state::rows_at(s, j)[a].key, from_key(w)) && (
        w matches Wanted::Below(lower, _) ==> range::above_lower(
            state::rows_at(s, j)[a].key,
            lower,
        ))
}

proof fn later_leaves_are_past(s: State, w: Wanted<'_>, f: int, start: int)
    requires
        state::keys_ok(s),
        contents::is_target(s, from_key(w), f),
        0 <= start <= state::rows_at(s, f).len(),
        forall|a: int|
            start <= a < state::rows_at(s, f).len() ==> !bytes::lex_lt(
                (#[trigger] state::rows_at(s, f)[a]).key,
                from_key(w),
            ) && (w matches Wanted::Below(lower, _) ==> range::above_lower(
                state::rows_at(s, f)[a].key,
                lower,
            )),
    ensures
        past_start(s, w, f, start),
{
    let key = from_key(w);
    assert forall|j: int, a: int|
        #![trigger state::rows_at(s, j)[a]]
        0 <= j < s.order.len() && 0 <= a < state::rows_at(s, j).len() && (j > f || (j == f && a
            >= start)) implies !bytes::lex_lt(state::rows_at(s, j)[a].key, key) && (
    w matches Wanted::Below(lower, _) ==> range::above_lower(
        state::rows_at(s, j)[a].key,
        lower,
    )) by {
        if j > f {
            let x = state::rows_at(s, j)[a].key;
            contents::above_target(s, key, f, j, a);
            bytes::lex_lt_asymmetric(key, x);
        }
    }
}

impl BTree {
    /// Collect what is wanted along the leaves, from the leaf of the lower bound.
    fn collect(&self, leaf: u64, w: Wanted<'_>) -> (r: Vec<Row>)
        requires
            self.wf(),
            state::is_leaf(self.state(), leaf),
            contents::is_target(
                self.state(),
                from_key(w),
                state::lo(self.state(), leaf),
            ),
        ensures
            ascending(range::rows_view(r@)),
            are_entries(self@, is_wanted(w), range::rows_view(r@)),
    {
        let ghost s = self.state();
        let ghost wanted = is_wanted(w);
        let mut out: Vec<Row> = Vec::new();
        let mut current: u64 = leaf;
        let mut pos: usize = self.scan_start(leaf, w);
        proof {
            let f = state::lo(s, leaf);
            later_leaves_are_past(s, w, f, pos as int);
            assert(range::rows_view(out@) =~= Seq::<RowView>::empty());
        }
        loop
            invariant
                self.wf(),
                s == self.state(),
                wanted == is_wanted(w),
                state::is_leaf(s, current),
                pos <= state::rows_at(s, state::lo(s, current)).len(),
                collected(
                    s,
                    wanted,
                    state::lo(s, current),
                    pos as int,
                    range::rows_view(out@),
                ),
                past_start(s, w, state::lo(s, current), pos as int),
            decreases s.order.len() - state::lo(s, current),
        {
            let ghost g = self.leaf_facts(current);
            let ghost rows = state::rows_at(s, g);
            let right: u64 = match self.node_at(current) {
                Node::Leaf(node) => {
                    assert(range::rows_view(node.rows@) == rows);
                    let count: usize = node.rows.len();
                    while pos < count
                        invariant
                            self.wf(),
                            s == self.state(),
                            wanted == is_wanted(w),
                            0 <= g < s.order.len(),
                            rows == state::rows_at(s, g),
                            rows == range::rows_view(node.rows@),
                            pos <= count == node.rows@.len(),
                            collected(s, wanted, g, pos as int, range::rows_view(out@)),
                            past_start(s, w, g, pos as int),
                        decreases count - pos,
                    {
                        let ghost before = range::rows_view(out@);
                        let ghost key = state::rows_at(s, g)[pos as int].key;
                        assert(key == node.rows@[pos as int].key@);
                        if !still_wanted(node.rows[pos].key.as_slice(), w) {
                            proof {
                                assert forall|row: RowView| #[trigger]
                                    contents::rows(s).contains(row) && !stands_before(
                                        s,
                                        g,
                                        pos as int,
                                        row,
                                    ) implies !wanted(row.key) by {
                                    behind_is_above(s, g, pos as int, row);
                                    none_later(w, key, row.key);
                                }
                                collected_all(s, wanted, g, pos as int, before);
                            }
                            return out;
                        }
                        proof {
                            push_row(s, wanted, g, pos as int, before);
                        }
                        let row = copy_row(&node.rows[pos]);
                        out.push(row);
                        assert(range::rows_view(out@) =~= before.push(rows[pos as int]));
                        pos += 1;
                    }
                    node.right
                },
                _ => 0,
            };
            if right == 0 {
                proof {
                    assert forall|row: RowView| #[trigger]
                        contents::rows(s).contains(row) && !stands_before(
                            s,
                            g,
                            pos as int,
                            row,
                        ) implies !wanted(row.key) by {
                        all_before_end(s, g, pos as int, row);
                    }
                    collected_all(s, wanted, g, pos as int, range::rows_view(out@));
                }
                return out;
            }
            proof {
                next_leaf(s, wanted, g, range::rows_view(out@));
            }
            current = right;
            pos = 0;
        }
    }

    /// The entries whose keys lie in a range, in ascending order.
    pub fn scan_range(&self, lower: Bound<'_>, upper: Bound<'_>) -> (r: Vec<Row>)
        requires
            self.wf(),
        ensures
            ascending(range::rows_view(r@)),
            are_entries(
                self@,
                |key: Seq<u8>| range::in_range(key, lower, upper),
                range::rows_view(r@),
            ),
    {
        let w = Wanted::Below(lower, upper);
        let leaf: u64 = match lower {
            Bound::Included(key) => self.find_leaf(key),
            Bound::Excluded(key) => self.find_leaf(key),
            Bound::Unbounded => {
                let first: Vec<u8> = Vec::new();
                assert(first@ =~= Seq::<u8>::empty());
                self.find_leaf(first.as_slice())
            },
        };
        let r = self.collect(leaf, w);
        assert(is_wanted(w) =~= (|key: Seq<u8>| range::in_range(key, lower, upper)));
        r
    }

    /// All entries, in ascending order.
    pub fn scan(&self) -> (r: Vec<Row>)
        requires
            self.wf(),
        ensures
            ascending(range::rows_view(r@)),
            are_entries(self@, |key: Seq<u8>| true, range::rows_view(r@)),
    {
        let r = self.scan_range(Bound::Unbounded, Bound::Unbounded);
        assert((|key: Seq<u8>| range::in_range(key, Bound::Unbounded, Bound::Unbounded)) =~= (|
            key: Seq<u8>,
        | true));
        r
    }

    /// The entries whose keys start with a prefix, in ascending order.
    pub fn scan_prefix(&self, prefix: &[u8]) -> (r: Vec<Row>)
        requires
            self.wf(),
        ensures
            ascending(range::rows_view(r@)),
            are_entries(
                self@,
                |key: Seq<u8>| bytes::has_prefix(key, prefix@),
                range::rows_view(r@),
            ),
    {
        let w = Wanted::Prefix(prefix);
        let leaf: u64 = self.find_leaf(prefix);
        let r = self.collect(leaf, w);
        assert(is_wanted(w) =~= (|key: Seq<u8>| bytes::has_prefix(key, prefix@)));
        r
    }
}

// ---------------------------------------------------------------------------
// Descending scans.

/// The rows are those that are wanted from row `pos` of leaf `g` on, backwards.
pub open spec fn collected_back(
    s: State,
    wanted: spec_fn(Seq<u8>) -> bool,
    g: int,
    pos: int,
    rows: Seq<RowView>,
) -> bool {
    &&& descending(rows)
    &&& forall|row: RowView| #[trigger]
        rows.contains(row) <==> contents::rows(s).contains(row) && !stands_before(s, g, pos, row)
            && wanted(row.key)
}

/// One more row in front.
proof fn push_row_back(
    s: State,
    wanted: spec_fn(Seq<u8>) -> bool,
    g: int,
    pos: int,
    rows: Seq<RowView>,
)
    requires
        state::keys_ok(s),
        0 <= g < s.order.len(),
        0 < pos <= state::rows_at(s, g).len(),
        collected_back(s, wanted, g, pos, rows),
        wanted(state::rows_at(s, g)[pos - 1].key),
    ensures
        collected_back(s, wanted, g, pos - 1, rows.push(state::rows_at(s, g)[pos - 1])),
{
    let row = state::rows_at(s, g)[pos - 1];
    let more = rows.push(row);
    contents::row_is_in(s, g, pos - 1);
    bytes::lex_lt_irreflexive(row.key);
    if stands_before(s, g, pos - 1, row) {
        before_is_below(s, g, pos - 1, row);
    }
    assert forall|x: RowView| #[trigger]
        more.contains(x) <==> contents::rows(s).contains(x) && !stands_before(s, g, pos - 1, x)
            && wanted(x.key) by {
        before_next(s, g, pos - 1, x);
        assert(more.contains(x) <==> rows.contains(x) || x == row) by {
            if more.contains(x) {
                let i = choose|i: int| 0 <= i < more.len() && more[i] == x;
                if i < rows.len() {
                    assert(rows[i] == x);
                }
            }
            if rows.contains(x) {
                let i = choose|i: int| 0 <= i < rows.len() && rows[i] == x;
                assert(more[i] == x);
            }
            if x == row {
                assert(more[rows.len() as int] == x);
            }
        }
    }
    assert forall|i: int, j: int|
        #![trigger more[i], more[j]]
        0 <= i < j < more.len() implies bytes::lex_lt(more[j].key, more[i].key) by {
        if j < rows.len() {
            assert(bytes::lex_lt(rows[j].key, rows[i].key));
        } else {
            let x = rows[i];
            assert(rows.contains(x));
            before_next(s, g, pos - 1, x);
            behind_is_above(s, g, pos - 1, x);
            bytes::lex_lt_total(x.key, row.key);
            if x.key == row.key {
                contents::keys_differ_in(s);
                assert(stands_before(s, g, pos, row));
            }
        }
    }
}

proof fn previous_leaf(
    s: State,
    wanted: spec_fn(Seq<u8>) -> bool,
    g: int,
    rows: Seq<RowView>,
)
    requires
        0 < g < s.order.len(),
        collected_back(s, wanted, g, 0, rows),
    ensures
        collected_back(s, wanted, g - 1, state::rows_at(s, g - 1).len() as int, rows),
{
    let n = state::rows_at(s, g - 1).len() as int;
    assert forall|x: RowView| #[trigger]
        rows.contains(x) <==> contents::rows(s).contains(x) && !stands_before(s, g - 1, n, x)
            && wanted(x.key) by {
        before_next_leaf(s, g - 1, x);
    }
}

/// What was collected is all that is wanted, if nothing before it is.
proof fn collected_all_back(
    s: State,
    wanted: spec_fn(Seq<u8>) -> bool,
    g: int,
    pos: int,
    rows: Seq<RowView>,
)
    requires
        state::keys_ok(s),
        collected_back(s, wanted, g, pos, rows),
        forall|row: RowView| #[trigger] stands_before(s, g, pos, row) ==> !wanted(row.key),
    ensures
        descending(rows),
        are_entries(contents::contents(s), wanted, rows),
{
    contents::keys_differ_in(s);
    assert forall|row: RowView| #[trigger]
        rows.contains(row) <==> contents::contents(s).contains_key(row.key) && contents::contents(
            s,
        )[row.key] == row.value && wanted(row.key) by {
        if rows.contains(row) {
            contents::map_has(contents::rows(s), row);
        }
        if contents::contents(s).contains_key(row.key) && contents::contents(s)[row.key]
            == row.value && wanted(row.key) {
            let v = choose|value: Seq<u8>| #[trigger]
                contents::rows(s).contains(RowView { key: row.key, value });
            assert(contents::rows(s).contains(RowView { key: row.key, value: v }));
            contents::map_has(contents::rows(s), RowView { key: row.key, value: v });
            assert(row == RowView { key: row.key, value: v });
            if stands_before(s, g, pos, row) {
                assert(!wanted(row.key));
            }
        }
    }
}

/// Nothing from a position on lies below the upper bound, and all before it does.
spec fn ends_at(s: State, upper: Bound<'_>, g: int, pos: int) -> bool {
    &&& forall|row: RowView| #[trigger]
        stands_before(s, g, pos, row) ==> range::below_upper(row.key, upper)
    &&& forall|row: RowView| #[trigger]
        contents::rows(s).contains(row) && !stands_before(s, g, pos, row) ==> !range::below_upper(
            row.key,
            upper,
        )
}

/// Where a bound divides the rows of the tree.
proof fn divides(s: State, key: Seq<u8>, upper: Bound<'_>, f: int, n: int)
    requires
        state::keys_ok(s),
        contents::is_target(s, key, f),
        0 <= n <= state::rows_at(s, f).len(),
        upper matches Bound::Included(b) ==> b@ == key,
        upper matches Bound::Excluded(b) ==> b@ == key,
        !(upper is Unbounded),
        forall|a: int|
            0 <= a < n ==> range::below_upper((#[trigger] state::rows_at(s, f)[a]).key, upper),
        forall|a: int|
            n <= a < state::rows_at(s, f).len() ==> !range::below_upper(
                (#[trigger] state::rows_at(s, f)[a]).key,
                upper,
            ),
    ensures
        ends_at(s, upper, f, n),
{
    assert forall|row: RowView| #[trigger]
        stands_before(s, f, n, row) implies range::below_upper(row.key, upper) by {
        let (j, a) = choose|j: int, a: int|
            #![trigger state::rows_at(s, j)[a]]
            0 <= j < s.order.len() && 0 <= a < state::rows_at(s, j).len() && state::rows_at(
                s,
                j,
            )[a] == row && (j < f || (j == f && a < n));
        if j < f {
            assert(contents::all_below(state::rows_at(s, j), key));
            assert(bytes::lex_lt(state::rows_at(s, j)[a].key, key));
            bytes::lex_lt_asymmetric(row.key, key);
        }
    }
    assert forall|row: RowView| #[trigger]
        contents::rows(s).contains(row) && !stands_before(s, f, n, row) implies
    !range::below_upper(row.key, upper) by {
        let (j, a) = choose|j: int, a: int|
            #![trigger state::rows_at(s, j)[a]]
            0 <= j < s.order.len() && 0 <= a < state::rows_at(s, j).len() && state::rows_at(
                s,
                j,
            )[a] == row;
        if j > f {
            contents::above_target(s, key, f, j, a);
            bytes::lex_lt_asymmetric(key, row.key);
        } else {
            assert(j == f && a >= n);
        }
    }
}

impl BTree {
    /// The last leaf.
    fn find_rightmost_leaf(&self) -> (r: u64)
        requires
            self.wf(),
        ensures
            state::is_leaf(self.state(), r),
            state::lo(self.state(), r) + 1 == self.state().order.len(),
    {
        let ghost s = self.state();
        proof {
            self.unfold();
        }
        let mut current: u64 = self.root;
        loop
            invariant
                self.wf(),
                s == self.state(),
                state::live(s, current),
                state::hi(s, current) == s.order.len(),
            decreases state::level(s, current),
        {
            match self.node_at(current) {
                Node::Inner(inner) => {
                    let count: usize = inner.children.len();
                    proof {
                        assert(inner.children@ == state::kids(s, current));
                        assert(state::kid_ok(s, current, count - 1));
                    }
                    current = inner.children[count - 1];
                },
                _ => {
                    return current;
                },
            }
        }
    }

    /// The leaf where a descending scan begins, and the number of its rows that
    /// lie below the upper bound.
    fn scan_end(&self, upper: Bound<'_>) -> (r: (u64, usize))
        requires
            self.wf(),
        ensures
            state::is_leaf(self.state(), r.0),
            r.1 <= state::rows_at(self.state(), state::lo(self.state(), r.0)).len(),
            ends_at(self.state(), upper, state::lo(self.state(), r.0), r.1 as int),
    {
        let ghost s = self.state();
        let leaf: u64 = match upper {
            Bound::Unbounded => self.find_rightmost_leaf(),
            Bound::Included(key) => self.find_leaf(key),
            Bound::Excluded(key) => self.find_leaf(key),
        };
        let ghost f = self.leaf_facts(leaf);
        let ghost rows = state::rows_at(s, f);
        let n: usize = match self.node_at(leaf) {
            Node::Leaf(node) => {
                assert(range::rows_view(node.rows@) == rows);
                match upper {
                    Bound::Unbounded => node.rows.len(),
                    Bound::Included(key) => node::upper_bound(node.rows.as_slice(), key),
                    Bound::Excluded(key) => {
                        let (pos, _) = node::lower_bound(node.rows.as_slice(), key);
                        pos
                    },
                }
            },
            _ => 0,
        };
        proof {
            match upper {
                Bound::Unbounded => {
                    assert forall|row: RowView| #[trigger]
                        contents::rows(s).contains(row) && !stands_before(
                            s,
                            f,
                            n as int,
                            row,
                        ) implies !range::below_upper(row.key, upper) by {
                        all_before_end(s, f, n as int, row);
                    }
                },
                Bound::Included(key) => {
                    divides(s, key@, upper, f, n as int);
                },
                Bound::Excluded(key) => {
                    divides(s, key@, upper, f, n as int);
                },
            }
        }
        (leaf, n)
    }

    /// The entries whose keys lie in a range, in descending order.
    pub fn scan_range_desc(&self, lower: Bound<'_>, upper: Bound<'_>) -> (r: Vec<Row>)
        requires
            self.wf(),
        ensures
            descending(range::rows_view(r@)),
            are_entries(
                self@,
                |key: Seq<u8>| range::in_range(key, lower, upper),
                range::rows_view(r@),
            ),
    {
        let ghost s = self.state();
        let ghost wanted = |key: Seq<u8>| range::in_range(key, lower, upper);
        let mut out: Vec<Row> = Vec::new();
        let (first, n) = self.scan_end(upper);
        let mut current: u64 = first;
        let mut pos: usize = n;
        proof {
            assert(range::rows_view(out@) =~= Seq::<RowView>::empty());
        }
        loop
            invariant
                self.wf(),
                s == self.state(),
                wanted == (|key: Seq<u8>| range::in_range(key, lower, upper)),
                state::is_leaf(s, current),
                pos <= state::rows_at(s, state::lo(s, current)).len(),
                collected_back(
                    s,
                    wanted,
                    state::lo(s, current),
                    pos as int,
                    range::rows_view(out@),
                ),
                forall|row: RowView| #[trigger]
                    stands_before(s, state::lo(s, current), pos as int, row)
                        ==> range::below_upper(row.key, upper),
            decreases state::lo(s, current),
        {
            let ghost g = self.leaf_facts(current);
            let ghost rows = state::rows_at(s, g);
            let left: u64 = match self.node_at(current) {
                Node::Leaf(node) => {
                    assert(range::rows_view(node.rows@) == rows);
                    let count: usize = node.rows.len();
                    assert(pos <= count);
                    while pos > 0
                        invariant
                            self.wf(),
                            s == self.state(),
                            wanted == (|key: Seq<u8>| range::in_range(key, lower, upper)),
                            0 <= g < s.order.len(),
                            rows == state::rows_at(s, g),
                            rows == range::rows_view(node.rows@),
                            pos <= node.rows@.len(),
                            collected_back(s, wanted, g, pos as int, range::rows_view(out@)),
                            forall|row: RowView| #[trigger]
                                stands_before(s, g, pos as int, row) ==> range::below_upper(
                                    row.key,
                                    upper,
                                ),
                        decreases pos,
                    {
                        let ghost before = range::rows_view(out@);
                        let ghost key = state::rows_at(s, g)[pos - 1].key;
                        assert(key == node.rows@[pos - 1].key@);
                        proof {
                            before_next(s, g, pos - 1, state::rows_at(s, g)[pos - 1]);
                        }
                        if !range::range_contains(
                            node.rows[pos - 1].key.as_slice(),
                            lower,
                            Bound::Unbounded,
                        ) {
                            proof {
                                assert forall|row: RowView| #[trigger]
                                    stands_before(s, g, pos as int, row) implies !wanted(
                                    row.key,
                                ) by {
                                    before_next(s, g, pos - 1, row);
                                    if row != state::rows_at(s, g)[pos - 1] {
                                        before_is_below(s, g, pos - 1, row);
                                        below_lower(lower, row.key, key);
                                    }
                                }
                                collected_all_back(s, wanted, g, pos as int, before);
                            }
                            return out;
                        }
                        proof {
                            push_row_back(s, wanted, g, pos as int, before);
                            assert forall|row: RowView| #[trigger]
                                stands_before(s, g, pos - 1, row) implies range::below_upper(
                                row.key,
                                upper,
                            ) by {
                                before_next(s, g, pos - 1, row);
                            }
                        }
                        let row = copy_row(&node.rows[pos - 1]);
                        out.push(row);
                        assert(range::rows_view(out@) =~= before.push(rows[pos - 1]));
                        pos -= 1;
                    }
                    node.left
                },
                _ => 0,
            };
            proof {
                self.left_facts(current);
            }
            if left == 0 {
                proof {
                    assert forall|row: RowView| #[trigger]
                        stands_before(s, g, pos as int, row) implies !wanted(row.key) by {
                        let (j, a) = choose|j: int, a: int|
                            #![trigger state::rows_at(s, j)[a]]
                            0 <= j < s.order.len() && 0 <= a < state::rows_at(s, j).len()
                                && state::rows_at(s, j)[a] == row && (j < g || (j == g && a
                                < pos));
                    }
                    collected_all_back(s, wanted, g, pos as int, range::rows_view(out@));
                }
                return out;
            }
            proof {
                previous_leaf(s, wanted, g, range::rows_view(out@));
                assert forall|row: RowView| #[trigger]
                    stands_before(
                        s,
                        g - 1,
                        state::rows_at(s, g - 1).len() as int,
                        row,
                    ) implies range::below_upper(row.key, upper) by {
                    before_next_leaf(s, g - 1, row);
                }
            }
            current = left;
            pos = self.row_count(left);
        }
    }

    /// The neighbour to the left of a leaf.
    proof fn left_facts(&self, pid: u64)
        requires
            self.wf(),
            state::is_leaf(self.state(), pid),
        ensures
            ({
                let s = self.state();
                let g = state::lo(s, pid);
                let left = s.nodes[pid as int]->left;
                &&& left == 0 <==> g == 0
                &&& g > 0 ==> left == s.order[g - 1] && state::is_leaf(s, left) && state::lo(
                    s,
                    left,
                ) == g - 1
            }),
    {
        let s = self.state();
        let g = self.leaf_facts(pid);
        if g > 0 {
            assert(state::is_leaf(s, s.order[g - 1]));
            assert(state::node_ok(s, s.order[g - 1]));
        }
        assert(s.order[g] == pid);
    }
}

/// What is below a key that a lower bound leaves out is left out too.
proof fn below_lower(lower: Bound<'_>, a: Seq<u8>, b: Seq<u8>)
    requires
        bytes::lex_lt(a, b),
        !range::above_lower(b, lower),
    ensures
        !range::above_lower(a, lower),
{
    match lower {
        Bound::Included(key) => {
            bytes::lex_lt_transitive(a, b, key@);
        },
        Bound::Excluded(key) => {
            if bytes::lex_lt(key@, a) {
                bytes::lex_lt_transitive(key@, a, b);
            }
        },
        Bound::Unbounded => {},
    }
}

// ---------------------------------------------------------------------------
// Scans that may stop early.

/// `f` was called with a row and gave this answer.
pub open spec fn answered<F: Fn(&[u8], &[u8]) -> bool>(f: F, row: RowView, answer: bool) -> bool {
    exists|key: &[u8], value: &[u8]| #[trigger]
        f.ensures((key, value), answer) && key@ == row.key && value@ == row.value
}

/// A scan of `all` handed `rows` to `f`: it went on while `f` said so.
pub open spec fn stopped_by<F: Fn(&[u8], &[u8]) -> bool>(
    all: Seq<RowView>,
    rows: Seq<RowView>,
    f: F,
) -> bool {
    &&& rows.len() <= all.len()
    &&& rows == all.take(rows.len() as int)
    &&& forall|i: int| 0 <= i < rows.len() - 1 ==> answered(f, #[trigger] rows[i], true)
    &&& rows.len() < all.len() ==> rows.len() > 0 && answered(f, rows.last(), false)
}

/// Hand rows to `f` while it says so.
#[verifier::loop_isolation(false)]
fn visit_until<F: Fn(&[u8], &[u8]) -> bool>(rows: Vec<Row>, f: F) -> (r: Vec<Row>)
    requires
        forall|key: &[u8], value: &[u8]| #[trigger] f.requires((key, value)),
    ensures
        stopped_by(range::rows_view(rows@), range::rows_view(r@), f),
{
    let ghost all = range::rows_view(rows@);
    let mut rows = rows;
    let count: usize = rows.len();
    let mut i: usize = 0;
    while i < count
        invariant
            i <= count == rows@.len(),
            all == range::rows_view(rows@),
            forall|key: &[u8], value: &[u8]| #[trigger] f.requires((key, value)),
            forall|k: int| 0 <= k < i ==> answered(f, #[trigger] all[k], true),
        decreases count - i,
    {
        assert(all[i as int] == rows@[i as int]@);
        let go_on = f(rows[i].key.as_slice(), rows[i].value.as_slice());
        assert(answered(f, all[i as int], go_on));
        if !go_on {
            rows.truncate(i + 1);
            proof {
                let part = range::rows_view(rows@);
                assert(part =~= all.take(i + 1));
                assert(part.last() == all[i as int]);
                assert(answered(f, part.last(), false));
                assert forall|k: int| 0 <= k < part.len() - 1 implies answered(
                    f,
                    #[trigger] part[k],
                    true,
                ) by {
                    assert(part[k] == all[k]);
                }
            }
            return rows;
        }
        i += 1;
    }
    proof {
        assert(all.take(all.len() as int) =~= all);
    }
    rows
}

impl BTree {
    /// Hand the entries of a range to `f` in ascending order, while it says so;
    /// those that it was given.
    pub fn scan_range_until<F: Fn(&[u8], &[u8]) -> bool>(
        &self,
        lower: Bound<'_>,
        upper: Bound<'_>,
        f: F,
    ) -> (r: Vec<Row>)
        requires
            self.wf(),
            forall|key: &[u8], value: &[u8]| #[trigger] f.requires((key, value)),
        ensures
            exists|all: Seq<RowView>|
                ascending(all) && are_entries(
                    self@,
                    |key: Seq<u8>| range::in_range(key, lower, upper),
                    all,
                ) && #[trigger] stopped_by(all, range::rows_view(r@), f),
    {
        visit_until(self.scan_range(lower, upper), f)
    }

    /// Hand the entries of a range to `f` in descending order, while it says so;
    /// those that it was given.
    pub fn scan_range_desc_until<F: Fn(&[u8], &[u8]) -> bool>(
        &self,
        lower: Bound<'_>,
        upper: Bound<'_>,
        f: F,
    ) -> (r: Vec<Row>)
        requires
            self.wf(),
            forall|key: &[u8], value: &[u8]| #[trigger] f.requires((key, value)),
        ensures
            exists|all: Seq<RowView>|
                descending(all) && are_entries(
                    self@,
                    |key: Seq<u8>| range::in_range(key, lower, upper),
                    all,
                ) && #[trigger] stopped_by(all, range::rows_view(r@), f),
    {
        visit_until(self.scan_range_desc(lower, upper), f)
    }

    /// Hand the entries under a prefix to `f` in ascending order, while it says
    /// so; those that it was given.
    pub fn scan_prefix_until<F: Fn(&[u8], &[u8]) -> bool>(&self, prefix: &[u8], f: F) -> (r: Vec<
        Row,
    >)
        requires
            self.wf(),
            forall|key: &[u8], value: &[u8]| #[trigger] f.requires((key, value)),
        ensures
            exists|all: Seq<RowView>|
                ascending(all) && are_entries(
                    self@,
                    |key: Seq<u8>| bytes::has_prefix(key, prefix@),
                    all,
                ) && #[trigger] stopped_by(all, range::rows_view(r@), f),
    {
        self.scan_prefix_borrowed_until(prefix, f)
    }

    /// As `scan_prefix_until`.
    pub fn scan_prefix_borrowed_until<F: Fn(&[u8], &[u8]) -> bool>(
        &self,
        prefix: &[u8],
        f: F,
    ) -> (r: Vec<Row>)
        requires
            self.wf(),
            forall|key: &[u8], value: &[u8]| #[trigger] f.requires((key, value)),
        ensures
            exists|all: Seq<RowView>|
                ascending(all) && are_entries(
                    self@,
                    |key: Seq<u8>| bytes::has_prefix(key, prefix@),
                    all,
                ) && #[trigger] stopped_by(all, range::rows_view(r@), f),
    {
        visit_until(self.scan_prefix(prefix), f)
    }
}

} // verus!
