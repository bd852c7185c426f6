//! What removing a key leaves behind: small nodes are not left beside a neighbour
//! that they fit one page with, and the root is not left with one child.
use vstd::prelude::*;

use crate::btree::change;
use crate::btree::contents;
use crate::btree::growth;
use crate::btree::merge_inner;
use crate::btree::merge_leaf;
use crate::btree::node;
use crate::btree::rebalance;
use crate::btree::remove;
use crate::btree::state;
use crate::btree::state::State;
use crate::btree::tree::BTree;
use crate::bytes;

verus! {

// ---------------------------------------------------------------------------
// Ways.

/// The nodes lead from the root down to a child of the last of them.
spec fn is_way(s: State, path: Seq<u64>, child: u64) -> bool
    decreases path.len(),
{
    if path.len() == 0 {
        child == s.root
    } else {
        &&& state::is_inner(s, path.last())
        &&& state::kids(s, path.last()).contains(child)
        &&& is_way(s, path.drop_last(), path.last())
    }
}

proof fn bisected_between(seps: Seq<Seq<u8>>, key: Seq<u8>, low: int, high: int)
    requires
        low <= high,
    ensures
        low <= node::bisected(seps, key, low, high) <= high,
    decreases high - low,
{
    if low < high {
        let mid = low + (high - low) / 2;
        bisected_between(seps, key, mid + 1, high);
        bisected_between(seps, key, low, mid);
    }
}

/// The way to a key is one.
proof fn search_is_way(s: State, above: Seq<u64>, pid: u64, key: Seq<u8>)
    requires
        state::shape_ok(s),
        state::live(s, pid),
        is_way(s, above, pid),
        contents::way(s, pid, key).len() > 0,
    ensures
        ({
            let path = above + contents::way(s, pid, key);
            is_way(s, path.drop_last(), path.last())
        }),
        state::is_inner(s, contents::way(s, pid, key).last()),
    decreases state::level(s, pid),
{
    assert(state::node_ok(s, pid));
    let seps = state::seps(s, pid);
    let kids = state::kids(s, pid);
    let k = node::route(seps, key);
    bisected_between(seps, key, 0, seps.len() as int);
    assert(state::kid_ok(s, pid, k));
    let child = kids[k];
    let below = contents::way(s, child, key);
    let path = above + contents::way(s, pid, key);
    assert(contents::way(s, pid, key) == seq![pid] + below);
    if below.len() == 0 {
        assert(path =~= above.push(pid));
        assert(path.drop_last() =~= above);
    } else {
        let more = above.push(pid);
        assert(more.drop_last() =~= above);
        assert(kids.contains(child));
        search_is_way(s, more, child, key);
        assert(more + below =~= path);
        assert(contents::way(s, pid, key).last() == below.last());
    }
}

/// A way stays one where the nodes above its end stay as they are.
proof fn way_kept(s: State, t: State, path: Seq<u64>, child: u64)
    requires
        state::shape_ok(s),
        is_way(s, path, child),
        state::live(s, child),
        t.root == s.root,
        forall|x: u64| #[trigger]
            state::is_inner(s, x) && state::level(s, x) > state::level(s, child)
                ==> state::is_inner(t, x) && t.nodes[x as int] == s.nodes[x as int],
    ensures
        is_way(t, path, child),
    decreases path.len(),
{
    if path.len() > 0 {
        let q = path.last();
        assert(state::node_ok(s, q));
        let kids = state::kids(s, q);
        let i = choose|i: int| 0 <= i < kids.len() && kids[i] == child;
        assert(state::kid_ok(s, q, i));
        assert(state::is_inner(t, q));
        way_kept(s, t, path.drop_last(), q);
    }
}

/// The place of a child of the last node of a way.
proof fn place_on_way(s: State, path: Seq<u64>, child: u64) -> (i: int)
    requires
        path.len() > 0,
        is_way(s, path, child),
    ensures
        rebalance::place(s, path.last(), child) == Some(i),
        0 <= i < state::kids(s, path.last()).len(),
        state::kids(s, path.last())[i] == child,
{
    let q = path.last();
    let kids = state::kids(s, q);
    let j = choose|j: int| 0 <= j < kids.len() && kids[j] == child;
    let i = first_from(kids, child, 0, j);
    rebalance::place_is(s, q, child, i);
    i
}

proof fn first_from(kids: Seq<u64>, child: u64, k: int, j: int) -> (i: int)
    requires
        0 <= k <= j < kids.len(),
        kids[j] == child,
        forall|a: int| 0 <= a < k ==> kids[a] != child,
    ensures
        rebalance::first_place(kids, child, i),
    decreases j - k,
{
    if kids[k] == child {
        k
    } else {
        first_from(kids, child, k + 1, j)
    }
}

// ---------------------------------------------------------------------------
// Inner nodes.

/// How much the entries of an inner node take.
pub open spec fn taken(s: State, x: u64) -> int {
    node::seps_len(state::seps(s, x))
}

/// Inner nodes `i` and `i + 1` of `g` do not fit one page with the separator between
/// them.
pub open spec fn too_much(s: State, g: u64, i: int) -> bool {
    taken(s, state::kids(s, g)[i]) + node::sep_len(state::seps(s, g)[i]) + taken(
        s,
        state::kids(s, g)[i + 1],
    ) > node::INNER_CAPACITY
}

/// An inner node is not small, or fits one page with no neighbour under its parent.
pub open spec fn stands_alone(s: State, x: u64) -> bool {
    node::INNER_CAPACITY - taken(s, x) <= node::UNDERFULL_THRESHOLD || forall|g: u64, i: int|
        #[trigger] growth::is_parent(s, x, g, i) ==> {
            &&& i + 1 < state::kids(s, g).len() ==> too_much(s, g, i)
            &&& i > 0 ==> too_much(s, g, i - 1)
        }
}

proof fn fit_is(s: State, g: u64, i: int)
    ensures
        rebalance::inners_fit(s, g, i) <==> !too_much(s, g, i),
{
    let a = state::seps(s, state::kids(s, g)[i]);
    let b = state::seps(s, state::kids(s, g)[i + 1]);
    let sep = state::seps(s, g)[i];
    assert(a.push(sep) =~= a + seq![sep]);
    node::seps_len_add(a.push(sep), b);
    node::seps_len_add(a, seq![sep]);
    node::seps_len_one(sep);
}

#[verifier::rlimit(40)]
#[verifier::spinoff_prover]
proof fn inner_step(s: State, g: u64, i: int)
    requires
        state::inv(s),
        state::is_inner(s, g),
        0 <= i,
        i + 1 < state::kids(s, g).len(),
        state::level(s, g) > 1,
        rebalance::inners_fit(s, g, i),
    ensures
        ({
            let t = rebalance::inners_merged(s, g, i);
            let p = state::kids(s, g)[i];
            let r = state::kids(s, g)[i + 1];
            &&& state::inv(t)
            &&& state::is_inner(t, g)
            &&& state::is_inner(s, p)
            &&& state::is_inner(s, r)
            &&& p != g && r != g && p != r
            &&& t.root == s.root
            &&& t.order == s.order
            &&& state::seps(t, g).len() + 1 == state::seps(s, g).len()
            &&& state::kids(t, g) == state::kids(s, g).remove(i + 1)
            &&& state::seps(t, p).len() == state::seps(s, p).len() + 1 + state::seps(s, r).len()
            &&& state::kids(t, p).len() >= 2
            &&& forall|x: u64| #[trigger] state::is_inner(t, x) ==> state::is_inner(s, x) && x != r
            &&& forall|x: u64| #[trigger]
                state::is_inner(s, x) && x != g && x != p && x != r ==> state::is_inner(t, x)
                    && t.nodes[x as int] == s.nodes[x as int]
            &&& state::level(s, p) < state::level(s, g)
            &&& state::level(s, r) < state::level(s, g)
        }),
{
    let t = rebalance::inners_merged(s, g, i);
    let p = state::kids(s, g)[i];
    let r = state::kids(s, g)[i + 1];
    assert(state::node_ok(s, g));
    assert(state::kid_ok(s, g, i));
    assert(state::kid_ok(s, g, i + 1));
    assert(state::node_ok(s, p));
    assert(state::node_ok(s, r));
    assert(node::fits(s.nodes[g as int]));
    node::seps_len_remove(state::seps(s, g), i);
    assert(merge_inner::can_merge_inner(s, g, i, None)) by {
        reveal(merge_inner::can_merge_inner);
    }
    merge_inner::merge_inner_ok(s, g, i, None);
    merge_inner::apart(s, g, i, None);
    assert(t.nodes[g as int] is Inner);
    assert(state::live(t, g));
    assert forall|x: u64| #[trigger] state::is_inner(t, x) implies state::is_inner(s, x) && x
        != r by {
        assert(state::live(s, x));
    }
    assert forall|x: u64| #[trigger]
        state::is_inner(s, x) && x != g && x != p && x != r implies state::is_inner(t, x)
        && t.nodes[x as int] == s.nodes[x as int] by {
        assert(state::node_ok(s, x));
    }
}

/// An inner node other than the root that lost children between two states stands
/// alone in the second.
spec fn losers_alone(s: State, t: State, q: u64) -> bool {
    forall|x: u64|
        state::is_inner(s, x) && #[trigger] state::is_inner(t, x) && x != t.root && state::seps(
            t,
            x,
        ).len() < state::seps(s, x).len() + (if x == q {
            1int
        } else {
            0int
        }) ==> stands_alone(t, x)
}

/// The root has two children or more, if it has any.
pub open spec fn root_is_needed(s: State) -> bool {
    state::is_inner(s, s.root) ==> state::kids(s, s.root).len() >= 2
}

/// A node that is left with one child was given two of them: that child is a leaf, or
/// has two children.
spec fn last_kid_is_big(s: State, q: u64) -> bool {
    state::kids(s, q).len() == 1 && state::is_inner(s, state::kids(s, q)[0]) ==> state::kids(
        s,
        state::kids(s, q)[0],
    ).len() >= 2
}

#[verifier::rlimit(40)]
#[verifier::spinoff_prover]
proof fn settled_leaves(s: State, q: u64, path: Seq<u64>)
    requires
        state::inv(s),
        state::is_inner(s, q),
        is_way(s, path, q),
        last_kid_is_big(s, q),
    ensures
        ({
            let t = rebalance::settled(s, q, path).0;
            &&& state::inv(t)
            &&& losers_alone(s, t, q)
            &&& forall|x: u64| #[trigger] state::is_inner(t, x) ==> state::is_inner(s, x)
            &&& t.order == s.order
            &&& q == s.root || root_is_needed(s) ==> root_is_needed(t)
        }),
    decreases path.len(),
{
    let t = rebalance::settled(s, q, path).0;
    assert(state::node_ok(s, q));
    if q == s.root {
        if state::seps(s, q).len() == 0 {
            let c = state::kids(s, q)[0];
            assert(state::kid_ok(s, q, 0));
            assert(state::node_ok(s, c));
            merge_inner::without_root_ok(s);
            assert forall|x: u64| #[trigger] state::is_inner(t, x) implies state::is_inner(s, x)
                && x != q && state::seps(t, x) == state::seps(s, x) by {
                assert(state::live(s, x));
            }
            if state::is_inner(t, c) {
                assert(state::is_inner(s, c));
            }
        }
    } else if rebalance::is_small(s, q) {
        assert(path.len() > 0);
        let g = path.last();
        let rest = path.drop_last();
        let pos = place_on_way(s, path, q);
        assert(state::node_ok(s, g));
        assert(state::kid_ok(s, g, pos));
        let m = rebalance::inner_merged(s, path, q);
        assert(t == m.state);
        fit_is(s, g, pos);
        fit_is(s, g, pos - 1);
        match rebalance::inner_pair(s, g, pos) {
            None => {
                assert(t == s);
                assert(stands_alone(t, q)) by {
                    assert forall|g2: u64, i2: int| #[trigger]
                        growth::is_parent(t, q, g2, i2) implies (i2 + 1 < state::kids(t, g2).len()
                        ==> too_much(t, g2, i2)) && (i2 > 0 ==> too_much(t, g2, i2 - 1)) by {
                        state::parent_is_unique(s, g, pos, g2, i2);
                    }
                }
            },
            Some(i) => {
                inner_step(s, g, i);
                let u = rebalance::inners_merged(s, g, i);
                let p = state::kids(s, g)[i];
                let r = state::kids(s, g)[i + 1];
                way_kept(s, u, rest, g);
                assert(last_kid_is_big(u, g)) by {
                    if state::kids(u, g).len() == 1 {
                        assert(i == 0);
                        assert(state::kids(u, g)[0] == p);
                    }
                }
                if g != u.root {
                    assert(state::is_inner(s, s.root) ==> s.root != p && s.root != r) by {
                        merged_is_not_root(s, g, i);
                        merged_is_not_root(s, g, i + 1);
                    }
                    if state::is_inner(u, u.root) {
                        assert(state::is_inner(s, s.root));
                        assert(u.nodes[s.root as int] == s.nodes[s.root as int]);
                    }
                }
                settled_leaves(u, g, rest);
                assert(t == rebalance::settled(u, g, rest).0);
                assert forall|x: u64|
                    state::is_inner(s, x) && #[trigger] state::is_inner(t, x) && x != t.root
                        && state::seps(t, x).len() < state::seps(s, x).len() + (if x == q {
                        1int
                    } else {
                        0int
                    }) implies stands_alone(t, x) by {
                    assert(state::is_inner(u, x));
                    assert(x != r);
                    if x != g && x != p {
                        assert(u.nodes[x as int] == s.nodes[x as int]);
                    }
                }
            },
        }
    }
}

proof fn merged_is_not_root(s: State, g: u64, i: int)
    requires
        state::inv(s),
        state::is_inner(s, g),
        0 <= i < state::kids(s, g).len(),
    ensures
        state::kids(s, g)[i] != s.root,
{
    assert(state::node_ok(s, g));
    assert(state::kid_ok(s, g, i));
}

// ---------------------------------------------------------------------------
// Leaves.

/// How much the rows of leaf `f` take once the one at `pos` is gone.
pub open spec fn left_in(s: State, f: int, pos: int) -> int {
    node::rows_len(state::rows_at(s, f)) - node::row_len(state::rows_at(s, f)[pos])
}

/// What leaf `f` keeps and what leaf `n` holds fit one page.
pub open spec fn fits_with(s: State, f: int, pos: int, n: int) -> bool {
    left_in(s, f, pos) + node::rows_len(state::rows_at(s, n)) <= node::LEAF_CAPACITY
}

/// Leaf `f` is small once the row at `pos` is gone.
pub open spec fn gets_small(s: State, f: int, pos: int) -> bool {
    node::LEAF_CAPACITY - left_in(s, f, pos) > node::UNDERFULL_THRESHOLD
}

/// The leaves, in order, after the row at `pos` of leaf `f`, child `i` of `q`, was
/// removed: if the leaf got small, it takes in the neighbour to its right under its
/// parent, or else is taken in by the one to its left, if they fit one page.
pub open spec fn leaves_left(s: State, q: u64, i: int, f: int, pos: int) -> Seq<u64> {
    if !gets_small(s, f, pos) {
        s.order
    } else if i + 1 < state::kids(s, q).len() && fits_with(s, f, pos, f + 1) {
        s.order.remove(f + 1)
    } else if i > 0 && fits_with(s, f, pos, f - 1) {
        s.order.remove(f)
    } else {
        s.order
    }
}

proof fn sep_lowered_keeps(s: State, path: Seq<u64>, child: u64, key: Seq<u8>)
    requires
        state::shape_ok(s),
    ensures
        ({
            let t = rebalance::sep_lowered(s, path, child, key).0;
            &&& t.order == s.order
            &&& t.root == s.root
            &&& t.spans == s.spans
            &&& forall|x: u64| #[trigger]
                state::is_inner(s, x) ==> state::is_inner(t, x) && state::seps(t, x).len()
                    == state::seps(s, x).len() && state::kids(t, x) == state::kids(s, x)
            &&& forall|x: u64| #[trigger] state::is_inner(t, x) ==> state::is_inner(s, x)
        }),
    decreases path.len(),
{
    if path.len() > 0 {
        let q = path.last();
        let rest = path.drop_last();
        if rebalance::place(s, q, child) is Some {
            let pos = rebalance::place(s, q, child)->0;
            assert(state::is_inner(s, q));
            assert(state::node_ok(s, q));
            let kids = state::kids(s, q);
            let j = choose|j: int| 0 <= j < kids.len() && kids[j] == child;
            let i = first_from(kids, child, 0, j);
            rebalance::place_is(s, q, child, i);
            if pos >= state::seps(s, q).len() {
                sep_lowered_keeps(s, rest, q, key);
            } else {
                let t = rebalance::sep_lowered(s, path, child, key).0;
                assert forall|x: u64| #[trigger] state::is_inner(s, x) implies state::is_inner(t, x)
                    && state::seps(t, x).len() == state::seps(s, x).len() && state::kids(t, x)
                    == state::kids(s, x) by {
                    assert(state::node_ok(s, x));
                }
                assert forall|x: u64| #[trigger] state::is_inner(t, x) implies state::is_inner(
                    s,
                    x,
                ) by {
                    assert(state::live(s, x));
                    assert(state::node_ok(s, x));
                }
            }
        }
    }
}

/// The nodes around a leaf that lost a row.
#[verifier::rlimit(40)]
#[verifier::spinoff_prover]
proof fn around_leaf(s: State, q: u64, i: int, f: int, pos: int)
    requires
        state::inv(s),
        growth::is_parent(s, s.order[f], q, i),
        0 <= f < s.order.len(),
        0 <= pos < state::rows_at(s, f).len(),
    ensures
        ({
            let u = change::with_rows(s, f, state::rows_at(s, f).remove(pos));
            &&& state::inv(u)
            &&& state::level(s, q) == 1
            &&& state::kids(s, q).len() == state::seps(s, q).len() + 1
            &&& forall|x: u64| #[trigger]
                state::is_inner(s, x) ==> state::is_inner(u, x) && u.nodes[x as int]
                    == s.nodes[x as int]
            &&& forall|x: u64| #[trigger] state::is_inner(u, x) ==> state::is_inner(s, x)
            &&& rebalance::is_small_leaf(state::rows_at(s, f).remove(pos)) == gets_small(
                s,
                f,
                pos,
            )
            &&& i + 1 < state::kids(s, q).len() ==> rebalance::leaves_fit(u, q, i) == fits_with(
                s,
                f,
                pos,
                f + 1,
            ) && state::lo(u, state::kids(u, q)[i]) == f
            &&& i > 0 ==> rebalance::leaves_fit(u, q, i - 1) == fits_with(s, f, pos, f - 1)
                && state::lo(u, state::kids(u, q)[i - 1]) == f - 1
        }),
{
    let l = s.order[f];
    let rows = state::rows_at(s, f).remove(pos);
    let u = change::with_rows(s, f, rows);
    assert(state::is_leaf(s, l));
    assert(state::node_ok(s, l));
    assert(state::node_ok(s, q));
    assert(state::kid_ok(s, q, i));
    contents::remove_ok(s, f, pos);
    node::rows_len_remove(state::rows_at(s, f), pos);
    assert forall|x: u64| #[trigger] state::is_inner(s, x) implies state::is_inner(u, x)
        && u.nodes[x as int] == s.nodes[x as int] by {
        assert(state::node_ok(s, x));
    }
    assert forall|x: u64| #[trigger] state::is_inner(u, x) implies state::is_inner(s, x) by {
        assert(state::node_ok(s, x));
    }
    assert(state::is_inner(u, q));
    assert(state::rows_at(u, f) == rows);
    if i + 1 < state::kids(s, q).len() {
        remove::pair_is(u, q, i);
        assert(state::is_leaf(s, s.order[f + 1]) && state::lo(s, s.order[f + 1]) == f + 1);
        assert(state::rows_at(u, f + 1) == state::rows_at(s, f + 1));
    }
    if i > 0 {
        assert(state::kid_ok(s, q, i - 1));
        remove::pair_is(u, q, i - 1);
        assert(state::node_ok(s, state::kids(s, q)[i - 1]));
        assert(state::is_leaf(s, s.order[f - 1]) && state::lo(s, s.order[f - 1]) == f - 1);
        assert(state::rows_at(u, f - 1) == state::rows_at(s, f - 1));
    }
}

/// Two leaves of `q` that fit one page are merged.
#[verifier::rlimit(40)]
#[verifier::spinoff_prover]
proof fn leaf_step(s: State, q: u64, i: int)
    requires
        state::inv(s),
        state::is_inner(s, q),
        0 <= i,
        i + 1 < state::kids(s, q).len(),
        state::level(s, q) == 1,
        rebalance::leaves_fit(s, q, i),
    ensures
        ({
            let t = rebalance::leaves_merged(s, q, i);
            let f = state::lo(s, state::kids(s, q)[i]);
            &&& state::inv(t)
            &&& state::is_inner(t, q)
            &&& t.root == s.root
            &&& t.order == s.order.remove(f + 1)
            &&& state::seps(t, q).len() + 1 == state::seps(s, q).len()
            &&& state::kids(t, q) == state::kids(s, q).remove(i + 1)
            &&& last_kid_is_big(t, q)
            &&& forall|x: u64| #[trigger] state::is_inner(t, x) ==> state::is_inner(s, x)
            &&& forall|x: u64| #[trigger]
                state::is_inner(s, x) && x != q ==> state::is_inner(t, x) && t.nodes[x as int]
                    == s.nodes[x as int]
        }),
{
    let f = state::lo(s, state::kids(s, q)[i]);
    let new = rebalance::merged_sep(s, q, i);
    let seps = state::seps(s, q);
    let rows = rebalance::pair_rows(s, q, i);
    remove::pair_is(s, q, i);
    assert(state::node_ok(s, q));
    assert(node::fits(s.nodes[q as int]));
    node::seps_len_remove(seps, i);
    if new is Some {
        if rows.len() > 0 {
            remove::merged_max_bounds(s, f, rows.last().key);
        } else {
            assert(state::sep_bounds(s, q, i, seps[i]));
            assert(merge_leaf::bounds_merged(s, f, seps[i]));
        }
    }
    remove::pair_can_merge(s, q, i, new);
    merge_leaf::apart(s, f, q, i, new);
    let t = rebalance::leaves_merged(s, q, i);
    assert forall|x: u64| #[trigger] state::is_inner(t, x) implies state::is_inner(s, x) by {
        assert(state::live(s, x));
        assert(state::node_ok(s, x));
    }
    assert forall|x: u64| #[trigger] state::is_inner(s, x) && x != q implies state::is_inner(t, x)
        && t.nodes[x as int] == s.nodes[x as int] by {
        assert(state::node_ok(s, x));
    }
    if state::kids(t, q).len() == 1 {
        let c = state::kids(t, q)[0];
        assert(c == state::kids(s, q)[i]);
        assert(!state::is_inner(s, c));
    }
}

/// A key that stands in a leaf is looked for there, and found where it stands.
proof fn found(s: State, key: Seq<u8>, f: int, pos: int)
    requires
        state::inv(s),
        0 <= f < s.order.len(),
        0 <= pos < state::rows_at(s, f).len(),
        state::rows_at(s, f)[pos].key == key,
    ensures
        contents::target(s, key) == f,
        rebalance::removed(s, key) == rebalance::removed_at(s, key, pos),
{
    let rows = state::rows_at(s, f);
    bytes::lex_lt_irreflexive(key);
    assert(!contents::all_below(rows, key)) by {
        assert(!bytes::lex_lt(rows[pos].key, key));
    }
    assert forall|j: int| 0 <= j < f implies contents::all_below(
        #[trigger] state::rows_at(s, j),
        key,
    ) by {
        assert forall|a: int| 0 <= a < state::rows_at(s, j).len() implies bytes::lex_lt(
            (#[trigger] state::rows_at(s, j)[a]).key,
            key,
        ) by {
            assert(bytes::lex_lt(state::rows_at(s, j)[a].key, state::rows_at(s, f)[pos].key));
        }
    }
    assert(contents::is_target(s, key, f));
    contents::target_is_unique(s, key, f, contents::target(s, key));
    let k = choose|k: int| 0 <= k < rows.len() && (#[trigger] rows[k]).key == key;
    assert(rows[pos].key == key);
    assert(node::sorted_rows(rows));
    if k != pos {
        if k < pos {
            assert(bytes::lex_lt(rows[k].key, rows[pos].key));
        } else {
            assert(bytes::lex_lt(rows[pos].key, rows[k].key));
        }
    }
}

/// What a removal does to the tree around the leaf, all told.
#[verifier::rlimit(40)]
#[verifier::spinoff_prover]
proof fn removal(s: State, key: Seq<u8>, q: u64, i: int, f: int, pos: int)
    requires
        state::inv(s),
        0 <= f < s.order.len(),
        0 <= pos < state::rows_at(s, f).len(),
        state::rows_at(s, f)[pos].key == key,
        growth::is_parent(s, s.order[f], q, i),
        contents::way(s, s.root, key).len() > 0,
        contents::way(s, s.root, key).last() == q,
    ensures
        ({
            let t = rebalance::removed(s, key);
            &&& t.order == leaves_left(s, q, i, f, pos)
            &&& forall|x: u64|
                state::is_inner(s, x) && #[trigger] state::is_inner(t, x) && x != t.root
                    && state::kids(t, x).len() < state::kids(s, x).len() ==> stands_alone(t, x)
            &&& root_is_needed(s) ==> root_is_needed(t)
        }),
{
    let t = rebalance::removed(s, key);
    let rows = state::rows_at(s, f);
    let left = rows.remove(pos);
    let leaf = s.order[f];
    let u = change::with_rows(s, f, left);
    let path = contents::way(s, s.root, key);
    found(s, key, f, pos);
    assert(t == rebalance::removed_at(s, key, pos));
    around_leaf(s, q, i, f, pos);
    search_is_way(s, Seq::empty(), s.root, key);
    assert(Seq::<u64>::empty() + path =~= path);
    let rest = path.drop_last();
    assert(state::kids(s, q).contains(leaf));
    assert(is_way(s, path, leaf));
    assert(state::node_ok(s, leaf));
    way_kept(s, u, path, leaf);
    let was_max = pos + 1 == rows.len();
    let new_max = if was_max && left.len() > 0 {
        Some(left.last().key)
    } else {
        None
    };
    let small = rebalance::is_small_leaf(left);
    assert(t == rebalance::rebalanced(u, path, leaf, was_max, new_max, small).0);
    let m = rebalance::leaf_merged(u, path, leaf);
    let p2 = place_on_way(u, path, leaf);
    state::parent_is_unique(u, q, i, q, p2);
    assert(u.root == s.root);
    if small && rebalance::leaf_pair(u, q, i) is Some {
        let k = rebalance::leaf_pair(u, q, i)->0;
        leaf_step(u, q, k);
        let v = rebalance::leaves_merged(u, q, k);
        assert(m.done);
        assert(t == rebalance::settled(v, q, rest).0);
        way_kept(u, v, rest, q);
        if root_is_needed(s) {
            if q != v.root && state::is_inner(v, v.root) {
                assert(state::is_inner(u, v.root));
                assert(v.nodes[v.root as int] == u.nodes[v.root as int]);
                assert(state::is_inner(s, v.root));
            }
        }
        settled_leaves(v, q, rest);
        assert forall|x: u64|
            state::is_inner(s, x) && #[trigger] state::is_inner(t, x) && x != t.root
                && state::kids(t, x).len() < state::kids(s, x).len() implies stands_alone(t, x) by {
            assert(state::is_inner(v, x));
            assert(state::is_inner(u, x));
            assert(state::node_ok(s, x));
            assert(state::node_ok(t, x));
        }
    } else {
        assert(!small || !m.done);
        if was_max && new_max is Some {
            let rest2 = if small {
                rest
            } else {
                path
            };
            sep_lowered_keeps(u, rest2, leaf, new_max->0);
        }
        assert(t.order == s.order);
    }
}

// ---------------------------------------------------------------------------
// What is left behind.

/// The row at `pos` of leaf `f` is that of the key, and the search for the key leads
/// to the leaf, as child `i` of `q`.
pub open spec fn stands_at(s: State, key: Seq<u8>, q: u64, i: int, f: int, pos: int) -> bool {
    &&& 0 <= f < s.order.len()
    &&& 0 <= pos < state::rows_at(s, f).len()
    &&& state::rows_at(s, f)[pos].key == key
    &&& growth::is_parent(s, s.order[f], q, i)
    &&& contents::way(s, s.root, key).len() > 0
    &&& contents::way(s, s.root, key).last() == q
}

/// A leaf that got small by a removal is merged with the neighbour to its right under
/// its parent, or else with the one to its left, where both fit one page. The other
/// leaves stay, and where there is no such neighbour, or the leaf is not small, so
/// does the leaf.
pub proof fn small_leaf_is_merged(
    pre: BTree,
    post: BTree,
    key: Seq<u8>,
    q: u64,
    i: int,
    f: int,
    pos: int,
)
    requires
        pre.wf(),
        post.state() == rebalance::removed(pre.state(), key),
        stands_at(pre.state(), key, q, i, f, pos),
    ensures
        post.state().order == leaves_left(pre.state(), q, i, f, pos),
{
    removal(pre.state(), key, q, i, f, pos);
}

/// An inner node that lost a child by a removal, and is not the root, is not left
/// small beside a neighbour under its parent that it fits one page with.
pub proof fn small_node_is_merged(
    pre: BTree,
    post: BTree,
    key: Seq<u8>,
    q: u64,
    i: int,
    f: int,
    pos: int,
    x: u64,
)
    requires
        pre.wf(),
        post.state() == rebalance::removed(pre.state(), key),
        stands_at(pre.state(), key, q, i, f, pos),
        state::is_inner(pre.state(), x),
        state::is_inner(post.state(), x),
        x != post.state().root,
        state::kids(post.state(), x).len() < state::kids(pre.state(), x).len(),
    ensures
        stands_alone(post.state(), x),
{
    removal(pre.state(), key, q, i, f, pos);
}

/// A removal leaves the root two children or more, or none, if it was so before: a
/// root with one child gives way to the child.
pub proof fn lone_child_becomes_root(
    pre: BTree,
    post: BTree,
    key: Seq<u8>,
    q: u64,
    i: int,
    f: int,
    pos: int,
)
    requires
        pre.wf(),
        post.state() == rebalance::removed(pre.state(), key),
        stands_at(pre.state(), key, q, i, f, pos),
        root_is_needed(pre.state()),
    ensures
        root_is_needed(post.state()),
{
    removal(pre.state(), key, q, i, f, pos);
}

} // verus!
