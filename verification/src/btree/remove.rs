//! Removal from a B-link tree: what has become small is merged with a neighbour,
//! separators are lowered, and a root with one child is dropped.
use vstd::prelude::*;

use crate::betree::scan;
use crate::betree::scan::{Row, RowView};
use crate::btree::change;
use crate::btree::contents;
use crate::btree::merge_inner;
use crate::btree::merge_leaf;
use crate::btree::node;
use crate::btree::node::{Inner, Leaf, Node};
use crate::btree::rebalance;
use crate::btree::room;
use crate::btree::state;
use crate::btree::state::State;
use crate::btree::tree::BTree;
use crate::bytes;

verus! {

pub open spec fn opt_sep(sep: Option<Vec<u8>>) -> Option<Seq<u8>> {
    match sep {
        Some(sep) => Some(sep@),
        None => None,
    }
}

/// The separators with another one behind the merged child take no more space
/// than a page has.
fn replacement_fits(separators: &[Vec<u8>], i: usize, sep: &[u8]) -> (r: bool)
    requires
        i + 1 < separators@.len(),
        node::seps_len(node::keys_view(separators@)) <= node::INNER_CAPACITY,
    ensures
        r == (node::seps_len(
            merge_leaf::merged_seps(node::keys_view(separators@), i as int, Some(sep@)),
        ) <= node::INNER_CAPACITY),
{
    let ghost ss = node::keys_view(separators@);
    proof {
        let rest = ss.remove(i as int);
        node::seps_len_remove(ss, i as int);
        node::seps_len_update(rest, i as int, sep@);
        node::seps_len_remove(rest, i as int);
        node::seps_len_nonneg(rest.remove(i as int));
        assert(rest[i as int] == ss[i + 1]);
        assert(ss[i as int] == separators@[i as int]@);
        assert(ss[i + 1] == separators@[i + 1]@);
    }
    let used: usize = node::separators_space(separators);
    let slot: usize = node::SLOT_LEN + node::LINK_LEN;
    let rest: usize = used - slot - separators[i].len() - slot - separators[i + 1].len();
    sep.len() <= node::INNER_CAPACITY && rest + slot + sep.len() <= node::INNER_CAPACITY
}

/// Without a separator the others still fit.
proof fn fewer_fit(ss: Seq<Seq<u8>>, i: int)
    requires
        0 <= i < ss.len(),
        node::seps_len(ss) <= node::INNER_CAPACITY,
    ensures
        node::seps_len(merge_leaf::merged_seps(ss, i, None)) <= node::INNER_CAPACITY,
{
    node::seps_len_remove(ss, i);
}

/// Two neighbouring children of a node of level 1 are neighbouring leaves.
pub(crate) proof fn pair_is(s: State, q: u64, i: int)
    requires
        state::inv(s),
        state::is_inner(s, q),
        0 <= i,
        i + 1 < state::kids(s, q).len(),
        state::level(s, q) == 1,
    ensures
        ({
            let left = state::kids(s, q)[i];
            let right = state::kids(s, q)[i + 1];
            let f = state::lo(s, left);
            &&& 0 <= f
            &&& f + 1 < s.order.len()
            &&& s.order[f] == left
            &&& s.order[f + 1] == right
            &&& state::is_leaf(s, left)
            &&& state::is_leaf(s, right)
            &&& state::lo(s, right) == f + 1
            &&& state::hi(s, left) == f + 1
            &&& node::rows_len(rebalance::pair_rows(s, q, i)) == node::rows_len(
                state::rows_at(s, f),
            ) + node::rows_len(state::rows_at(s, f + 1))
        }),
{
    assert(state::node_ok(s, q));
    assert(state::kid_ok(s, q, i));
    assert(state::kid_ok(s, q, i + 1));
    let left = state::kids(s, q)[i];
    let right = state::kids(s, q)[i + 1];
    assert(state::node_ok(s, left));
    assert(state::node_ok(s, right));
    let f = state::lo(s, left);
    node::rows_len_add(state::rows_at(s, f), state::rows_at(s, f + 1));
}

/// Two leaves that fit one page can be merged, which leaves their parent an inner
/// node and all rows as they were.
pub(crate) proof fn pair_can_merge(s: State, q: u64, i: int, new: Option<Seq<u8>>)
    requires
        state::inv(s),
        state::is_inner(s, q),
        0 <= i,
        i + 1 < state::kids(s, q).len(),
        state::level(s, q) == 1,
        rebalance::leaves_fit(s, q, i),
        new matches Some(sep) ==> merge_leaf::bounds_merged(
            s,
            state::lo(s, state::kids(s, q)[i]),
            sep,
        ),
        node::seps_len(merge_leaf::merged_seps(state::seps(s, q), i, new)) <= node::INNER_CAPACITY,
    ensures
        ({
            let f = state::lo(s, state::kids(s, q)[i]);
            let t = merge_leaf::merge_leaf(s, f, q, i, new);
            &&& merge_leaf::can_merge_leaf(s, f, q, i, new)
            &&& state::inv(t)
            &&& contents::rows(t) == contents::rows(s)
            &&& state::is_inner(t, q)
            &&& t.root == s.root
        }),
{
    let f = state::lo(s, state::kids(s, q)[i]);
    pair_is(s, q, i);
    assert(merge_leaf::can_merge_leaf(s, f, q, i, new)) by {
        reveal(merge_leaf::can_merge_leaf);
    }
    merge_leaf::merge_leaf_ok(s, f, q, i, new);
    contents::merge_keeps_rows(s, f, q, i, new);
    merge_leaf::apart(s, f, q, i, new);
    let t = merge_leaf::merge_leaf(s, f, q, i, new);
    assert(t.nodes[q as int] is Inner);
    assert(state::live(t, q));
}

impl BTree {
    /// Two neighbouring children of an inner node.
    fn child_pair(&self, q: u64, i: usize) -> (r: (u64, u64))
        requires
            self.wf(),
            state::is_inner(self.state(), q),
            i + 1 < state::kids(self.state(), q).len(),
        ensures
            r.0 == state::kids(self.state(), q)[i as int],
            r.1 == state::kids(self.state(), q)[i + 1],
    {
        proof {
            assert(state::node_ok(self.state(), q));
        }
        match self.node_at(q) {
            Node::Inner(inner) => {
                assert(inner.children@ == state::kids(self.state(), q));
                let child_count: usize = inner.children.len();
                assert(i + 1 < child_count);
                (inner.children[i], inner.children[i + 1])
            },
            _ => (0, 0),
        }
    }

    /// The space that the rows of a leaf take, and the last of their keys.
    fn leaf_extent(&self, pid: u64) -> (r: (usize, Option<Vec<u8>>))
        requires
            self.wf(),
            state::is_leaf(self.state(), pid),
        ensures
            ({
                let rows = state::rows_at(self.state(), state::lo(self.state(), pid));
                &&& r.0 == node::rows_len(rows)
                &&& r.0 <= node::LEAF_CAPACITY
                &&& opt_sep(r.1) == if rows.len() > 0 {
                    Some(rows.last().key)
                } else {
                    None
                }
            }),
    {
        let ghost f = self.leaf_facts(pid);
        match self.node_at(pid) {
            Node::Leaf(leaf) => (node::rows_space(leaf.rows.as_slice()), last_key(&leaf.rows)),
            _ => (0, None),
        }
    }

    /// Merge leaf `i + 1` of an inner node into leaf `i`, if both fit one page.
    fn merge_leaves(&mut self, q: u64, i: usize) -> (r: bool)
        requires
            old(self).wf(),
            state::is_inner(old(self).state(), q),
            i + 1 < state::kids(old(self).state(), q).len(),
            state::level(old(self).state(), q) == 1,
        ensures
            final(self).wf(),
            contents::rows(final(self).state()) == contents::rows(old(self).state()),
            r == rebalance::leaves_fit(old(self).state(), q, i as int),
            final(self).state() == (if r {
                rebalance::leaves_merged(old(self).state(), q, i as int)
            } else {
                old(self).state()
            }),
            r ==> state::is_inner(final(self).state(), q) && final(self).state().root == old(
                self,
            ).state().root,
    {
        let ghost s = self.state();
        let ghost f = state::lo(s, state::kids(s, q)[i as int]);
        proof {
            self.unfold();
            pair_is(s, q, i as int);
        }
        let (left, right) = self.child_pair(q, i);
        let ghost merged = rebalance::pair_rows(s, q, i as int);
        let (left_space, left_max) = self.leaf_extent(left);
        let (right_space, right_max) = self.leaf_extent(right);
        if left_space + right_space > node::LEAF_CAPACITY {
            return false;
        }
        let max = match right_max {
            Some(key) => Some(key),
            None => left_max,
        };
        proof {
            if merged.len() > 0 {
                assert(max is Some && max->0@ == merged.last().key);
                merged_max_bounds(s, f, merged.last().key);
            }
        }
        let new = self.merged_separator(q, i, max, Ghost(f));
        proof {
            pair_can_merge(s, q, i as int, opt_sep(new));
        }
        self.apply_leaf_merge(Ghost(f), left, right, q, i, new);
        true
    }

    /// The separator behind two leaves when they are merged: their greatest key, or
    /// the one that was between them if there is none. It is left as it is where
    /// there is no room.
    fn merged_separator(&self, q: u64, i: usize, max: Option<Vec<u8>>, Ghost(f): Ghost<int>) -> (r:
        Option<Vec<u8>>)
        requires
            self.wf(),
            state::is_inner(self.state(), q),
            i + 1 < state::kids(self.state(), q).len(),
            state::hi(self.state(), state::kids(self.state(), q)[i as int]) == f + 1,
            max matches Some(key) ==> merge_leaf::bounds_merged(self.state(), f, key@),
            max is None ==> state::rows_at(self.state(), f + 1).len() == 0,
            f == state::lo(self.state(), state::kids(self.state(), q)[i as int]),
            opt_sep(max) == (if rebalance::pair_rows(self.state(), q, i as int).len() > 0 {
                Some(rebalance::pair_rows(self.state(), q, i as int).last().key)
            } else {
                None
            }),
        ensures
            opt_sep(r) == rebalance::merged_sep(self.state(), q, i as int),
            r matches Some(sep) ==> merge_leaf::bounds_merged(self.state(), f, sep@),
            node::seps_len(
                merge_leaf::merged_seps(
                    state::seps(self.state(), q),
                    i as int,
                    opt_sep(r),
                ),
            ) <= node::INNER_CAPACITY,
    {
        let ghost s = self.state();
        proof {
            assert(state::node_ok(s, q));
            assert(node::fits(s.nodes[q as int]));
            fewer_fit(state::seps(s, q), i as int);
        }
        match self.node_at(q) {
            Node::Inner(inner) => {
                assert(node::keys_view(inner.separators@) == state::seps(s, q));
                let child_count: usize = inner.children.len();
                assert(i + 1 < child_count);
                if i + 1 >= inner.separators.len() {
                    return None;
                }
                let candidate = match max {
                    Some(key) => key,
                    None => bytes::copy_bytes(inner.separators[i].as_slice()),
                };
                proof {
                    assert(state::sep_bounds(s, q, i as int, state::seps(s, q)[i as int]));
                    assert(merge_leaf::bounds_merged(s, f, candidate@));
                }
                if replacement_fits(inner.separators.as_slice(), i, candidate.as_slice()) {
                    Some(candidate)
                } else {
                    None
                }
            },
            _ => None,
        }
    }

    /// Put the rows of one leaf behind those of another and take it out of the
    /// chain and of the parent.
    fn apply_leaf_merge(
        &mut self,
        Ghost(f): Ghost<int>,
        left: u64,
        right: u64,
        q: u64,
        i: usize,
        new: Option<Vec<u8>>,
    )
        requires
            merge_leaf::can_merge_leaf(
                old(self).state(),
                f,
                q,
                i as int,
                opt_sep(new),
            ),
            old(self).state().order[f] == left,
            old(self).state().order[f + 1] == right,
        ensures
            final(self).state() == merge_leaf::merge_leaf(
                old(self).state(),
                f,
                q,
                i as int,
                opt_sep(new),
            ),
    {
        let ghost s = self.state();
        let ghost new_sep = opt_sep(new);
        let ghost end = merge_leaf::merge_leaf(s, f, q, i as int, new_sep);
        proof {
            merge_leaf::apart(s, f, q, i as int, new_sep);
        }
        if let Node::Leaf(mut gone) = self.take_node(right) {
            assert(scan::rows_view(gone.rows@) == state::rows_at(s, f + 1));
            let next: u64 = gone.right;
            if let Node::Leaf(mut leaf) = self.take_node(left) {
                assert(scan::rows_view(leaf.rows@) == state::rows_at(s, f));
                leaf.rows.append(&mut gone.rows);
                assert(scan::rows_view(leaf.rows@) =~= state::rows_at(s, f) + state::rows_at(
                    s,
                    f + 1,
                ));
                leaf.right = next;
                self.put_node(left, Node::Leaf(leaf));
            }
            if next != 0 {
                self.update_leaf_left_sibling(next, left);
            }
            let ghost w = self.state();
            assert(w.nodes[q as int] == s.nodes[q as int]);
            if let Node::Inner(mut parent) = self.take_node(q) {
                remove_child(&mut parent, i, new);
                self.put_node(q, Node::Inner(parent));
            }
        }
        proof {
            self.unfold();
        }
        self.spans = Ghost(end.spans);
        self.order = Ghost(end.order);
        proof {
            self.unfold();
            assert(self.state().nodes =~= end.nodes);
        }
    }
}

/// The key of the last row.
fn last_key(rows: &Vec<Row>) -> (r: Option<Vec<u8>>)
    ensures
        match r {
            Some(key) => rows@.len() > 0 && key@ == scan::rows_view(rows@).last().key,
            None => rows@.len() == 0,
        },
{
    let count: usize = rows.len();
    if count == 0 {
        None
    } else {
        Some(bytes::copy_bytes(rows[count - 1].key.as_slice()))
    }
}

/// Take child `i + 1` and the separator before it out of an inner node, and
/// replace the separator behind it.
fn remove_child(inner: &mut Inner, i: usize, new: Option<Vec<u8>>)
    requires
        i + 1 < old(inner).children@.len(),
        old(inner).children@.len() == old(inner).separators@.len() + 1,
    ensures
        node::keys_view(final(inner).separators@) == merge_leaf::merged_seps(
            node::keys_view(old(inner).separators@),
            i as int,
            opt_sep(new),
        ),
        final(inner).children@ == old(inner).children@.remove(i + 1),
{
    let ghost ss = node::keys_view(inner.separators@);
    let child_count: usize = inner.children.len();
    assert(i + 1 < child_count);
    let _ = inner.separators.remove(i);
    let _ = inner.children.remove(i + 1);
    assert(node::keys_view(inner.separators@) =~= ss.remove(i as int));
    if let Some(sep) = new {
        if i < inner.separators.len() {
            let ghost rest = node::keys_view(inner.separators@);
            inner.separators.set(i, sep);
            assert(node::keys_view(inner.separators@) =~= rest.update(i as int, sep@));
        }
    }
}

/// The last key of two neighbouring leaves bounds all keys up to there.
pub(crate) proof fn merged_max_bounds(s: State, f: int, key: Seq<u8>)
    requires
        state::inv(s),
        0 <= f,
        f + 1 < s.order.len(),
        (state::rows_at(s, f) + state::rows_at(s, f + 1)).len() > 0,
        key == (state::rows_at(s, f) + state::rows_at(s, f + 1)).last().key,
    ensures
        merge_leaf::bounds_merged(s, f, key),
{
    let a = state::rows_at(s, f);
    let b = state::rows_at(s, f + 1);
    let (g, n) = if b.len() > 0 {
        (f + 1, b.len() - 1)
    } else {
        (f, a.len() - 1)
    };
    assert(key == state::rows_at(s, g)[n].key);
    last_bounds(s, g, n);
}

/// A row bounds all keys before it.
proof fn last_bounds(s: State, g: int, n: int)
    requires
        state::inv(s),
        0 <= g < s.order.len(),
        0 <= n < state::rows_at(s, g).len(),
    ensures
        forall|j: int, a: int|
            #![trigger state::rows_at(s, j)[a]]
            0 <= j <= g && 0 <= a < state::rows_at(s, j).len() && (j == g ==> a <= n)
                ==> !bytes::lex_lt(state::rows_at(s, g)[n].key, state::rows_at(s, j)[a].key),
{
    let key = state::rows_at(s, g)[n].key;
    assert forall|j: int, a: int|
        #![trigger state::rows_at(s, j)[a]]
        0 <= j <= g && 0 <= a < state::rows_at(s, j).len() && (j == g ==> a
            <= n) implies !bytes::lex_lt(key, state::rows_at(s, j)[a].key) by {
        let x = state::rows_at(s, j)[a].key;
        assert(node::sorted_rows(state::rows_at(s, g)));
        bytes::lex_lt_irreflexive(key);
        if j < g || a < n {
            assert(bytes::lex_lt(x, key)) by {
                if j == g {
                    assert(bytes::lex_lt(
                        state::rows_at(s, g)[a].key,
                        state::rows_at(s, g)[n].key,
                    ));
                }
            }
            bytes::lex_lt_asymmetric(x, key);
        }
    }
}

impl BTree {
    /// Merge child `i + 1` of an inner node into child `i`, both inner nodes, if
    /// they fit one page.
    fn merge_inners(&mut self, q: u64, i: usize) -> (r: bool)
        requires
            old(self).wf(),
            state::is_inner(old(self).state(), q),
            i + 1 < state::kids(old(self).state(), q).len(),
            state::level(old(self).state(), q) > 1,
        ensures
            final(self).wf(),
            contents::rows(final(self).state()) == contents::rows(old(self).state()),
            r == rebalance::inners_fit(old(self).state(), q, i as int),
            final(self).state() == (if r {
                rebalance::inners_merged(old(self).state(), q, i as int)
            } else {
                old(self).state()
            }),
            r ==> state::is_inner(final(self).state(), q) && final(self).state().root == old(
                self,
            ).state().root,
    {
        let ghost s = self.state();
        proof {
            assert(state::node_ok(s, q));
            assert(state::kid_ok(s, q, i as int));
            assert(state::kid_ok(s, q, i + 1));
            assert(node::fits(s.nodes[q as int]));
        }
        let (left, right, boundary_len) = match self.node_at(q) {
            Node::Inner(inner) => {
                assert(inner.children@ == state::kids(s, q));
                assert(node::keys_view(inner.separators@) == state::seps(s, q));
                let child_count: usize = inner.children.len();
                assert(i + 1 < child_count);
                (inner.children[i], inner.children[i + 1], inner.separators[i].len())
            },
            _ => {
                return false;
            },
        };
        proof {
            assert(state::node_ok(s, left));
            assert(state::node_ok(s, right));
            assert(node::fits(s.nodes[left as int]));
            assert(node::fits(s.nodes[right as int]));
            room::one_sep_fits(state::seps(s, q), i as int);
            node::seps_len_add(
                state::seps(s, left).push(state::seps(s, q)[i as int]),
                state::seps(s, right),
            );
            node::seps_len_insert(
                state::seps(s, left),
                state::seps(s, left).len() as int,
                state::seps(s, q)[i as int],
            );
            assert(state::seps(s, left).insert(
                state::seps(s, left).len() as int,
                state::seps(s, q)[i as int],
            ) =~= state::seps(s, left).push(state::seps(s, q)[i as int]));
        }
        let left_space: usize = match self.node_at(left) {
            Node::Inner(inner) => node::separators_space(inner.separators.as_slice()),
            _ => {
                return false;
            },
        };
        let right_space: usize = match self.node_at(right) {
            Node::Inner(inner) => node::separators_space(inner.separators.as_slice()),
            _ => {
                return false;
            },
        };
        if left_space + node::SLOT_LEN + node::LINK_LEN + boundary_len + right_space
            > node::INNER_CAPACITY {
            return false;
        }
        proof {
            fewer_fit(state::seps(s, q), i as int);
            assert(merge_inner::can_merge_inner(s, q, i as int, None)) by {
                reveal(merge_inner::can_merge_inner);
            }
            merge_inner::merge_inner_ok(s, q, i as int, None);
            merge_inner::apart(s, q, i as int, None);
            contents::same_rows(s, merge_inner::merge_inner(s, q, i as int, None));
        }
        self.apply_inner_merge(left, right, q, i);
        proof {
            let t = self.state();
            assert(t.nodes[q as int] is Inner);
            assert(state::live(t, q));
        }
        true
    }

    /// Put the children of one inner node behind those of another and take it out
    /// of the parent.
    fn apply_inner_merge(&mut self, left: u64, right: u64, q: u64, i: usize)
        requires
            merge_inner::can_merge_inner(old(self).state(), q, i as int, None),
            state::kids(old(self).state(), q)[i as int] == left,
            state::kids(old(self).state(), q)[i + 1] == right,
        ensures
            final(self).state() == merge_inner::merge_inner(
                old(self).state(),
                q,
                i as int,
                None,
            ),
    {
        let ghost s = self.state();
        let ghost end = merge_inner::merge_inner(s, q, i as int, None);
        proof {
            merge_inner::apart(s, q, i as int, None);
        }
        if let Node::Inner(mut parent) = self.take_node(q) {
            let ghost sp = node::keys_view(parent.separators@);
            assert(sp == state::seps(s, q));
            let boundary = bytes::copy_bytes(parent.separators[i].as_slice());
            if let Node::Inner(mut gone) = self.take_node(right) {
                assert(node::keys_view(gone.separators@) == state::seps(s, right));
                assert(gone.children@ == state::kids(s, right));
                if let Node::Inner(mut kept) = self.take_node(left) {
                    assert(node::keys_view(kept.separators@) == state::seps(s, left));
                    kept.separators.push(boundary);
                    kept.separators.append(&mut gone.separators);
                    kept.children.append(&mut gone.children);
                    assert(node::keys_view(kept.separators@) =~= state::seps(s, left).push(
                        state::seps(s, q)[i as int],
                    ) + state::seps(s, right));
                    self.put_node(left, Node::Inner(kept));
                }
            }
            remove_child(&mut parent, i, None);
            self.put_node(q, Node::Inner(parent));
        }
        proof {
            self.unfold();
        }
        self.spans = Ghost(end.spans);
        proof {
            self.unfold();
            assert(self.state().nodes =~= end.nodes);
        }
    }

    /// Drop the root, which has one child.
    fn collapse_empty_root_to_child(&mut self)
        requires
            old(self).wf(),
            state::is_inner(old(self).state(), old(self).state().root),
            state::kids(old(self).state(), old(self).state().root).len() == 1,
        ensures
            final(self).wf(),
            contents::rows(final(self).state()) == contents::rows(old(self).state()),
            state::height(final(self).state()) == state::height(old(self).state()) - 1,
            final(self).state() == merge_inner::without_root(old(self).state()),
    {
        let ghost s = self.state();
        let ghost end = merge_inner::without_root(s);
        proof {
            self.unfold();
            assert(state::node_ok(s, s.root));
            merge_inner::without_root_ok(s);
            contents::same_rows(s, end);
        }
        let root: u64 = self.root;
        if let Node::Inner(inner) = self.take_node(root) {
            assert(inner.children@ == state::kids(s, root));
            proof {
                self.unfold();
            }
            self.root = inner.children[0];
        }
        self.spans = Ghost(end.spans);
        proof {
            self.unfold();
            assert(self.state().nodes =~= end.nodes);
        }
    }

    /// A parent that has lost a child: as the root it is dropped if it has one
    /// child left, and elsewhere it may be merged in turn.
    fn settle_parent(&mut self, q: u64, path: &mut Vec<u64>)
        requires
            old(self).wf(),
            state::is_inner(old(self).state(), q),
        ensures
            final(self).wf(),
            contents::rows(final(self).state()) == contents::rows(old(self).state()),
            (final(self).state(), final(path)@) == rebalance::settled(
                old(self).state(),
                q,
                old(path)@,
            ),
        decreases old(path)@.len(), 1int,
    {
        proof {
            self.unfold();
            assert(state::node_ok(self.state(), q));
            assert(node::fits(self.state().nodes[q as int]));
        }
        let (count, underfull) = match self.node_at(q) {
            Node::Inner(inner) => (inner.separators.len(), inner.is_underfull()),
            _ => {
                return ;
            },
        };
        if q == self.root {
            if count == 0 {
                self.collapse_empty_root_to_child();
            }
        } else if underfull {
            let _ = self.try_merge_inner_with_path(path, q);
        }
    }

    /// Merge an inner node with a neighbour to the right, or else to the left,
    /// under the parent that the path names. Whether it was merged.
    fn try_merge_inner_with_path(&mut self, path: &mut Vec<u64>, node: u64) -> (r: bool)
        requires
            old(self).wf(),
            state::is_inner(old(self).state(), node),
        ensures
            final(self).wf(),
            contents::rows(final(self).state()) == contents::rows(old(self).state()),
            ({
                let m = rebalance::inner_merged(old(self).state(), old(path)@, node);
                &&& r == m.done
                &&& final(self).state() == m.state
                &&& final(path)@ == m.path
            }),
        decreases old(path)@.len(), 0int,
    {
        let ghost s = self.state();
        let parent: u64 = match path.pop() {
            Some(parent) => parent,
            None => {
                return false;
            },
        };
        let pos: usize = match self.edge_of(parent, node) {
            Some(pos) => pos,
            None => {
                return false;
            },
        };
        proof {
            assert(state::node_ok(s, node));
            assert(state::node_ok(s, parent));
            assert(state::kid_ok(s, parent, pos as int));
        }
        let count: usize = match self.node_at(parent) {
            Node::Inner(inner) => inner.separators.len(),
            _ => {
                return false;
            },
        };
        if pos < count {
            if self.merge_inners(parent, pos) {
                self.settle_parent(parent, path);
                return true;
            }
        }
        if pos > 0 {
            if self.merge_inners(parent, pos - 1) {
                self.settle_parent(parent, path);
                return true;
            }
        }
        false
    }

    /// Merge a leaf with a neighbour to the right, or else to the left, under the
    /// parent that the path names. Whether it was merged.
    fn try_merge_leaf_with_path(&mut self, path: &mut Vec<u64>, leaf: u64) -> (r: bool)
        requires
            old(self).wf(),
            state::is_leaf(old(self).state(), leaf),
        ensures
            final(self).wf(),
            contents::rows(final(self).state()) == contents::rows(old(self).state()),
            ({
                let m = rebalance::leaf_merged(old(self).state(), old(path)@, leaf);
                &&& r == m.done
                &&& final(self).state() == m.state
                &&& final(path)@ == m.path
            }),
    {
        let ghost s = self.state();
        let parent: u64 = match path.pop() {
            Some(parent) => parent,
            None => {
                return false;
            },
        };
        let pos: usize = match self.edge_of(parent, leaf) {
            Some(pos) => pos,
            None => {
                return false;
            },
        };
        proof {
            assert(state::node_ok(s, leaf));
            assert(state::node_ok(s, parent));
            assert(state::kid_ok(s, parent, pos as int));
        }
        let count: usize = match self.node_at(parent) {
            Node::Inner(inner) => inner.separators.len(),
            _ => {
                return false;
            },
        };
        if pos < count {
            if self.merge_leaves(parent, pos) {
                self.settle_parent(parent, path);
                return true;
            }
        }
        if pos > 0 {
            if self.merge_leaves(parent, pos - 1) {
                self.settle_parent(parent, path);
                return true;
            }
        }
        false
    }

    /// Lower the separator behind a leaf whose greatest key was removed. It stands
    /// in the first node on the way up of which the leaf is not the end.
    fn repair_separators_after_delete(
        &mut self,
        path: &mut Vec<u64>,
        leaf: u64,
        new_max: Option<Vec<u8>>,
    )
        requires
            old(self).wf(),
            state::is_leaf(old(self).state(), leaf),
            new_max matches Some(key) ==> ({
                let s = old(self).state();
                forall|j: int, a: int|
                    #![trigger state::rows_at(s, j)[a]]
                    0 <= j <= state::lo(s, leaf) && 0 <= a < state::rows_at(s, j).len()
                        ==> !bytes::lex_lt(key@, state::rows_at(s, j)[a].key)
            }),
        ensures
            final(self).wf(),
            contents::rows(final(self).state()) == contents::rows(old(self).state()),
            (final(self).state(), final(path)@) == rebalance::repaired(
                old(self).state(),
                old(path)@,
                leaf,
                opt_sep(new_max),
            ),
    {
        let key = match new_max {
            Some(key) => key,
            None => {
                return ;
            },
        };
        let ghost s = self.state();
        let ghost f = state::lo(s, leaf);
        let mut child: u64 = leaf;
        proof {
            assert(state::node_ok(s, leaf));
        }
        while path.len() > 0
            invariant
                self.wf(),
                s == self.state(),
                state::live(s, child),
                state::hi(s, child) == f + 1,
                forall|j: int, a: int|
                    #![trigger state::rows_at(s, j)[a]]
                    0 <= j <= f && 0 <= a < state::rows_at(s, j).len() ==> !bytes::lex_lt(
                        key@,
                        state::rows_at(s, j)[a].key,
                    ),
                contents::rows(s) == contents::rows(old(self).state()),
                rebalance::sep_lowered(s, path@, child, key@) == rebalance::repaired(
                    old(self).state(),
                    old(path)@,
                    leaf,
                    opt_sep(new_max),
                ),
            decreases path@.len(),
        {
            let parent: u64 = match path.pop() {
                Some(parent) => parent,
                None => {
                    return ;
                },
            };
            let pos: usize = match self.edge_of(parent, child) {
                Some(pos) => pos,
                None => {
                    return ;
                },
            };
            proof {
                assert(state::node_ok(s, parent));
                assert(state::kid_ok(s, parent, pos as int));
                assert(node::fits(s.nodes[parent as int]));
            }
            let (count, lower) = match self.node_at(parent) {
                Node::Inner(inner) => {
                    assert(node::keys_view(inner.separators@) == state::seps(s, parent));
                    let count: usize = inner.separators.len();
                    let lower = pos < count && separator_fits(
                        inner.separators.as_slice(),
                        pos,
                        key.as_slice(),
                    );
                    (count, lower)
                },
                _ => {
                    return ;
                },
            };
            if pos < count {
                if lower {
                    proof {
                        assert(state::sep_bounds(s, parent, pos as int, key@));
                        merge_inner::with_sep_ok(s, parent, pos as int, key@);
                        contents::same_rows(
                            s,
                            merge_inner::with_sep(s, parent, pos as int, key@),
                        );
                    }
                    self.set_separator_key(parent, pos, key);
                }
                return ;
            }
            child = parent;
        }
    }

    fn set_separator_key(&mut self, q: u64, i: usize, key: Vec<u8>)
        requires
            q < old(self).state().nodes.len(),
            old(self).state().nodes[q as int] is Inner,
            i < state::seps(old(self).state(), q).len(),
        ensures
            final(self).state() == merge_inner::with_sep(
                old(self).state(),
                q,
                i as int,
                key@,
            ),
    {
        let ghost s = self.state();
        if let Node::Inner(mut inner) = self.take_node(q) {
            let ghost ss = node::keys_view(inner.separators@);
            let ghost new = key@;
            inner.separators.set(i, key);
            assert(node::keys_view(inner.separators@) =~= ss.update(i as int, new));
            self.put_node(q, Node::Inner(inner));
        }
        assert(self.state().nodes =~= merge_inner::with_sep(s, q, i as int, key@).nodes);
    }

    /// Merge a leaf that has become small, or else lower the separator behind it.
    fn rebalance_delete_path(
        &mut self,
        path: &mut Vec<u64>,
        leaf: u64,
        deleted_was_max: bool,
        new_max: Option<Vec<u8>>,
        should_merge: bool,
    )
        requires
            old(self).wf(),
            state::is_leaf(old(self).state(), leaf),
            new_max matches Some(key) ==> ({
                let s = old(self).state();
                forall|j: int, a: int|
                    #![trigger state::rows_at(s, j)[a]]
                    0 <= j <= state::lo(s, leaf) && 0 <= a < state::rows_at(s, j).len()
                        ==> !bytes::lex_lt(key@, state::rows_at(s, j)[a].key)
            }),
        ensures
            final(self).wf(),
            contents::rows(final(self).state()) == contents::rows(old(self).state()),
            (final(self).state(), final(path)@) == rebalance::rebalanced(
                old(self).state(),
                old(path)@,
                leaf,
                deleted_was_max,
                opt_sep(new_max),
                should_merge,
            ),
    {
        let merged = should_merge && self.try_merge_leaf_with_path(path, leaf);
        if deleted_was_max && !merged {
            self.repair_separators_after_delete(path, leaf, new_max);
        }
    }

    /// Take a row out of a leaf.
    fn remove_slot(&mut self, pid: u64, pos: usize)
        requires
            old(self).wf(),
            state::is_leaf(old(self).state(), pid),
            pos < state::rows_at(
                old(self).state(),
                state::lo(old(self).state(), pid),
            ).len(),
        ensures
            ({
                let s = old(self).state();
                let f = state::lo(s, pid);
                final(self).state() == change::with_rows(
                    s,
                    f,
                    state::rows_at(s, f).remove(pos as int),
                )
            }),
    {
        let ghost s = self.state();
        let ghost f = self.leaf_facts(pid);
        let ghost rows = state::rows_at(s, f);
        if let Node::Leaf(mut leaf) = self.take_node(pid) {
            let _ = leaf.rows.remove(pos);
            assert(scan::rows_view(leaf.rows@) =~= rows.remove(pos as int));
            self.put_node(pid, Node::Leaf(leaf));
        }
        assert(self.state().nodes =~= change::with_rows(s, f, rows.remove(pos as int)).nodes);
    }

    /// Remove a key. Whether it was there.
    pub fn remove(&mut self, key: &[u8]) -> (r: bool)
        requires
            old(self).wf(),
        ensures
            final(self).wf(),
            r == old(self)@.contains_key(key@),
            final(self)@ == old(self)@.remove(key@),
            final(self).state() == rebalance::removed(old(self).state(), key@),
    {
        let ghost s = self.state();
        let (mut path, leaf) = self.find_leaf_with_path(key);
        proof {
            contents::target_is_unique(
                s,
                key@,
                state::lo(s, leaf),
                contents::target(s, key@),
            );
        }
        let ghost f = self.leaf_facts(leaf);
        let ghost rows = state::rows_at(s, f);
        let (pos, exact, count) = match self.node_at(leaf) {
            Node::Leaf(node) => {
                let (pos, exact) = node::lower_bound(node.rows.as_slice(), key);
                (pos, exact, node.rows.len())
            },
            _ => (0, false, 0),
        };
        if !exact {
            proof {
                assert forall|x: RowView| #[trigger]
                    contents::rows(s).contains(x) implies x.key != key@ by {
                    if x.key == key@ {
                        contents::target_holds(s, key@, f, x);
                        contents::key_at_pos(rows, pos as int, x);
                    }
                }
                contents::map_lacks(contents::rows(s), key@);
                assert(self@.remove(key@) =~= self@);
                assert forall|i: int| 0 <= i < rows.len() implies (#[trigger] rows[i]).key
                    != key@ by {
                    contents::row_is_in(s, f, i);
                }
            }
            return false;
        }
        let deleted_was_max = pos + 1 == count;
        proof {
            assert(rows[pos as int].key == key@);
            bytes::lex_lt_irreflexive(key@);
            assert forall|i: int| 0 <= i < rows.len() && (#[trigger] rows[i]).key
                == key@ implies i == pos by {
                if i != pos {
                    assert(node::sorted_rows(rows));
                }
            }
            contents::remove_ok(s, f, pos as int);
            assert(state::is_leaf(change::with_rows(s, f, rows.remove(pos as int)), leaf));
        }
        self.remove_slot(leaf, pos);
        let ghost t = self.state();
        let ghost g = self.leaf_facts(leaf);
        let (new_max, should_merge) = match self.node_at(leaf) {
            Node::Leaf(node) => {
                let new_max = if deleted_was_max {
                    last_key(&node.rows)
                } else {
                    None
                };
                (new_max, node.is_underfull())
            },
            _ => (None, false),
        };
        proof {
            if new_max is Some {
                let left = state::rows_at(t, g);
                last_bounds(t, g, left.len() - 1);
                assert(new_max->0@ == state::rows_at(t, g)[left.len() - 1].key);
            }
        }
        self.rebalance_delete_path(&mut path, leaf, deleted_was_max, new_max, should_merge);
        true
    }
}

/// Another separator in place of one fits the page.
fn separator_fits(separators: &[Vec<u8>], i: usize, sep: &[u8]) -> (r: bool)
    requires
        i < separators@.len(),
        node::seps_len(node::keys_view(separators@)) <= node::INNER_CAPACITY,
    ensures
        r == (node::seps_len(node::keys_view(separators@).update(i as int, sep@))
            <= node::INNER_CAPACITY),
{
    let ghost ss = node::keys_view(separators@);
    proof {
        node::seps_len_update(ss, i as int, sep@);
        node::seps_len_remove(ss, i as int);
        node::seps_len_nonneg(ss.remove(i as int));
        assert(ss[i as int] == separators@[i as int]@);
    }
    let used: usize = node::separators_space(separators);
    let rest: usize = used - separators[i].len();
    sep.len() <= node::INNER_CAPACITY && rest + sep.len() <= node::INNER_CAPACITY
}

} // verus!
