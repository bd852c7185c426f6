//! Writing to a B-link tree: splits from the leaves upwards, insertion and
//! replacement.
use vstd::prelude::*;

use crate::betree::scan::RowView;
use crate::btree::change;
use crate::btree::grow_inner;
use crate::btree::growth;
use crate::btree::node;
use crate::btree::rebalance;
use crate::btree::node::{Inner, Node, NodeView};
use crate::btree::state;
use crate::btree::state::State;
use crate::btree::tree::BTree;

verus! {

/// Between `s` and `t` nothing happened below level `l`: the rows are the same,
/// and so are all nodes below it and all pages that were not in use.
pub open spec fn keeps(s: State, t: State, l: nat) -> bool {
    &&& state::inv(t)
    &&& t.order == s.order
    &&& forall|j: int|
        0 <= j < s.order.len() ==> #[trigger] state::rows_at(t, j) == state::rows_at(s, j)
    &&& s.nodes.len() <= t.nodes.len()
    &&& forall|p: u64|
        #![trigger t.nodes[p as int]]
        p < s.nodes.len() && s.nodes[p as int] is Free ==> t.nodes[p as int]
            == s.nodes[p as int]
    &&& forall|p: u64|
        #![trigger state::live(t, p)]
        #![trigger t.nodes[p as int]]
        state::live(s, p) && state::level(s, p) < l ==> {
            &&& state::live(t, p)
            &&& t.spans[p] == s.spans[p]
            &&& t.nodes[p as int] == s.nodes[p as int]
        }
}

pub proof fn keeps_trans(s: State, t: State, u: State, l: nat)
    requires
        state::inv(s),
        keeps(s, t, l),
        keeps(t, u, l),
    ensures
        keeps(s, u, l),
{
    assert forall|p: u64|
        #![trigger u.nodes[p as int]]
        p < s.nodes.len() && s.nodes[p as int] is Free implies u.nodes[p as int]
        == s.nodes[p as int] by {
        assert(t.nodes[p as int] == s.nodes[p as int]);
    }
    assert forall|p: u64|
        #![trigger state::live(u, p)]
        #![trigger u.nodes[p as int]]
        state::live(s, p) && state::level(s, p) < l implies {
        &&& state::live(u, p)
        &&& u.spans[p] == s.spans[p]
        &&& u.nodes[p as int] == s.nodes[p as int]
    } by {
        assert(state::live(t, p));
    }
}

pub proof fn keeps_free(s: State, l: nat)
    requires
        state::inv(s),
        s.nodes.len() < u64::MAX,
    ensures
        keeps(s, change::with_free(s), l),
{
    let t = change::with_free(s);
    change::with_free_ok(s);
    assert forall|j: int| 0 <= j < s.order.len() implies #[trigger] state::rows_at(t, j)
        == state::rows_at(s, j) by {
        assert(state::is_leaf(s, s.order[j]));
        assert(state::node_ok(s, s.order[j]));
    }
    assert forall|p: u64|
        #![trigger t.nodes[p as int]]
        state::live(s, p) implies t.nodes[p as int] == s.nodes[p as int] by {
        assert(state::node_ok(s, p));
    }
}

impl BTree {
    /// The parent of a node and the place of the node in it; `None` for the root.
    /// The last node of the path is tried first.
    pub(crate) fn find_parent(&self, pid: u64, path: &mut Vec<u64>) -> (r: Option<(u64, usize)>)
        requires
            self.wf(),
            state::live(self.state(), pid),
        ensures
            match r {
                Some((q, i)) => {
                    &&& pid != self.state().root
                    &&& state::is_inner(self.state(), q)
                    &&& i < state::kids(self.state(), q).len()
                    &&& state::kids(self.state(), q)[i as int] == pid
                },
                None => pid == self.state().root,
            },
    {
        let ghost s = self.state();
        proof {
            self.unfold();
        }
        if pid == self.root {
            return None;
        }
        if let Some(candidate) = path.pop() {
            if let Some(i) = self.edge_of(candidate, pid) {
                proof {
                    not_the_root(s, candidate, i as int);
                }
                return Some((candidate, i));
            }
        }
        let count: usize = self.nodes.len();
        let ghost (q, at) = state::parent_exists(s, pid);
        let mut n: usize = 0;
        while n < count
            invariant
                self.wf(),
                s == self.state(),
                count == s.nodes.len(),
                count == self.nodes@.len(),
                n <= count,
                state::live(s, pid),
                pid != s.root,
                state::is_inner(s, q),
                0 <= at < state::kids(s, q).len(),
                state::kids(s, q)[at] == pid,
                n <= q < count,
            decreases count - n,
        {
            if let Some(i) = self.edge_of(n as u64, pid) {
                return Some((n as u64, i));
            }
            n += 1;
        }
        None
    }

    /// The place of a child in a node, if it is one of an inner node.
    pub(crate) fn edge_of(&self, candidate: u64, pid: u64) -> (r: Option<usize>)
        requires
            self.wf(),
        ensures
            match r {
                Some(i) => {
                    &&& state::is_inner(self.state(), candidate)
                    &&& i < state::kids(self.state(), candidate).len()
                    &&& state::kids(self.state(), candidate)[i as int] == pid
                    &&& rebalance::place(self.state(), candidate, pid) == Some(i as int)
                },
                None => !(state::is_inner(self.state(), candidate) && state::kids(
                    self.state(),
                    candidate,
                ).contains(pid)),
            },
    {
        let ghost s = self.state();
        let count: usize = self.nodes.len();
        proof {
            self.unfold();
            if state::live(s, candidate) {
                assert(state::node_ok(s, candidate));
            }
        }
        if candidate >= count as u64 {
            return None;
        }
        proof {
            assert(s.nodes[candidate as int] == self.nodes@[candidate as int]@);
        }
        match &self.nodes[candidate as usize] {
            Node::Inner(inner) => {
                assert(inner.children@ == state::kids(s, candidate));
                let found = node::child_position(inner.children.as_slice(), pid);
                proof {
                    if found is Some {
                        assert(state::live(s, candidate));
                        rebalance::place_is(s, candidate, pid, found->0 as int);
                    }
                }
                found
            },
            _ => None,
        }
    }
}

/// A child is not the root.
proof fn not_the_root(s: State, q: u64, i: int)
    requires
        state::inv(s),
        state::is_inner(s, q),
        0 <= i < state::kids(s, q).len(),
    ensures
        state::kids(s, q)[i] != s.root,
{
    assert(state::node_ok(s, q));
    assert(state::kid_ok(s, q, i));
}

/// One separator takes no more space than all.
pub proof fn one_sep_fits(seps: Seq<Seq<u8>>, m: int)
    requires
        0 <= m < seps.len(),
    ensures
        node::sep_len(seps[m]) <= node::seps_len(seps),
{
    node::seps_len_remove(seps, m);
    node::seps_len_nonneg(seps.remove(m));
}

/// One row takes no more space than all.
pub proof fn one_row_fits(rows: Seq<RowView>, m: int)
    requires
        0 <= m < rows.len(),
    ensures
        node::row_len(rows[m]) <= node::rows_len(rows),
{
    node::rows_len_remove(rows, m);
    node::rows_len_nonneg(rows.remove(m));
}

impl BTree {
    /// Put a new root above the root.
    fn grow_root(&mut self) -> (n: u64)
        requires
            old(self).wf(),
        ensures
            final(self).wf(),
            n == final(self).state().root,
            n == old(self).state().nodes.len(),
            final(self).state() == change::with_root(change::with_free(old(self).state()), n),
            forall|l: nat|
                #![trigger keeps(old(self).state(), final(self).state(), l)]
                keeps(old(self).state(), final(self).state(), l),
            final(self).state().nodes.len() > old(self).state().nodes.len(),
    {
        let ghost s = self.state();
        let n: u64 = self.allocate();
        let ghost t = self.state();
        proof {
            self.unfold();
        }
        let mut children: Vec<u64> = Vec::new();
        children.push(self.root);
        let separators: Vec<Vec<u8>> = Vec::new();
        let node = Node::Inner(Inner { separators, children });
        proof {
            change::with_root_ok(t, n);
            assert(node@ =~= NodeView::Inner { seps: Seq::empty(), kids: seq![t.root] });
        }
        self.put_node(n, node);
        proof {
            self.unfold();
        }
        self.root = n;
        self.spans = Ghost(change::with_root(t, n).spans);
        proof {
            self.unfold();
            assert(self.state() == change::with_root(t, n));
            let u = self.state();
            assert forall|l: nat| #![trigger keeps(s, u, l)] keeps(s, u, l) by {
                keeps_root(s, l);
            }
        }
        n
    }

    /// The parent of a node, once it has room for one more separator: it is split
    /// until it has, and a root gets a new root above it.
    #[verifier::rlimit(40)]
    #[verifier::spinoff_prover]
    pub(crate) fn parent_with_room(&mut self, pid: u64, key_len: usize, path: &mut Vec<u64>) -> (r: (
        u64,
        usize,
    ))
        requires
            old(self).wf(),
            state::live(old(self).state(), pid),
            key_len + node::SLOT_LEN + node::LINK_LEN <= node::INNER_CAPACITY,
        ensures
            final(self).wf(),
            keeps(
                old(self).state(),
                final(self).state(),
                state::level(old(self).state(), pid) + 1,
            ),
            state::is_inner(final(self).state(), r.0),
            r.1 < state::kids(final(self).state(), r.0).len(),
            state::kids(final(self).state(), r.0)[r.1 as int] == pid,
            node::can_insert_separator(
                state::seps(final(self).state(), r.0),
                key_len as int,
            ),
            final(self).state() == growth::with_room(old(self).state(), pid, key_len as int),
            growth::parent(final(self).state(), pid) == Some((r.0, r.1 as int)),
        decreases growth::outside(old(self).state(), pid), 1int,
    {
        let ghost s = self.state();
        let ghost l = state::level(s, pid) + 1;
        proof {
            keeps_same(s, l);
        }
        loop
            invariant
                self.wf(),
                state::inv(s),
                s == old(self).state(),
                state::live(s, pid),
                l == state::level(s, pid) + 1,
                keeps(s, self.state(), l),
                key_len + node::SLOT_LEN + node::LINK_LEN <= node::INNER_CAPACITY,
                growth::with_room(self.state(), pid, key_len as int) == growth::with_room(
                    s,
                    pid,
                    key_len as int,
                ),
            decreases growth::parent_load(self.state(), pid),
        {
            let ghost t = self.state();
            assert(state::live(t, pid));
            match self.find_parent(pid, path) {
                None => {
                    proof {
                        growth::root_has_no_parent(t);
                    }
                    let n: u64 = self.grow_root();
                    proof {
                        let u = self.state();
                        assert(keeps(t, u, l));
                        keeps_trans(s, t, u, l);
                        assert(u.nodes[n as int] == NodeView::Inner {
                            seps: Seq::empty(),
                            kids: seq![pid],
                        });
                        assert(node::seps_len(Seq::<Seq<u8>>::empty()) == 0);
                        assert(state::live(u, n));
                        assert(growth::is_parent(u, pid, n, 0));
                        growth::parent_is(u, pid, n, 0);
                    }
                    return (n, 0);
                },
                Some((q, i)) => {
                    proof {
                        assert(state::node_ok(t, q));
                        assert(state::kid_ok(t, q, i as int));
                        assert(node::fits(t.nodes[q as int]));
                        assert(growth::is_parent(t, pid, q, i as int));
                        growth::parent_is(t, pid, q, i as int);
                    }
                    let room = match self.node_at(q) {
                        Node::Inner(inner) => inner.can_insert_separator(key_len),
                        _ => false,
                    };
                    if room {
                        return (q, i);
                    }
                    proof {
                        if state::seps(t, q).len() == 0 {
                            assert(node::seps_len(state::seps(t, q)) == 0);
                        }
                        growth::parent_covers_more(t, pid, q, i as int);
                        assert(t.spans[pid] == s.spans[pid]);
                        assert(state::level(t, q) == l);
                    }
                    self.split_inner_node(q, path);
                    proof {
                        let u = self.state();
                        assert(keeps(t, u, l));
                        keeps_trans(s, t, u, l);
                        assert(state::live(s, pid) && state::level(s, pid) < l);
                        assert(state::live(u, pid));
                        assert(u.spans[pid] == s.spans[pid]);
                        growth::cut_leaves_fewer(t, u, pid, q, i as int, t.nodes.len() as u64);
                    }
                },
            }
        }
    }

    /// Split an inner node in the middle: it keeps the separators before the one
    /// there, that one goes to its parent, and those behind it to a new node.
    fn split_inner_node(&mut self, pid: u64, path: &mut Vec<u64>)
        requires
            old(self).wf(),
            state::is_inner(old(self).state(), pid),
            state::seps(old(self).state(), pid).len() > 0,
        ensures
            final(self).wf(),
            keeps(
                old(self).state(),
                final(self).state(),
                state::level(old(self).state(), pid),
            ),
            final(self).state() == growth::inner_split(old(self).state(), pid),
            growth::was_cut(
                old(self).state(),
                final(self).state(),
                pid,
                old(self).state().nodes.len() as u64,
            ),
        decreases growth::outside(old(self).state(), pid), 2int,
    {
        let ghost s = self.state();
        let ghost l = state::level(s, pid);
        let sib: u64 = self.allocate();
        let ghost t = self.state();
        proof {
            keeps_free(s, l + 1);
            assert(state::node_ok(s, pid));
            assert(node::fits(s.nodes[pid as int]));
            one_sep_fits(state::seps(s, pid), state::seps(s, pid).len() as int / 2);
            assert(t.nodes[pid as int] == s.nodes[pid as int]);
        }
        let (mid, key_len) = match self.node_at(pid) {
            Node::Inner(inner) => {
                let count: usize = inner.separators.len();
                (count / 2, inner.separators[count / 2].len())
            },
            _ => (0, 0),
        };
        let (q, i) = self.parent_with_room(pid, key_len, path);
        let ghost u = self.state();
        proof {
            keeps_trans(s, t, u, l + 1);
            assert(state::live(u, pid));
            assert(u.nodes[pid as int] == s.nodes[pid as int]);
            assert(u.nodes[sib as int] == t.nodes[sib as int]);
            assert(grow_inner::can_split_inner(u, pid, mid as int, sib, q, i as int)) by {
                reveal(grow_inner::can_split_inner);
            }
            grow_inner::split_inner_ok(u, pid, mid as int, sib, q, i as int);
        }
        self.apply_inner_split(pid, mid, sib, q, i);
        proof {
            keeps_split(s, u, pid, mid as int, sib, q, i as int);
            grow_inner::split_apart(u, pid, mid as int, sib, q, i as int);
        }
    }

    /// Cut an inner node in two, with the new separator in its parent.
    fn apply_inner_split(&mut self, pid: u64, mid: usize, sib: u64, q: u64, i: usize)
        requires
            grow_inner::can_split_inner(old(self).state(), pid, mid as int, sib, q, i as int),
        ensures
            final(self).state() == grow_inner::split_inner(
                old(self).state(),
                pid,
                mid as int,
                sib,
                q,
                i as int,
            ),
    {
        let ghost s = self.state();
        let ghost end = grow_inner::split_inner(s, pid, mid as int, sib, q, i as int);
        let ghost ss = state::seps(s, pid);
        let ghost ks = state::kids(s, pid);
        proof {
            grow_inner::split_apart(s, pid, mid as int, sib, q, i as int);
        }
        if let Node::Inner(mut left) = self.take_node(pid) {
            let ghost sl = left.separators@;
            let ghost kl = left.children@;
            assert(node::keys_view(sl) == ss && kl == ks);
            let count: usize = left.separators.len();
            assert(count == ss.len());
            let right_separators = left.separators.split_off(mid + 1);
            let right_children = left.children.split_off(mid + 1);
            assert(node::keys_view(right_separators@) =~= ss.skip(mid + 1));
            assert(right_children@ =~= ks.skip(mid + 1));
            if let Some(sep) = left.separators.pop() {
                assert(sep@ == ss[mid as int]);
                assert(node::keys_view(left.separators@) =~= ss.take(mid as int));
                assert(left.children@ =~= ks.take(mid + 1));
                self.put_node(pid, Node::Inner(left));
                self.put_node(
                    sib,
                    Node::Inner(
                        Inner { separators: right_separators, children: right_children },
                    ),
                );
                let ghost w = self.state();
                assert(w.nodes[q as int] == s.nodes[q as int]);
                if let Node::Inner(mut parent) = self.take_node(q) {
                    let ghost sp = parent.separators@;
                    assert(node::keys_view(sp) == state::seps(s, q));
                    let child_count: usize = parent.children.len();
                    assert(i < child_count);
                    parent.separators.insert(i, sep);
                    parent.children.insert(i + 1, sib);
                    assert(node::keys_view(parent.separators@) =~= state::seps(s, q).insert(
                        i as int,
                        ss[mid as int],
                    ));
                    self.put_node(q, Node::Inner(parent));
                }
            }
        }
        proof {
            self.unfold();
        }
        self.spans = Ghost(end.spans);
        proof {
            self.unfold();
            assert(self.state().nodes =~= end.nodes);
        }
    }
}

proof fn keeps_same(s: State, l: nat)
    requires
        state::inv(s),
    ensures
        keeps(s, s, l),
{
}

/// A new root leaves everything below it as it was.
proof fn keeps_root(s: State, l: nat)
    requires
        state::inv(s),
        s.nodes.len() < u64::MAX,
    ensures
        keeps(s, change::with_root(change::with_free(s), s.nodes.len() as u64), l),
{
    let n = s.nodes.len() as u64;
    let t = change::with_free(s);
    assert(state::node_ok(s, s.root));
    keeps_free(s, l);
    change::with_root_ok(t, n);
    let u = change::with_root(t, n);
    assert forall|p: u64|
        #![trigger u.nodes[p as int]]
        p < s.nodes.len() implies u.nodes[p as int] == s.nodes[p as int] by {}
    assert forall|p: u64|
        #![trigger state::live(u, p)]
        #![trigger u.nodes[p as int]]
        state::live(s, p) implies {
        &&& state::live(u, p)
        &&& u.spans[p] == s.spans[p]
        &&& u.nodes[p as int] == s.nodes[p as int]
    } by {
        assert(state::node_ok(s, p));
    }
}

/// A split of an inner node leaves everything below it as it was.
#[verifier::rlimit(60)]
#[verifier::spinoff_prover]
proof fn keeps_split(s: State, u: State, pid: u64, m: int, sib: u64, q: u64, i: int)
    requires
        state::inv(s),
        state::live(s, pid),
        keeps(s, u, state::level(s, pid) + 1),
        grow_inner::can_split_inner(u, pid, m, sib, q, i),
        sib >= s.nodes.len(),
    ensures
        keeps(s, grow_inner::split_inner(u, pid, m, sib, q, i), state::level(s, pid)),
{
    let l = state::level(s, pid);
    let t = grow_inner::split_inner(u, pid, m, sib, q, i);
    grow_inner::split_inner_ok(u, pid, m, sib, q, i);
    grow_inner::split_apart(u, pid, m, sib, q, i);
    assert(state::live(u, pid) && state::level(u, pid) == l);
    assert forall|j: int| 0 <= j < s.order.len() implies #[trigger] state::rows_at(t, j)
        == state::rows_at(s, j) by {
        assert(state::rows_at(u, j) == state::rows_at(s, j));
    }
    assert forall|p: u64|
        #![trigger t.nodes[p as int]]
        p < s.nodes.len() && s.nodes[p as int] is Free implies t.nodes[p as int]
        == s.nodes[p as int] by {
        assert(u.nodes[p as int] == s.nodes[p as int]);
    }
    assert forall|p: u64|
        #![trigger state::live(t, p)]
        #![trigger t.nodes[p as int]]
        state::live(s, p) && state::level(s, p) < l implies {
        &&& state::live(t, p)
        &&& t.spans[p] == s.spans[p]
        &&& t.nodes[p as int] == s.nodes[p as int]
    } by {
        assert(state::live(u, p));
        assert(u.spans[p] == s.spans[p]);
        assert(u.nodes[p as int] == s.nodes[p as int]);
    }
}

} // verus!
