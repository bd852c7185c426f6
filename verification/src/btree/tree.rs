//! B-link trees: reading, and the leaf of a key.
use vstd::prelude::*;

use crate::betree::scan;
use crate::betree::scan::{Row, RowView};
use crate::btree::change;
use crate::btree::contents;
use crate::btree::node;
use crate::btree::node::{Inner, Leaf, Node, NodeView};
use crate::btree::state;
use crate::btree::state::{Span, State};
use crate::btree::edge::ParentEdge;
use crate::bytes;
use crate::page_id::InnerParentLink;

verus! {

/// A map from byte keys to byte values, as a B-link tree of pages.
pub struct BTree {
    pub(crate) nodes: Vec<Node>,
    pub(crate) root: u64,
    pub(crate) dt_id: u16,
    pub(crate) spans: Ghost<Map<u64, Span>>,
    pub(crate) order: Ghost<Seq<u64>>,
}

impl Leaf {
    /// The key is beyond this leaf, and there is a leaf to the right.
    pub fn should_chase_right(&self, key: &[u8]) -> (r: bool)
        ensures
            r == (self.right != 0 && (self.rows@.len() == 0 || bytes::lex_lt(
                self.rows@.last().key@,
                key@,
            ))),
    {
        if self.right == 0 {
            return false;
        }
        let count: usize = self.rows.len();
        if count == 0 {
            return true;
        }
        bytes::key_less(self.rows[count - 1].key.as_slice(), key)
    }

    /// Where `key` stands or would, and whether it is there; the end is tried
    /// first.
    pub fn leaf_insert_bound(&self, key: &[u8]) -> (r: (usize, bool))
        requires
            node::sorted_rows(scan::rows_view(self.rows@)),
        ensures
            node::is_pos(scan::rows_view(self.rows@), key@, r.0 as int),
            r.1 == (r.0 < self.rows@.len() && self.rows@[r.0 as int].key@ == key@),
    {
        let count: usize = self.rows.len();
        if count == 0 {
            return (0, false);
        }
        let ghost all = scan::rows_view(self.rows@);
        assert(all[count - 1].key == self.rows@[count - 1].key@);
        match bytes::compare_keys(key, self.rows[count - 1].key.as_slice()) {
            bytes::KeyOrder::Greater => {
                proof {
                    contents::last_row_decides(all, key@);
                }
                (count, false)
            },
            bytes::KeyOrder::Equal => {
                proof {
                    bytes::lex_lt_irreflexive(key@);
                }
                (count - 1, true)
            },
            bytes::KeyOrder::Less => node::lower_bound(self.rows.as_slice(), key),
        }
    }
}

impl BTree {
    /// The tree as mathematics.
    pub closed spec fn state(&self) -> State {
        State {
            nodes: node::nodes_view(self.nodes@),
            root: self.root,
            spans: self.spans@,
            order: self.order@,
        }
    }

    pub open spec fn wf(&self) -> bool {
        state::inv(self.state())
    }

    /// Under which number the tree is registered with its pool.
    pub closed spec fn registry_id(&self) -> u16 {
        self.dt_id
    }
}

/// The pages hold a tree with its root on page `root`.
pub open spec fn holds_tree(nodes: Seq<NodeView>, root: u64) -> bool {
    exists|s: State| #[trigger] state::inv(s) && s.nodes == nodes && s.root == root
}

impl View for BTree {
    type V = Map<Seq<u8>, Seq<u8>>;

    open spec fn view(&self) -> Map<Seq<u8>, Seq<u8>> {
        contents::contents(self.state())
    }
}

impl BTree {
    /// A new, empty tree.
    pub fn new(dt_id: u16) -> (r: Self)
        ensures
            r.wf(),
            r@ == Map::<Seq<u8>, Seq<u8>>::empty(),
            state::height(r.state()) == 0,
            r.registry_id() == dt_id,
    {
        let mut nodes: Vec<Node> = Vec::new();
        nodes.push(Node::Free);
        nodes.push(Node::Leaf(Leaf { rows: Vec::new(), left: 0, right: 0 }));
        let r = BTree {
            nodes,
            root: 1,
            dt_id,
            spans: Ghost(Map::empty().insert(1u64, Span { lo: 0, hi: 1, level: 0 })),
            order: Ghost(Seq::empty().push(1u64)),
        };
        proof {
            let s = r.state();
            assert(scan::rows_view(Seq::<Row>::empty()) =~= Seq::<RowView>::empty());
            assert(s.nodes[1] == NodeView::Leaf { rows: Seq::empty(), left: 0, right: 0 });
            assert(s.nodes[0] == NodeView::Free);
            assert(state::rows_at(s, 0) =~= Seq::<RowView>::empty());
            assert(node::rows_len(Seq::<RowView>::empty()) == 0);
            assert(contents::rows(s) =~= Set::<RowView>::empty());
            assert(r@ =~= Map::<Seq<u8>, Seq<u8>>::empty());
        }
        r
    }

    /// Take up a tree again from its pages.
    pub fn open(nodes: Vec<Node>, root_page_id: u64, dt_id: u16) -> (r: Self)
        requires
            holds_tree(node::nodes_view(nodes@), root_page_id),
        ensures
            r.wf(),
            r.state().nodes == node::nodes_view(nodes@),
            r.state().root == root_page_id,
            r.registry_id() == dt_id,
    {
        let ghost s = choose|s: State|
            #[trigger] state::inv(s) && s.nodes == node::nodes_view(nodes@) && s.root
                == root_page_id;
        BTree {
            nodes,
            root: root_page_id,
            dt_id,
            spans: Ghost(s.spans),
            order: Ghost(s.order),
        }
    }

    /// The pages of the tree.
    pub fn into_nodes(self) -> (r: Vec<Node>)
        requires
            self.wf(),
        ensures
            node::nodes_view(r@) == self.state().nodes,
            holds_tree(node::nodes_view(r@), self.state().root),
    {
        assert(state::inv(self.state()));
        self.nodes
    }

    /// Where a page hangs under its parent; `None` for the root.
    pub fn parent_link(&self, pid: u64) -> (r: Option<InnerParentLink>)
        requires
            self.wf(),
            state::live(self.state(), pid),
        ensures
            match r {
                Some(link) => {
                    let s = self.state();
                    let count = state::seps(s, link.parent_pid).len();
                    &&& state::is_inner(s, link.parent_pid)
                    &&& link.slot_index <= count
                    &&& state::kids(s, link.parent_pid)[link.slot_index as int] == pid
                    &&& link.is_upper == (link.slot_index == count)
                    &&& link.dt_id == self.registry_id()
                },
                None => pid == self.state().root,
            },
    {
        let mut path: Vec<u64> = Vec::new();
        match self.find_parent(pid, &mut path) {
            None => None,
            Some((parent_pid, place)) => {
                proof {
                    let s = self.state();
                    assert(state::node_ok(s, parent_pid));
                    assert(node::fits(s.nodes[parent_pid as int]));
                    node::seps_len_counts(state::seps(s, parent_pid));
                }
                let slots: usize = match self.node_at(parent_pid) {
                    Node::Inner(inner) => inner.separators.len(),
                    _ => 0,
                };
                let count: u16 = slots as u16;
                let edge = ParentEdge::from_pos(place as u16, count);
                Some(
                    InnerParentLink {
                        parent_pid,
                        slot_index: edge.pos(count),
                        is_upper: edge.is_upper(),
                        dt_id: self.dt_id,
                    },
                )
            },
        }
    }

    /// The page of the root.
    pub fn root_page_id(&self) -> (r: u64)
        ensures
            r == self.state().root,
    {
        self.root
    }

    pub(crate) proof fn unfold(&self)
        ensures
            self.state() == (State {
                nodes: node::nodes_view(self.nodes@),
                root: self.root,
                spans: self.spans@,
                order: self.order@,
            }),
    {
    }

    /// Put a node onto a page.
    pub(crate) fn put_node(&mut self, pid: u64, node: Node)
        requires
            pid < old(self).state().nodes.len(),
        ensures
            final(self).state() == (State {
                nodes: old(self).state().nodes.update(pid as int, node@),
                ..old(self).state()
            }),
    {
        let count: usize = self.nodes.len();
        assert(pid < count);
        let ghost before = self.state();
        self.nodes.set(pid as usize, node);
        assert(self.state().nodes =~= before.nodes.update(pid as int, node@));
    }

    /// Take the node off a page.
    pub(crate) fn take_node(&mut self, pid: u64) -> (r: Node)
        requires
            pid < old(self).state().nodes.len(),
        ensures
            r@ == old(self).state().nodes[pid as int],
            final(self).state() == (State {
                nodes: old(self).state().nodes.update(pid as int, NodeView::Free),
                ..old(self).state()
            }),
    {
        let count: usize = self.nodes.len();
        assert(pid < count);
        let ghost before = self.state();
        let mut node = Node::Free;
        self.nodes.set_and_swap(pid as usize, &mut node);
        assert(self.state().nodes =~= before.nodes.update(pid as int, NodeView::Free));
        node
    }

    /// A new page.
    pub(crate) fn allocate(&mut self) -> (pid: u64)
        requires
            old(self).wf(),
        ensures
            final(self).wf(),
            final(self).state() == change::with_free(old(self).state()),
            pid == old(self).state().nodes.len(),
            0 < pid < final(self).state().nodes.len() <= usize::MAX,
    {
        let ghost before = self.state();
        let pid: usize = self.nodes.len();
        self.nodes.push(Node::Free);
        let count: usize = self.nodes.len();
        proof {
            assert(count == pid + 1);
            assert(state::live(before, before.root));
            assert(state::node_ok(before, before.root));
            change::with_free_ok(before);
            assert(self.state().nodes =~= change::with_free(before).nodes);
        }
        pid as u64
    }

    pub(crate) fn node_at(&self, pid: u64) -> (r: &Node)
        requires
            self.wf(),
            state::live(self.state(), pid),
        ensures
            r@ == self.state().nodes[pid as int],
            state::node_ok(self.state(), pid),
            0 < pid < self.nodes@.len() <= usize::MAX,
    {
        let count: usize = self.nodes.len();
        assert(state::node_ok(self.state(), pid));
        assert(pid < count);
        &self.nodes[pid as usize]
    }

    /// What is known of a leaf.
    pub(crate) proof fn leaf_facts(&self, pid: u64) -> (f: int)
        requires
            self.wf(),
            state::is_leaf(self.state(), pid),
        ensures
            f == state::lo(self.state(), pid),
            0 <= f < self.state().order.len(),
            self.state().order[f] == pid,
            state::node_ok(self.state(), pid),
            node::sorted_rows(state::rows_at(self.state(), f)),
            node::rows_len(state::rows_at(self.state(), f)) <= node::LEAF_CAPACITY,
            self.state().nodes[pid as int]->right == (if f + 1 < self.state().order.len() {
                self.state().order[f + 1]
            } else {
                0
            }),
            f + 1 < self.state().order.len() ==> state::is_leaf(
                self.state(),
                self.state().order[f + 1],
            ) && state::lo(self.state(), self.state().order[f + 1]) == f + 1
                && self.state().order[f + 1] != 0,
    {
        let s = self.state();
        let f = state::lo(s, pid);
        assert(state::node_ok(s, pid));
        assert(s.order[f] == pid);
        assert(node::sorted_rows(state::rows_at(s, f)));
        assert(node::fits(s.nodes[pid as int]));
        if f + 1 < s.order.len() {
            assert(state::is_leaf(s, s.order[f + 1]));
            assert(state::node_ok(s, s.order[f + 1]));
        }
        f
    }

    /// The child of an inner node to go down to; `None` at a leaf.
    fn step_down(&self, pid: u64, key: &[u8]) -> (r: Option<u64>)
        requires
            self.wf(),
            state::live(self.state(), pid),
        ensures
            match r {
                Some(c) => {
                    let seps = state::seps(self.state(), pid);
                    let i = node::route(seps, key@);
                    &&& state::is_inner(self.state(), pid)
                    &&& node::is_route(seps, key@, i)
                    &&& state::kids(self.state(), pid)[i] == c
                },
                None => state::is_leaf(self.state(), pid),
            },
    {
        match self.node_at(pid) {
            Node::Inner(inner) => {
                let i: usize = node::route_to_child(inner.separators.as_slice(), key);
                assert(state::kids(self.state(), pid)[i as int] == inner.children@[i as int]);
                Some(inner.children[i])
            },
            _ => None,
        }
    }

    /// Go down from the root to a leaf: no leaf before it reaches up to the key.
    /// The inner nodes on the way are returned too.
    fn descend(&self, key: &[u8]) -> (r: (Vec<u64>, u64))
        requires
            self.wf(),
        ensures
            r.0@ == contents::way(self.state(), self.state().root, key@),
            state::is_leaf(self.state(), r.1),
            contents::before(self.state(), key@, state::lo(self.state(), r.1)),
    {
        let ghost s = self.state();
        let mut path: Vec<u64> = Vec::new();
        let mut current: u64 = self.root;
        assert(path@ + contents::way(s, current, key@) =~= contents::way(s, s.root, key@));
        loop
            invariant
                self.wf(),
                s == self.state(),
                state::live(s, current),
                contents::before(s, key@, state::lo(s, current)),
                path@ + contents::way(s, current, key@) == contents::way(s, s.root, key@),
            decreases state::level(s, current),
        {
            match self.step_down(current, key) {
                None => {
                    assert(path@ + contents::way(s, current, key@) =~= path@);
                    return (path, current);
                },
                Some(child) => {
                    proof {
                        let i = node::route(state::seps(s, current), key@);
                        contents::route_is_before(s, current, i, key@);
                        assert(state::node_ok(s, current));
                        assert(state::kid_ok(s, current, i));
                        assert(path@ + contents::way(s, current, key@) =~= path@.push(current)
                            + contents::way(s, child, key@));
                    }
                    path.push(current);
                    current = child;
                },
            }
        }
    }

    /// Go right to the first leaf that reaches up to the key, or the last leaf.
    fn chase_right(&self, leaf: u64, key: &[u8]) -> (r: u64)
        requires
            self.wf(),
            state::is_leaf(self.state(), leaf),
            contents::before(self.state(), key@, state::lo(self.state(), leaf)),
        ensures
            state::is_leaf(self.state(), r),
            contents::is_target(self.state(), key@, state::lo(self.state(), r)),
    {
        let ghost s = self.state();
        let mut current: u64 = leaf;
        loop
            invariant
                self.wf(),
                s == self.state(),
                state::is_leaf(s, current),
                contents::before(s, key@, state::lo(s, current)),
            decreases s.order.len() - state::lo(s, current),
        {
            let ghost f = self.leaf_facts(current);
            proof {
                contents::last_row_decides(state::rows_at(s, f), key@);
            }
            match self.node_at(current) {
                Node::Leaf(node) => {
                    let ghost rows = scan::rows_view(node.rows@);
                    assert(rows == state::rows_at(s, f));
                    assert(rows.len() > 0 ==> rows.last().key == node.rows@.last().key@);
                    if !node.should_chase_right(key) {
                        return current;
                    }
                    current = node.right;
                },
                _ => {
                    return current;
                },
            }
        }
    }

    /// The leaf into which the key belongs.
    pub(crate) fn find_leaf(&self, key: &[u8]) -> (r: u64)
        requires
            self.wf(),
        ensures
            state::is_leaf(self.state(), r),
            contents::is_target(self.state(), key@, state::lo(self.state(), r)),
    {
        let (_, leaf) = self.descend(key);
        self.chase_right(leaf, key)
    }

    /// The leaf into which the key belongs, and the inner nodes on the way to the
    /// leaf where the search began.
    pub(crate) fn find_leaf_with_path(&self, key: &[u8]) -> (r: (Vec<u64>, u64))
        requires
            self.wf(),
        ensures
            r.0@ == contents::way(self.state(), self.state().root, key@),
            state::is_leaf(self.state(), r.1),
            contents::is_target(self.state(), key@, state::lo(self.state(), r.1)),
    {
        let (path, leaf) = self.descend(key);
        let leaf: u64 = self.chase_right(leaf, key);
        (path, leaf)
    }

    /// The value of a key.
    fn find(&self, key: &[u8]) -> (r: Option<&[u8]>)
        requires
            self.wf(),
        ensures
            match r {
                Some(value) => self@.contains_key(key@) && self@[key@] == value@,
                None => !self@.contains_key(key@),
            },
    {
        let ghost s = self.state();
        let leaf: u64 = self.find_leaf(key);
        let ghost f = self.leaf_facts(leaf);
        proof {
            contents::keys_differ_in(s);
        }
        match self.node_at(leaf) {
            Node::Leaf(node) => {
                let ghost rows = scan::rows_view(node.rows@);
                assert(rows == state::rows_at(s, f));
                let (pos, exact) = node::lower_bound(node.rows.as_slice(), key);
                if exact {
                    proof {
                        contents::row_is_in(s, f, pos as int);
                        contents::map_has(contents::rows(s), rows[pos as int]);
                    }
                    Some(node.rows[pos].value.as_slice())
                } else {
                    proof {
                        assert forall|row: RowView| #[trigger]
                            contents::rows(s).contains(row) implies row.key != key@ by {
                            if row.key == key@ {
                                contents::target_holds(s, key@, f, row);
                                contents::key_at_pos(rows, pos as int, row);
                            }
                        }
                        contents::map_lacks(contents::rows(s), key@);
                    }
                    None
                }
            },
            _ => None,
        }
    }

    pub fn lookup(&self, key: &[u8]) -> (r: Option<Vec<u8>>)
        requires
            self.wf(),
        ensures
            match r {
                Some(value) => self@.contains_key(key@) && self@[key@] == value@,
                None => !self@.contains_key(key@),
            },
    {
        match self.find(key) {
            Some(value) => Some(bytes::copy_bytes(value)),
            None => None,
        }
    }

    /// Hand the value of a key to `f`.
    pub fn lookup_with<R, F: FnOnce(Option<&[u8]>) -> R>(&self, key: &[u8], f: F) -> (r: R)
        requires
            self.wf(),
            forall|value: Option<&[u8]>| #[trigger] f.requires((value,)),
        ensures
            exists|value: Option<&[u8]>| #[trigger]
                f.ensures((value,), r) && match value {
                    Some(bytes) => self@.contains_key(key@) && self@[key@] == bytes@,
                    None => !self@.contains_key(key@),
                },
    {
        let value = self.find(key);
        f(value)
    }

    /// The value of a key, if it is `N` bytes long.
    pub fn lookup_fixed<const N: usize>(&self, key: &[u8]) -> (r: Option<[u8; N]>)
        requires
            self.wf(),
        ensures
            match r {
                Some(array) => self@.contains_key(key@) && self@[key@] == array@,
                None => self@.contains_key(key@) ==> self@[key@].len() != N,
            },
    {
        match self.find(key) {
            Some(value) => crate::betree::tree::array_from(value),
            None => None,
        }
    }

    /// The number of levels of inner nodes; 0 for a single leaf.
    pub fn height(&self) -> (r: u32)
        requires
            self.wf(),
        ensures
            r as int == if state::height(self.state()) <= u32::MAX {
                state::height(self.state()) as int
            } else {
                u32::MAX as int
            },
    {
        let ghost s = self.state();
        let mut current: u64 = self.root;
        let mut levels: u32 = 0;
        loop
            invariant
                self.wf(),
                s == self.state(),
                state::live(s, current),
                levels as int == if state::height(s) - state::level(s, current) <= u32::MAX {
                    state::height(s) - state::level(s, current)
                } else {
                    u32::MAX as int
                },
                state::level(s, current) <= state::height(s),
            decreases state::level(s, current),
        {
            match self.node_at(current) {
                Node::Inner(inner) => {
                    proof {
                        assert(inner.children@ == state::kids(s, current));
                        assert(state::kid_ok(s, current, 0));
                    }
                    if levels < u32::MAX {
                        levels = levels + 1;
                    }
                    current = inner.children[0];
                },
                _ => {
                    return levels;
                },
            }
        }
    }

    /// The pages in use, in ascending order.
    pub fn owned_page_ids(&self) -> (r: Vec<u64>)
        requires
            self.wf(),
        ensures
            forall|p: u64| #[trigger] r@.contains(p) <==> state::live(self.state(), p),
            forall|i: int, j: int|
                #![trigger r@[i], r@[j]]
                0 <= i < j < r@.len() ==> r@[i] < r@[j],
    {
        let ghost s = self.state();
        let mut pids: Vec<u64> = Vec::new();
        let count: usize = self.nodes.len();
        let mut i: usize = 0;
        while i < count
            invariant
                self.wf(),
                s == self.state(),
                i <= count == self.nodes@.len(),
                forall|p: u64| #[trigger]
                    pids@.contains(p) <==> state::live(s, p) && p < i,
                forall|a: int, b: int|
                    #![trigger pids@[a], pids@[b]]
                    0 <= a < b < pids@.len() ==> pids@[a] < pids@[b],
                forall|a: int| 0 <= a < pids@.len() ==> (#[trigger] pids@[a]) < i,
            decreases count - i,
        {
            let ghost before = pids@;
            let p: u64 = i as u64;
            proof {
                assert(s.nodes[i as int] == self.nodes@[i as int]@);
                if state::live(s, p) {
                    assert(state::node_ok(s, p));
                } else {
                    assert(s.nodes[p as int] is Free);
                }
            }
            let used = match &self.nodes[i] {
                Node::Free => false,
                _ => true,
            };
            if used {
                pids.push(p);
                proof {
                    assert forall|x: u64| #[trigger]
                        pids@.contains(x) <==> before.contains(x) || x == p by {
                        if before.contains(x) {
                            let a = choose|a: int| 0 <= a < before.len() && before[a] == x;
                            assert(pids@[a] == x);
                        }
                        if x == p {
                            assert(pids@[before.len() as int] == x);
                        }
                        if pids@.contains(x) {
                            let a = choose|a: int| 0 <= a < pids@.len() && pids@[a] == x;
                            if a < before.len() {
                                assert(before[a] == x);
                            }
                        }
                    }
                }
            }
            i += 1;
        }
        proof {
            assert forall|p: u64| #[trigger] pids@.contains(p) <==> state::live(s, p) by {
                if state::live(s, p) {
                    assert(state::node_ok(s, p));
                }
            }
        }
        pids
    }
}

} // verus!
