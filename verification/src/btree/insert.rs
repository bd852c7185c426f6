//! Insertion into a B-link tree: a full leaf is split until the entry fits.
use vstd::prelude::*;

use crate::betree::scan;
use crate::betree::scan::{Row, RowView};
use crate::btree::change;
use crate::btree::contents;
use crate::btree::grow;
use crate::btree::growth;
use crate::btree::node;
use crate::btree::node::{Leaf, Node, NodeView};
use crate::btree::placing;
use crate::btree::state;
use crate::btree::state::State;
use crate::btree::tree::BTree;
use crate::btree::room;
use crate::bytes;

verus! {

/// The leaf at index `f` of `s` was cut before row `m`.
pub open spec fn was_split(s: State, t: State, f: int, m: int) -> bool {
    &&& t.order.len() == s.order.len() + 1
    &&& forall|j: int|
        0 <= j < t.order.len() ==> #[trigger] state::rows_at(t, j) == (if j < f {
            state::rows_at(s, j)
        } else if j == f {
            state::rows_at(s, f).take(m)
        } else if j == f + 1 {
            state::rows_at(s, f).skip(m)
        } else {
            state::rows_at(s, j - 1)
        })
}

/// The leaf at index `f` of `s`, which had one row, became two of one row each,
/// `row` in one of them.
pub open spec fn was_paired(s: State, t: State, f: int, row: RowView) -> bool {
    let rows = state::rows_at(s, f);
    let first = bytes::lex_lt(row.key, rows[0].key);
    &&& t.order.len() == s.order.len() + 1
    &&& forall|j: int|
        0 <= j < t.order.len() ==> #[trigger] state::rows_at(t, j) == (if j < f {
            state::rows_at(s, j)
        } else if j == f {
            if first {
                seq![row]
            } else {
                rows
            }
        } else if j == f + 1 {
            if first {
                rows
            } else {
                seq![row]
            }
        } else {
            state::rows_at(s, j - 1)
        })
}

pub proof fn target_len_is(s: State, key: Seq<u8>, f: int)
    requires
        contents::is_target(s, key, f),
    ensures
        growth::target_len(s, key) == state::rows_at(s, f).len(),
{
    contents::target_is_unique(s, key, f, contents::target(s, key));
}

/// The leaf of a key after its leaf was split.
pub proof fn target_after_split(s: State, t: State, key: Seq<u8>, f: int, m: int)
    requires
        contents::is_target(s, key, f),
        was_split(s, t, f, m),
        0 <= m <= state::rows_at(s, f).len(),
    ensures
        contents::all_below(state::rows_at(s, f).take(m), key) ==> contents::is_target(
            t,
            key,
            f + 1,
        ),
        !contents::all_below(state::rows_at(s, f).take(m), key) ==> contents::is_target(
            t,
            key,
            f,
        ),
{
    let rows = state::rows_at(s, f);
    assert forall|j: int| 0 <= j < f implies contents::all_below(
        #[trigger] state::rows_at(t, j),
        key,
    ) by {
        assert(contents::all_below(state::rows_at(s, j), key));
    }
    if contents::all_below(rows.take(m), key) {
        if f + 2 < t.order.len() {
            let a = choose|a: int|
                0 <= a < rows.len() && !bytes::lex_lt((#[trigger] rows[a]).key, key);
            if a < m {
                assert(rows.take(m)[a] == rows[a]);
            } else {
                assert(rows.skip(m)[a - m] == rows[a]);
                assert(!contents::all_below(rows.skip(m), key));
            }
        }
    }
}

/// Writing to the leaf of a key after it was split is writing to it as it was.
proof fn grown_after_split(s: State, t: State, f: int, row: RowView)
    requires
        contents::is_target(s, row.key, f),
        node::sorted_rows(state::rows_at(s, f)),
        state::rows_at(s, f).len() >= 2,
        was_split(s, t, f, placing::cut(state::rows_at(s, f), row.key)),
        node::rows_len(placing::with_row(state::rows_at(s, f), row)) > node::LEAF_CAPACITY,
    ensures
        placing::grown(placing::leaves(t), contents::target(t, row.key), row) == placing::grown(
            placing::leaves(s),
            f,
            row,
        ),
{
    let rows = state::rows_at(s, f);
    let m = placing::cut(rows, row.key);
    let ls = placing::leaves(s);
    let ms = placing::leaves(t);
    assert(ms =~= ls.take(f) + seq![rows.take(m), rows.skip(m)] + ls.skip(f + 1)) by {
        assert forall|j: int| 0 <= j < ms.len() implies ms[j] == (ls.take(f) + seq![
            rows.take(m),
            rows.skip(m),
        ] + ls.skip(f + 1))[j] by {
            assert(ms[j] == state::rows_at(t, j));
        }
    }
    placing::grown_after_cut(ls, f, row, ms);
    target_after_split(s, t, row.key, f, m);
    let left = rows.take(m);
    assert forall|i: int, j: int|
        #![trigger left[i], left[j]]
        0 <= i < j < left.len() implies bytes::lex_lt(left[i].key, left[j].key) by {
        assert(bytes::lex_lt(rows[i].key, rows[j].key));
    }
    contents::last_row_decides(left, row.key);
    let g = if contents::all_below(left, row.key) {
        f + 1
    } else {
        f
    };
    contents::target_is_unique(t, row.key, g, contents::target(t, row.key));
}

/// A leaf of one row that has no room becomes two.
proof fn grown_to_pair(s: State, t: State, f: int, row: RowView)
    requires
        0 <= f < s.order.len(),
        state::rows_at(s, f).len() == 1,
        was_paired(s, t, f, row),
        node::rows_len(placing::with_row(state::rows_at(s, f), row)) > node::LEAF_CAPACITY,
    ensures
        placing::leaves(t) == placing::grown(placing::leaves(s), f, row),
{
    let ls = placing::leaves(s);
    let ms = placing::leaves(t);
    let goal = placing::grown(ls, f, row);
    assert forall|j: int| 0 <= j < ms.len() implies ms[j] == goal[j] by {
        assert(ms[j] == state::rows_at(t, j));
    }
    assert(ms =~= goal);
}

impl BTree {
    /// Cut a leaf before row `m`, with `sep` as the separator to the new leaf.
    pub(crate) fn split_leaf_at(
        &mut self,
        pid: u64,
        m: usize,
        sep: Vec<u8>,
        path: &mut Vec<u64>,
    ) -> (r: (u64, u64, usize))
        requires
            old(self).wf(),
            state::is_leaf(old(self).state(), pid),
            m <= state::rows_at(
                old(self).state(),
                state::lo(old(self).state(), pid),
            ).len(),
            grow::separates(
                old(self).state(),
                state::lo(old(self).state(), pid),
                m as int,
                sep@,
            ),
            sep@.len() + node::SLOT_LEN + node::LINK_LEN <= node::INNER_CAPACITY,
        ensures
            final(self).wf(),
            contents::rows(final(self).state()) == contents::rows(old(self).state()),
            ({
                let s = old(self).state();
                let t = final(self).state();
                let f = state::lo(s, pid);
                &&& was_split(s, t, f, m as int)
                &&& t == growth::leaf_split(s, f, m as int, sep@)
                &&& t.order[f] == pid
                &&& t.order[f + 1] == r.0
                &&& state::is_inner(t, r.1)
                &&& r.2 + 1 < state::kids(t, r.1).len()
                &&& state::kids(t, r.1)[r.2 as int] == pid
                &&& state::kids(t, r.1)[r.2 + 1] == r.0
                &&& state::seps(t, r.1)[r.2 as int] == sep@
            }),
    {
        let ghost s = self.state();
        let ghost f = self.leaf_facts(pid);
        let sib: u64 = self.allocate();
        let ghost t = self.state();
        proof {
            room::keeps_free(s, 1);
            assert(state::live(t, pid));
        }
        let (q, i) = self.parent_with_room(pid, sep.len(), path);
        let ghost u = self.state();
        proof {
            room::keeps_trans(s, t, u, 1);
            assert(u.nodes[sib as int] == t.nodes[sib as int]);
            assert(state::rows_at(u, f) == state::rows_at(s, f));
            assert(grow::separates(u, f, m as int, sep@)) by {
                assert forall|j: int, a: int|
                    #![trigger state::rows_at(u, j)[a]]
                    0 <= j < f && 0 <= a < state::rows_at(u, j).len() implies !bytes::lex_lt(
                    sep@,
                    state::rows_at(u, j)[a].key,
                ) by {
                    assert(state::rows_at(u, j)[a] == state::rows_at(s, j)[a]);
                }
            }
            assert(grow::can_split_leaf(u, f, m as int, sib, q, i as int, sep@)) by {
                reveal(grow::can_split_leaf);
            }
            grow::split_leaf_ok(u, f, m as int, sib, q, i as int, sep@);
            grow::split_leaf_rows(u, f, m as int, sib, q, i as int, sep@);
            contents::split_keeps_rows(u, f, m as int, sib, q, i as int, sep@);
            contents::same_rows(s, u);
            grow::split_leaf_apart(u, f, m as int, sib, q, i as int, sep@);
        }
        self.apply_leaf_split(Ghost(f), pid, m, sib, q, i, sep);
        proof {
            let e = self.state();
            assert(state::kids(e, q) == state::kids(u, q).insert(i + 1, sib));
            assert(e.nodes[q as int] is Inner);
            assert(state::live(e, q));
        }
        (sib, q, i)
    }

    /// Cut a leaf in two, link the new leaf, and put the separator into the
    /// parent.
    fn apply_leaf_split(
        &mut self,
        Ghost(f): Ghost<int>,
        pid: u64,
        m: usize,
        sib: u64,
        q: u64,
        i: usize,
        sep: Vec<u8>,
    )
        requires
            grow::can_split_leaf(old(self).state(), f, m as int, sib, q, i as int, sep@),
            old(self).state().order[f] == pid,
        ensures
            final(self).state() == grow::split_leaf(
                old(self).state(),
                f,
                m as int,
                sib,
                q,
                i as int,
                sep@,
            ),
    {
        let ghost s = self.state();
        let ghost end = grow::split_leaf(s, f, m as int, sib, q, i as int, sep@);
        proof {
            grow::split_leaf_apart(s, f, m as int, sib, q, i as int, sep@);
            assert(m <= state::rows_at(s, f).len() && 0 < sib < s.nodes.len() && i < state::kids(
                s,
                q,
            ).len() && 0 <= f < s.order.len() && state::kids(s, q).len() == state::seps(s, q).len()
                + 1) by {
                reveal(grow::can_split_leaf);
            }
        }
        let ghost rows = state::rows_at(s, f);
        let ghost next = s.nodes[pid as int]->right;
        if let Node::Leaf(mut leaf) = self.take_node(pid) {
            assert(scan::rows_view(leaf.rows@) == rows);
            let right: u64 = leaf.right;
            let ghost all = leaf.rows@;
            let moved = leaf.rows.split_off(m);
            assert(scan::rows_view(leaf.rows@) =~= rows.take(m as int));
            assert(scan::rows_view(moved@) =~= rows.skip(m as int));
            leaf.right = sib;
            self.put_node(pid, Node::Leaf(leaf));
            self.put_node(sib, Node::Leaf(Leaf { rows: moved, left: pid, right }));
            if right != 0 {
                self.update_leaf_left_sibling(right, sib);
            }
            let ghost w = self.state();
            assert(w.nodes[q as int] == s.nodes[q as int]);
            if let Node::Inner(mut parent) = self.take_node(q) {
                let ghost sp = parent.separators@;
                assert(node::keys_view(sp) == state::seps(s, q));
                let child_count: usize = parent.children.len();
                assert(i < child_count);
                parent.separators.insert(i, sep);
                parent.children.insert(i + 1, sib);
                assert(node::keys_view(parent.separators@) =~= state::seps(s, q).insert(
                    i as int,
                    sep@,
                ));
                self.put_node(q, Node::Inner(parent));
            }
        }
        proof {
            self.unfold();
        }
        self.spans = Ghost(end.spans);
        self.order = Ghost(end.order);
        proof {
            self.unfold();
            assert(self.state().nodes =~= end.nodes);
        }
    }

    /// Make a leaf know its neighbour to the left.
    pub(crate) fn update_leaf_left_sibling(&mut self, leaf_pid: u64, left_pid: u64)
        requires
            leaf_pid < old(self).state().nodes.len(),
            old(self).state().nodes[leaf_pid as int] is Leaf,
        ensures
            final(self).state() == (State {
                nodes: old(self).state().nodes.update(
                    leaf_pid as int,
                    NodeView::Leaf {
                        rows: old(self).state().nodes[leaf_pid as int]->rows,
                        left: left_pid,
                        right: old(self).state().nodes[leaf_pid as int]->right,
                    },
                ),
                ..old(self).state()
            }),
    {
        let ghost s = self.state();
        if let Node::Leaf(mut leaf) = self.take_node(leaf_pid) {
            leaf.left = left_pid;
            self.put_node(leaf_pid, Node::Leaf(leaf));
            assert(self.state().nodes =~= s.nodes.update(
                leaf_pid as int,
                NodeView::Leaf {
                    rows: s.nodes[leaf_pid as int]->rows,
                    left: left_pid,
                    right: s.nodes[leaf_pid as int]->right,
                },
            ));
        }
    }
}

/// What became of an insertion into a leaf.
pub enum InsertLeafAction {
    ReturnFalse,
    Inserted,
    SplitRequired,
}

/// What became of writing a value into a leaf.
pub enum UpsertLeafAction {
    UpdatedExisting,
    Inserted,
    SplitRequired,
}

/// A row was written to the leaf at index `f`, which has room for it.
pub open spec fn written_in_place(s: State, t: State, f: int, row: RowView) -> bool {
    let rows = placing::with_row(state::rows_at(s, f), row);
    &&& node::rows_len(rows) <= node::LEAF_CAPACITY
    &&& t == change::with_rows(s, f, rows)
    &&& placing::leaves(t) == placing::leaves(s).update(f, rows)
}

/// An entry fits an empty leaf.
pub open spec fn fits_a_leaf(key: Seq<u8>, value: Seq<u8>) -> bool {
    node::SLOT_LEN + key.len() + value.len() <= node::LEAF_CAPACITY
}

impl BTree {
    /// Put an entry at a position of a leaf.
    fn insert_entry(&mut self, pid: u64, pos: usize, key: &[u8], value: &[u8])
        requires
            old(self).wf(),
            state::is_leaf(old(self).state(), pid),
            pos <= state::rows_at(
                old(self).state(),
                state::lo(old(self).state(), pid),
            ).len(),
        ensures
            ({
                let s = old(self).state();
                let f = state::lo(s, pid);
                final(self).state() == change::with_rows(
                    s,
                    f,
                    state::rows_at(s, f).insert(
                        pos as int,
                        RowView { key: key@, value: value@ },
                    ),
                )
            }),
    {
        let ghost s = self.state();
        let ghost f = self.leaf_facts(pid);
        let row = Row { key: bytes::copy_bytes(key), value: bytes::copy_bytes(value) };
        let ghost rows = state::rows_at(s, f);
        if let Node::Leaf(mut leaf) = self.take_node(pid) {
            leaf.rows.insert(pos, row);
            assert(scan::rows_view(leaf.rows@) =~= rows.insert(pos as int, row@));
            self.put_node(pid, Node::Leaf(leaf));
        }
        assert(self.state().nodes =~= change::with_rows(
            s,
            f,
            rows.insert(pos as int, row@),
        ).nodes);
    }

    /// Replace the value at a position of a leaf.
    fn replace_value(&mut self, pid: u64, pos: usize, value: &[u8])
        requires
            old(self).wf(),
            state::is_leaf(old(self).state(), pid),
            pos < state::rows_at(
                old(self).state(),
                state::lo(old(self).state(), pid),
            ).len(),
        ensures
            ({
                let s = old(self).state();
                let f = state::lo(s, pid);
                let rows = state::rows_at(s, f);
                final(self).state() == change::with_rows(
                    s,
                    f,
                    rows.update(
                        pos as int,
                        RowView { key: rows[pos as int].key, value: value@ },
                    ),
                )
            }),
    {
        let ghost s = self.state();
        let ghost f = self.leaf_facts(pid);
        let ghost rows = state::rows_at(s, f);
        let ghost other = RowView { key: rows[pos as int].key, value: value@ };
        if let Node::Leaf(mut leaf) = self.take_node(pid) {
            let row = Row {
                key: bytes::copy_bytes(leaf.rows[pos].key.as_slice()),
                value: bytes::copy_bytes(value),
            };
            assert(rows[pos as int] == leaf.rows@[pos as int]@);
            leaf.rows.set(pos, row);
            assert(scan::rows_view(leaf.rows@) =~= rows.update(pos as int, other));
            self.put_node(pid, Node::Leaf(leaf));
        }
        assert(self.state().nodes =~= change::with_rows(
            s,
            f,
            rows.update(pos as int, other),
        ).nodes);
    }

    /// Insert into the leaf of the key, if there is room.
    fn try_insert_leaf(&mut self, pid: u64, key: &[u8], value: &[u8]) -> (r: InsertLeafAction)
        requires
            old(self).wf(),
            state::is_leaf(old(self).state(), pid),
            contents::is_target(
                old(self).state(),
                key@,
                state::lo(old(self).state(), pid),
            ),
        ensures
            final(self).wf(),
            match r {
                InsertLeafAction::ReturnFalse => {
                    &&& final(self).state() == old(self).state()
                    &&& old(self)@.contains_key(key@)
                },
                InsertLeafAction::Inserted => {
                    &&& !old(self)@.contains_key(key@)
                    &&& final(self)@ == old(self)@.insert(key@, value@)
                    &&& written_in_place(
                        old(self).state(),
                        final(self).state(),
                        state::lo(old(self).state(), pid),
                        RowView { key: key@, value: value@ },
                    )
                },
                InsertLeafAction::SplitRequired => {
                    let s = old(self).state();
                    let rows = state::rows_at(s, state::lo(s, pid));
                    &&& final(self).state() == s
                    &&& !old(self)@.contains_key(key@)
                    &&& !node::can_insert(rows, key@.len() as int, value@.len() as int)
                    &&& node::rows_len(
                        placing::with_row(rows, RowView { key: key@, value: value@ }),
                    ) > node::LEAF_CAPACITY
                },
            },
    {
        let ghost s = self.state();
        let ghost f = self.leaf_facts(pid);
        let ghost rows = state::rows_at(s, f);
        let ghost row = RowView { key: key@, value: value@ };
        proof {
            contents::keys_differ_in(s);
        }
        let (pos, exact, room) = match self.node_at(pid) {
            Node::Leaf(leaf) => {
                let (pos, exact) = leaf.leaf_insert_bound(key);
                (pos, exact, leaf.can_insert_entry(key.len(), value.len()))
            },
            _ => (0, true, false),
        };
        if exact {
            proof {
                contents::row_is_in(s, f, pos as int);
                contents::map_has(contents::rows(s), rows[pos as int]);
            }
            return InsertLeafAction::ReturnFalse;
        }
        proof {
            placing::pos_is(rows, key@, pos as int);
            node::rows_len_insert(rows, pos as int, row);
        }
        if !room {
            proof {
                assert forall|x: RowView| #[trigger]
                    contents::rows(s).contains(x) implies x.key != key@ by {
                    if x.key == key@ {
                        contents::target_holds(s, key@, f, x);
                        contents::key_at_pos(rows, pos as int, x);
                    }
                }
                contents::map_lacks(contents::rows(s), key@);
            }
            return InsertLeafAction::SplitRequired;
        }
        proof {
            contents::insert_ok(s, f, pos as int, row);
        }
        self.insert_entry(pid, pos, key, value);
        proof {
            placing::leaves_with(s, self.state(), f, rows.insert(pos as int, row));
        }
        InsertLeafAction::Inserted
    }

    /// Write a value into the leaf of the key, if there is room.
    fn try_upsert_leaf(&mut self, pid: u64, key: &[u8], value: &[u8]) -> (r: UpsertLeafAction)
        requires
            old(self).wf(),
            state::is_leaf(old(self).state(), pid),
            contents::is_target(
                old(self).state(),
                key@,
                state::lo(old(self).state(), pid),
            ),
            fits_a_leaf(key@, value@),
        ensures
            final(self).wf(),
            match r {
                UpsertLeafAction::UpdatedExisting => {
                    &&& old(self)@.contains_key(key@)
                    &&& final(self)@ == old(self)@.insert(key@, value@)
                    &&& written_in_place(
                        old(self).state(),
                        final(self).state(),
                        state::lo(old(self).state(), pid),
                        RowView { key: key@, value: value@ },
                    )
                },
                UpsertLeafAction::Inserted => {
                    &&& !old(self)@.contains_key(key@)
                    &&& final(self)@ == old(self)@.insert(key@, value@)
                    &&& written_in_place(
                        old(self).state(),
                        final(self).state(),
                        state::lo(old(self).state(), pid),
                        RowView { key: key@, value: value@ },
                    )
                },
                UpsertLeafAction::SplitRequired => {
                    let s = old(self).state();
                    let rows = state::rows_at(s, state::lo(s, pid));
                    &&& final(self).state() == s
                    &&& rows.len() > 0
                    &&& rows.len() == 1 ==> rows[0].key != key@
                    &&& node::rows_len(
                        placing::with_row(rows, RowView { key: key@, value: value@ }),
                    ) > node::LEAF_CAPACITY
                },
            },
    {
        let ghost s = self.state();
        let ghost f = self.leaf_facts(pid);
        let ghost rows = state::rows_at(s, f);
        let ghost row = RowView { key: key@, value: value@ };
        proof {
            contents::keys_differ_in(s);
        }
        let (pos, exact, room) = match self.node_at(pid) {
            Node::Leaf(leaf) => {
                let (pos, exact) = leaf.leaf_insert_bound(key);
                if exact {
                    let old_len: usize = leaf.rows[pos].value.len();
                    proof {
                        room::one_row_fits(rows, pos as int);
                        assert(rows[pos as int] == leaf.rows@[pos as int]@);
                        node::rows_len_remove(rows, pos as int);
                        node::rows_len_nonneg(rows.remove(pos as int));
                        node::rows_len_insert(rows.remove(pos as int), pos as int, row);
                        assert(rows.remove(pos as int).insert(pos as int, row) =~= rows.update(
                            pos as int,
                            row,
                        ));
                        if rows.len() == 1 {
                            assert(rows.remove(pos as int) =~= Seq::<RowView>::empty());
                            assert(node::rows_len(Seq::<RowView>::empty()) == 0);
                        }
                    }
                    let free: usize = leaf.free_space_after_compaction();
                    (pos, true, old_len == value.len() || free + key.len() + old_len >= key.len()
                        + value.len())
                } else {
                    (pos, false, leaf.can_insert_entry(key.len(), value.len()))
                }
            },
            _ => (0, false, false),
        };
        proof {
            placing::pos_is(rows, key@, pos as int);
            if !exact {
                node::rows_len_insert(rows, pos as int, row);
            }
        }
        if !room {
            proof {
                bytes::lex_lt_irreflexive(key@);
                if rows.len() == 0 {
                    assert(node::rows_len(rows) == 0);
                } else if rows.len() == 1 && rows[0].key == key@ {
                    contents::key_at_pos(rows, pos as int, rows[0]);
                }
            }
            return UpsertLeafAction::SplitRequired;
        }
        if exact {
            proof {
                contents::replace_ok(s, f, pos as int, value@);
            }
            self.replace_value(pid, pos, value);
            proof {
                placing::leaves_with(s, self.state(), f, rows.update(pos as int, row));
            }
            return UpsertLeafAction::UpdatedExisting;
        }
        proof {
            contents::insert_ok(s, f, pos as int, row);
        }
        self.insert_entry(pid, pos, key, value);
        proof {
            placing::leaves_with(s, self.state(), f, rows.insert(pos as int, row));
        }
        UpsertLeafAction::Inserted
    }

    /// Split a leaf of two or more rows, so that the leaf of `key` has fewer rows.
    fn split_node(&mut self, pid: u64, path: &mut Vec<u64>, key: &[u8])
        requires
            old(self).wf(),
            state::is_leaf(old(self).state(), pid),
            contents::is_target(
                old(self).state(),
                key@,
                state::lo(old(self).state(), pid),
            ),
            state::rows_at(
                old(self).state(),
                state::lo(old(self).state(), pid),
            ).len() >= 2,
        ensures
            final(self).wf(),
            final(self)@ == old(self)@,
            growth::target_len(final(self).state(), key@) < growth::target_len(old(self).state(), key@),
            ({
                let s = old(self).state();
                let f = state::lo(s, pid);
                was_split(s, final(self).state(), f, placing::cut(state::rows_at(s, f), key@))
            }),
            final(self).state() == growth::split_for(
                old(self).state(),
                state::lo(old(self).state(), pid),
                key@,
            ),
    {
        let ghost s = self.state();
        let ghost f = self.leaf_facts(pid);
        let ghost rows = state::rows_at(s, f);
        let (left_count, sep) = match self.node_at(pid) {
            Node::Leaf(leaf) => {
                let count: usize = leaf.rows.len();
                assert(count == rows.len());
                // Of two rows, both stay where the key is behind them.
                let split_pos: usize = if count == 2 && !bytes::key_less(
                    leaf.rows[1].key.as_slice(),
                    key,
                ) {
                    0
                } else {
                    count / 2
                };
                assert(rows[split_pos as int] == leaf.rows@[split_pos as int]@);
                assert(rows[1] == leaf.rows@[1]@);
                (split_pos + 1, bytes::copy_bytes(leaf.rows[split_pos].key.as_slice()))
            },
            _ => (0, Vec::new()),
        };
        proof {
            let m = left_count as int;
            room::one_row_fits(rows, m - 1);
            assert(node::sorted_rows(rows));
            assert(grow::separates(s, f, m, sep@)) by {
                assert forall|j: int, a: int|
                    #![trigger state::rows_at(s, j)[a]]
                    0 <= j < f && 0 <= a < state::rows_at(s, j).len() implies !bytes::lex_lt(
                    sep@,
                    state::rows_at(s, j)[a].key,
                ) by {
                    assert(bytes::lex_lt(
                        state::rows_at(s, j)[a].key,
                        state::rows_at(s, f)[m - 1].key,
                    ));
                    bytes::lex_lt_asymmetric(state::rows_at(s, j)[a].key, sep@);
                }
                assert forall|a: int|
                    #![trigger state::rows_at(s, f)[a]]
                    0 <= a < m implies !bytes::lex_lt(sep@, state::rows_at(s, f)[a].key) by {
                    bytes::lex_lt_irreflexive(sep@);
                    if a < m - 1 {
                        assert(bytes::lex_lt(rows[a].key, rows[m - 1].key));
                        bytes::lex_lt_asymmetric(rows[a].key, sep@);
                    }
                }
            }
        }
        let _ = self.split_leaf_at(pid, left_count, sep, path);
        proof {
            let t = self.state();
            let m = left_count as int;
            target_after_split(s, t, key@, f, m);
            target_len_is(s, key@, f);
            if contents::all_below(rows.take(m), key@) {
                target_len_is(t, key@, f + 1);
            } else {
                target_len_is(t, key@, f);
                assert(rows.len() == 2 ==> m == 1) by {
                    if rows.len() == 2 && m == 2 {
                        assert(rows.take(m) =~= rows);
                        contents::last_row_decides(rows, key@);
                    }
                }
            }
        }
    }
}

/// A row belongs into an empty leaf whose separator is at or above its key, if it
/// is below the rows of the next leaf.
proof fn belongs_left(s: State, f: int, q: u64, i: int, row: RowView)
    requires
        state::inv(s),
        0 <= f,
        f + 1 < s.order.len(),
        state::rows_at(s, f).len() == 0,
        state::rows_at(s, f + 1).len() > 0,
        bytes::lex_lt(row.key, state::rows_at(s, f + 1)[0].key),
        contents::before(s, row.key, f),
        state::is_inner(s, q),
        0 <= i,
        i + 1 < state::kids(s, q).len(),
        state::kids(s, q)[i] == s.order[f],
        state::kids(s, q)[i + 1] == s.order[f + 1],
        !bytes::lex_lt(state::seps(s, q)[i], row.key),
    ensures
        change::rows_belong(s, f, seq![row]),
{
    let new = seq![row];
    let next = state::rows_at(s, f + 1);
    assert(new[0] == row);
    assert forall|j: int, a: int, b: int|
        #![trigger state::rows_at(s, j)[a], new[b]]
        0 <= j < f && 0 <= a < state::rows_at(s, j).len() && 0 <= b
            < new.len() implies bytes::lex_lt(state::rows_at(s, j)[a].key, new[b].key) by {
        assert(contents::all_below(state::rows_at(s, j), row.key));
    }
    assert forall|j: int, a: int, b: int|
        #![trigger state::rows_at(s, j)[a], new[b]]
        f < j < s.order.len() && 0 <= a < state::rows_at(s, j).len() && 0 <= b
            < new.len() implies bytes::lex_lt(new[b].key, state::rows_at(s, j)[a].key) by {
        let y = state::rows_at(s, j)[a].key;
        if j > f + 1 {
            assert(bytes::lex_lt(state::rows_at(s, f + 1)[0].key, y));
            bytes::lex_lt_transitive(row.key, next[0].key, y);
        } else if a > 0 {
            assert(node::sorted_rows(next));
            assert(bytes::lex_lt(next[0].key, next[a].key));
            bytes::lex_lt_transitive(row.key, next[0].key, y);
        }
    }
    assert(state::node_ok(s, q));
    assert(state::kid_ok(s, q, i));
    assert(state::is_leaf(s, s.order[f]));
    assert(state::node_ok(s, s.order[f]));
    assert forall|p: u64, k: int, b: int|
        #![trigger state::seps(s, p)[k], new[b]]
        state::is_inner(s, p) && 0 <= k < state::seps(s, p).len() && f < state::hi(
            s,
            state::kids(s, p)[k],
        ) && 0 <= b < new.len() implies !bytes::lex_lt(state::seps(s, p)[k], new[b].key) by {
        let sep = state::seps(s, p)[k];
        let c = state::kids(s, p)[k];
        assert(state::node_ok(s, p));
        assert(state::kid_ok(s, p, k));
        assert(state::node_ok(s, c));
        if state::hi(s, c) > f + 1 {
            assert(state::sep_bounds(s, p, k, sep));
            let x = state::rows_at(s, f + 1)[0].key;
            assert(!bytes::lex_lt(sep, x));
            if bytes::lex_lt(sep, row.key) {
                bytes::lex_lt_transitive(sep, row.key, x);
            }
        } else {
            if s.nodes[c as int] is Inner {
                state::no_boundary_inside(s, q, i, c);
            } else {
                assert(s.order[state::lo(s, c)] == c);
                state::parent_is_unique(s, p, k, q, i);
            }
        }
    }
}

impl BTree {
    /// Split a leaf whose one row leaves no room for an entry, and put the entry
    /// into the empty leaf that comes of it.
    fn split_single_entry_leaf(
        &mut self,
        pid: u64,
        path: &mut Vec<u64>,
        key: &[u8],
        value: &[u8],
    )
        requires
            old(self).wf(),
            state::is_leaf(old(self).state(), pid),
            contents::is_target(
                old(self).state(),
                key@,
                state::lo(old(self).state(), pid),
            ),
            ({
                let s = old(self).state();
                let rows = state::rows_at(s, state::lo(s, pid));
                rows.len() == 1 && rows[0].key != key@
            }),
            fits_a_leaf(key@, value@),
        ensures
            final(self).wf(),
            final(self)@ == old(self)@.insert(key@, value@),
            !old(self)@.contains_key(key@),
            was_paired(
                old(self).state(),
                final(self).state(),
                state::lo(old(self).state(), pid),
                (RowView { key: key@, value: value@ }),
            ),
            final(self).state() == growth::paired(
                old(self).state(),
                state::lo(old(self).state(), pid),
                (RowView { key: key@, value: value@ }),
            ),
    {
        let ghost s = self.state();
        let ghost f = self.leaf_facts(pid);
        let ghost rows = state::rows_at(s, f);
        let ghost row = RowView { key: key@, value: value@ };
        let (move_existing_to_right, existing) = match self.node_at(pid) {
            Node::Leaf(leaf) => {
                assert(rows[0] == leaf.rows@[0]@);
                (
                    bytes::key_less(key, leaf.rows[0].key.as_slice()),
                    bytes::copy_bytes(leaf.rows[0].key.as_slice()),
                )
            },
            _ => (false, Vec::new()),
        };
        proof {
            room::one_row_fits(rows, 0);
            bytes::lex_lt_irreflexive(existing@);
            contents::keys_differ_in(s);
            assert forall|x: RowView| #[trigger]
                contents::rows(s).contains(x) implies x.key != key@ by {
                if x.key == key@ {
                    contents::target_holds(s, key@, f, x);
                }
            }
            contents::map_lacks(contents::rows(s), key@);
        }
        if move_existing_to_right {
            proof {
                assert(grow::separates(s, f, 0, key@)) by {
                    assert forall|j: int, a: int|
                        #![trigger state::rows_at(s, j)[a]]
                        0 <= j < f && 0 <= a < state::rows_at(s, j).len() implies !bytes::lex_lt(
                        key@,
                        state::rows_at(s, j)[a].key,
                    ) by {
                        assert(contents::all_below(state::rows_at(s, j), key@));
                        bytes::lex_lt_asymmetric(state::rows_at(s, j)[a].key, key@);
                    }
                }
            }
            let sep = bytes::copy_bytes(key);
            let (sib, q, i) = self.split_leaf_at(pid, 0, sep, path);
            let ghost t = self.state();
            proof {
                assert(state::is_leaf(t, t.order[f]));
                assert(state::rows_at(t, f) =~= Seq::<RowView>::empty());
                assert(state::rows_at(t, f + 1) =~= rows);
                assert forall|j: int| 0 <= j < f implies contents::all_below(
                    #[trigger] state::rows_at(t, j),
                    key@,
                ) by {
                    assert(contents::all_below(state::rows_at(s, j), key@));
                }
                bytes::lex_lt_irreflexive(key@);
                belongs_left(t, f, q, i as int, row);
                assert(state::rows_at(t, f).insert(0, row) =~= seq![row]);
                node::rows_len_one(row);
                contents::rows_of_changed(t, f, seq![row]);
                assert(contents::rows(change::with_rows(t, f, seq![row])) =~= contents::rows(
                    s,
                ).insert(row)) by {
                    assert forall|x: RowView|
                        contents::rows(change::with_rows(t, f, seq![row])).contains(x)
                            <==> contents::rows(s).insert(row).contains(x) by {
                        assert(seq![row].contains(x) <==> x == row) by {
                            assert(seq![row][0] == row);
                        }
                    }
                }
                contents::map_insert(contents::rows(s), row);
            }
            self.insert_entry(pid, 0, key, value);
            proof {
                placing::leaves_with(t, self.state(), f, seq![row]);
            }
        } else {
            proof {
                bytes::lex_lt_total(key@, existing@);
                assert(contents::all_below(rows, key@));
                assert(grow::separates(s, f, 1, existing@)) by {
                    assert forall|j: int, a: int|
                        #![trigger state::rows_at(s, j)[a]]
                        0 <= j < f && 0 <= a < state::rows_at(s, j).len() implies !bytes::lex_lt(
                        existing@,
                        state::rows_at(s, j)[a].key,
                    ) by {
                        assert(bytes::lex_lt(
                            state::rows_at(s, j)[a].key,
                            state::rows_at(s, f)[0].key,
                        ));
                        bytes::lex_lt_asymmetric(state::rows_at(s, j)[a].key, existing@);
                    }
                }
            }
            let (sib, _, _) = self.split_leaf_at(pid, 1, existing, path);
            let ghost t = self.state();
            proof {
                assert(rows.take(1) =~= rows);
                target_after_split(s, t, key@, f, 1);
                assert(state::is_leaf(t, t.order[f + 1]));
                assert(state::rows_at(t, f + 1) =~= Seq::<RowView>::empty());
                assert(node::rows_len(Seq::<RowView>::empty()) == 0);
                contents::insert_ok(t, f + 1, 0, row);
            }
            self.insert_entry(sib, 0, key, value);
            proof {
                assert(Seq::<RowView>::empty().insert(0, row) =~= seq![row]);
                placing::leaves_with(t, self.state(), f + 1, seq![row]);
            }
        }
    }

    /// Insert a new key; nothing happens if it is there. Whether it was new.
    pub fn insert(&mut self, key: &[u8], value: &[u8]) -> (r: bool)
        requires
            old(self).wf(),
            fits_a_leaf(key@, value@),
        ensures
            final(self).wf(),
            r == !old(self)@.contains_key(key@),
            final(self)@ == if r {
                old(self)@.insert(key@, value@)
            } else {
                old(self)@
            },
            final(self).state() == if r {
                growth::written(old(self).state(), (RowView { key: key@, value: value@ }))
            } else {
                old(self).state()
            },
            r ==> placing::leaves(final(self).state()) == placing::grown(
                placing::leaves(old(self).state()),
                contents::target(old(self).state(), key@),
                (RowView { key: key@, value: value@ }),
            ),
    {
        let ghost row = RowView { key: key@, value: value@ };
        let ghost goal = placing::grown(
            placing::leaves(self.state()),
            contents::target(self.state(), key@),
            row,
        );
        loop
            invariant
                self.wf(),
                self@ == old(self)@,
                fits_a_leaf(key@, value@),
                row == (RowView { key: key@, value: value@ }),
                old(self)@.contains_key(key@) ==> self.state() == old(self).state(),
                goal == placing::grown(
                    placing::leaves(old(self).state()),
                    contents::target(old(self).state(), key@),
                    row,
                ),
                goal == placing::grown(
                    placing::leaves(self.state()),
                    contents::target(self.state(), key@),
                    row,
                ),
                growth::written(self.state(), row) == growth::written(old(self).state(), row),
            decreases growth::target_len(self.state(), key@),
        {
            let leaf: u64 = self.find_leaf(key);
            let ghost s = self.state();
            let ghost f = state::lo(s, leaf);
            proof {
                contents::target_is_unique(s, key@, f, contents::target(s, key@));
                assert(placing::leaves(s)[f] == state::rows_at(s, f));
            }
            match self.try_insert_leaf(leaf, key, value) {
                InsertLeafAction::ReturnFalse => {
                    return false;
                },
                InsertLeafAction::Inserted => {
                    proof {
                        placing::grown_in_place(placing::leaves(s), f, row);
                    }
                    return true;
                },
                InsertLeafAction::SplitRequired => {},
            }
            let (mut path, _) = self.find_leaf_with_path(key);
            proof {
                self.leaf_facts(leaf);
                let rows = state::rows_at(s, f);
                if rows.len() == 0 {
                    assert(node::rows_len(rows) == 0);
                } else if rows.len() == 1 {
                    contents::keys_differ_in(s);
                    contents::row_is_in(s, f, 0);
                    contents::map_has(contents::rows(s), rows[0]);
                }
            }
            if self.row_count(leaf) < 2 {
                self.split_single_entry_leaf(leaf, &mut path, key, value);
                proof {
                    grown_to_pair(s, self.state(), f, row);
                }
                return true;
            }
            self.split_node(leaf, &mut path, key);
            proof {
                grown_after_split(s, self.state(), f, row);
            }
        }
    }

    /// Give a key a value. Whether the key is new.
    pub fn upsert(&mut self, key: &[u8], value: &[u8]) -> (r: bool)
        requires
            old(self).wf(),
            fits_a_leaf(key@, value@),
        ensures
            final(self).wf(),
            r == !old(self)@.contains_key(key@),
            final(self)@ == old(self)@.insert(key@, value@),
            final(self).state() == growth::written(
                old(self).state(),
                (RowView { key: key@, value: value@ }),
            ),
            placing::leaves(final(self).state()) == placing::grown(
                placing::leaves(old(self).state()),
                contents::target(old(self).state(), key@),
                (RowView { key: key@, value: value@ }),
            ),
    {
        let ghost row = RowView { key: key@, value: value@ };
        let ghost goal = placing::grown(
            placing::leaves(self.state()),
            contents::target(self.state(), key@),
            row,
        );
        loop
            invariant
                self.wf(),
                self@ == old(self)@,
                fits_a_leaf(key@, value@),
                row == (RowView { key: key@, value: value@ }),
                goal == placing::grown(
                    placing::leaves(old(self).state()),
                    contents::target(old(self).state(), key@),
                    row,
                ),
                goal == placing::grown(
                    placing::leaves(self.state()),
                    contents::target(self.state(), key@),
                    row,
                ),
                growth::written(self.state(), row) == growth::written(old(self).state(), row),
            decreases growth::target_len(self.state(), key@),
        {
            let leaf: u64 = self.find_leaf(key);
            let ghost s = self.state();
            let ghost f = state::lo(s, leaf);
            proof {
                contents::target_is_unique(s, key@, f, contents::target(s, key@));
                assert(placing::leaves(s)[f] == state::rows_at(s, f));
            }
            match self.try_upsert_leaf(leaf, key, value) {
                UpsertLeafAction::UpdatedExisting => {
                    proof {
                        placing::grown_in_place(placing::leaves(s), f, row);
                    }
                    return false;
                },
                UpsertLeafAction::Inserted => {
                    proof {
                        placing::grown_in_place(placing::leaves(s), f, row);
                    }
                    return true;
                },
                UpsertLeafAction::SplitRequired => {},
            }
            let (mut path, _) = self.find_leaf_with_path(key);
            proof {
                self.leaf_facts(leaf);
            }
            if self.row_count(leaf) < 2 {
                self.split_single_entry_leaf(leaf, &mut path, key, value);
                proof {
                    grown_to_pair(s, self.state(), f, row);
                }
                return true;
            }
            self.split_node(leaf, &mut path, key);
            proof {
                grown_after_split(s, self.state(), f, row);
            }
        }
    }

    pub(crate) fn row_count(&self, pid: u64) -> (r: usize)
        requires
            self.wf(),
            state::is_leaf(self.state(), pid),
        ensures
            r == state::rows_at(self.state(), state::lo(self.state(), pid)).len(),
    {
        proof {
            let f = self.leaf_facts(pid);
        }
        match self.node_at(pid) {
            Node::Leaf(leaf) => leaf.rows.len(),
            _ => 0,
        }
    }
}

} // verus!
