//! Which messages a page can take, and when.
use vstd::prelude::*;

use crate::betree::append;
use crate::betree::layout;
use crate::betree::layout_laws;
use crate::betree::leaf_append;
use crate::betree::message;
use crate::betree::message::{MessageView, VersionView};
use crate::betree::node;
use crate::betree::node::{CowBeTreeError, EntryView, FenceView, NodeView};
use crate::betree::pool;
use crate::betree::pool::PoolView;
use crate::betree::rewrite;
use crate::betree::shape;
use crate::betree::shape::TreeView;
use crate::bytes;
use crate::page_id::PAGE_SIZE;

verus! {

broadcast use bytes::group_le;

/// The message is no longer, as an entry of a leaf, than a page.
pub open spec fn is_short(m: MessageView) -> bool {
    leaf_append::single_len(m) <= PAGE_SIZE
}

/// The length of the message and that of some pages together is a machine word.
pub open spec fn is_sized(m: MessageView) -> bool {
    leaf_append::single_len(m) + 4 * PAGE_SIZE <= usize::MAX
}

/// Why a node refuses a message that it is asked for room for: it is a leaf with
/// all keys below that of the message, which the format cannot hold.
pub open spec fn refusal(n: NodeView, m: MessageView) -> Option<CowBeTreeError> {
    match n {
        NodeView::Leaf { fence, entries } => if leaf_append::appendable(fence, entries, m.key) {
            leaf_append::entry_len_error(m)
        } else {
            None
        },
        NodeView::Internal { .. } => None,
    }
}

/// Asking a page for room for an entry fails only with a refusal.
pub proof fn leaf_answers(page: Seq<u8>, m: MessageView, max_leaf_entries: int)
    requires
        layout::parse_page(page) is Ok,
        page.len() == PAGE_SIZE,
        is_sized(m),
    ensures
        ({
            let plan = leaf_append::batch_plan(page, seq![m], max_leaf_entries);
            match refusal(layout::parse_page(page)->Ok_0, m) {
                Some(e) => plan is Err && plan->Err_0 == e,
                None => plan is Ok,
            }
        }),
{
    let ms = seq![m];
    leaf_append::leaf_layout_of_node(page, m.key);
    layout_laws::read_page_is_canonical(page);
    assert(ms.last() == m);
    assert(ms.take(0) =~= Seq::<MessageView>::empty());
    assert(leaf_append::batch_bytes(ms, 1, leaf_append::single_len(m)) == Ok::<_, CowBeTreeError>(
        Some(leaf_append::single_len(m)),
    ));
    assert(leaf_append::batch_bytes(ms, 0, 0) == match leaf_append::entry_len_error(m) {
        None => Ok::<_, CowBeTreeError>(Some(leaf_append::single_len(m))),
        Some(e) => Err(e),
    });
    assert(ms.drop_last() =~= Seq::<MessageView>::empty());
    assert(leaf_append::single_entries(ms.drop_last()) =~= Seq::<EntryView>::empty());
    leaf_append::enc_singles_push(ms.drop_last(), m);
    assert(ms.drop_last().push(m) =~= ms);
}

/// A message with a key above all keys of a leaf becomes an entry behind them.
pub proof fn entry_behind(entries: Seq<EntryView>, m: MessageView)
    requires
        node::sorted_entries(entries),
        entries.len() == 0 || bytes::lex_lt(entries.last().key, m.key),
    ensures
        node::apply_message(entries, m) == entries.push(leaf_append::single_entry(m)),
{
    let n = entries.len() as int;
    assert forall|i: int| 0 <= i < n implies bytes::lex_lt(#[trigger] entries[i].key, m.key) by {
        if i < n - 1 {
            bytes::lex_lt_transitive(entries[i].key, entries[n - 1].key, m.key);
        }
    }
    node::lower_bound_is(entries, m.key, n);
    assert(node::apply_message(entries, m) =~= entries.push(leaf_append::single_entry(m)));
}

/// A leaf page has room behind its entries for a message with a key above
/// them, if the leaf is not split by it.
pub proof fn leaf_answers_yes(
    page: Seq<u8>,
    fence: FenceView,
    entries: Seq<EntryView>,
    m: MessageView,
    max_leaf_entries: usize,
)
    requires
        layout::parse_page(page) == Ok::<_, CowBeTreeError>(NodeView::Leaf { fence, entries }),
        page.len() == PAGE_SIZE,
        is_sized(m),
        leaf_append::entry_len_error(m) is None,
        node::sorted_entries(entries),
        leaf_append::appendable(fence, entries, m.key),
        !rewrite::leaf_splits(max_leaf_entries, fence, node::apply_message(entries, m)),
    ensures
        leaf_append::batch_plan(page, seq![m], max_leaf_entries as int) matches Ok(Some(_)),
{
    let ms = seq![m];
    leaf_answers(page, m, max_leaf_entries as int);
    leaf_append::leaf_layout_of_node(page, m.key);
    layout_laws::read_page_is_canonical(page);
    let es2 = node::apply_message(entries, m);
    let one = leaf_append::single_entry(m);
    entry_behind(entries, m);
    layout::flat_push(entries, one, |e: EntryView| layout::enc_entry(e));
    leaf_append::enc_single_len(m);
    assert(ms.last() == m);
    assert(leaf_append::batch_bytes(ms, 1, leaf_append::single_len(m)) == Ok::<_, CowBeTreeError>(
        Some(leaf_append::single_len(m)),
    ));
    assert(leaf_append::batch_bytes(ms, 0, 0) == Ok::<_, CowBeTreeError>(
        Some(leaf_append::single_len(m)),
    ));
    layout::flat_fixed(
        layout::entry_offsets(layout::leaf_base(fence), es2),
        |o: u32| bytes::le32(o),
        4,
    );
    assert(layout::node_body(NodeView::Leaf { fence, entries: es2 }).len()
        == layout::leaf_base(fence) + layout::enc_entries(es2).len() + 4 * es2.len());
}

/// A message is at least fifteen bytes long.
pub proof fn messages_are_long(ms: Seq<MessageView>)
    ensures
        message::messages_len(ms) >= 15 * ms.len(),
    decreases ms.len(),
{
    if ms.len() > 0 {
        messages_are_long(ms.drop_last());
    }
}

/// Asking an internal page for room for a message does not fail.
pub proof fn buffer_answers(
    page: Seq<u8>,
    m: MessageView,
    flush_messages: int,
    flush_bytes: int,
    max_children: int,
)
    requires
        layout::parse_page(page) is Ok,
        page.len() == PAGE_SIZE,
        is_sized(m),
    ensures
        append::buffer_append_plan(page, m, flush_messages, flush_bytes, max_children, false) is Ok,
{
    append::buffer_layout_of_node(page);
    match layout::parse_page(page)->Ok_0 {
        NodeView::Leaf { .. } => {},
        NodeView::Internal { fence, children, separators, buffer } => {
            messages_are_long(buffer);
            append::enc_messages_len(buffer);
            let body = layout::internal_body(fence, children, separators, buffer);
            assert(body.len() >= message::messages_len(buffer));
        },
    }
}

/// What stands on the pages of a tree is short.
pub proof fn records_are_short(s: PoolView, t: TreeView, m: MessageView)
    requires
        pool::pool_ok(s),
        shape::rep(s.pages, t),
        shape::has_rec(t, m),
    ensures
        is_short(m),
    decreases t,
{
    let page = s.pages[shape::pid_of(t) as int];
    layout_laws::read_page_is_canonical(page);
    match t {
        TreeView::Leaf { fence, entries, .. } => {
            let i = choose|i: int|
                #![trigger entries[i]]
                0 <= i < entries.len() && entries[i].key == m.key && entries[i].versions.contains(
                    m.version,
                );
            let e = entries[i];
            let j = choose|j: int| 0 <= j < e.versions.len() && e.versions[j] == m.version;
            layout::flat_split(entries, i, |e: EntryView| layout::enc_entry(e));
            layout::flat_split(e.versions, j, |v: VersionView| layout::enc_version(v));
            assert(layout::enc_version(m.version).len() == 13 + m.version.value.len());
            assert(layout::enc_entry(e).len() >= leaf_append::single_len(m));
            assert(layout::leaf_body(fence, entries).len() >= layout::enc_entries(entries).len());
        },
        TreeView::Node { fence, separators, buffer, kids, .. } => {
            if buffer.contains(m) {
                let i = choose|i: int| 0 <= i < buffer.len() && buffer[i] == m;
                layout::flat_split(buffer, i, |m: MessageView| layout::enc_message(m));
                assert(layout::enc_message(m).len() == message::message_len(m));
                assert(layout::internal_body(
                    fence,
                    shape::pids_of(kids),
                    separators,
                    buffer,
                ).len() >= layout::enc_messages(buffer).len() + 2);
            } else {
                let i = choose|i: int| 0 <= i < kids.len() && shape::has_rec(#[trigger] kids[i], m);
                records_are_short(s, kids[i], m);
            }
        },
    }
}

} // verus!
