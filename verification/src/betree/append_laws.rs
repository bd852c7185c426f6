//! When an append in place is made: all of it, or nothing.
use vstd::prelude::*;

use crate::betree::append;
use crate::betree::layout;
use crate::betree::layout_laws;
use crate::betree::leaf_append;
use crate::betree::message;
use crate::betree::message::MessageView;
use crate::betree::node::{CowBeTreeError, EntryView, FenceView, NodeView};
use crate::betree::takes;
use crate::bytes;
use crate::page_id::PAGE_SIZE;

verus! {

broadcast use bytes::group_le;

/// The keys of the messages ascend from message `i` on.
pub open spec fn ascending_from(ms: Seq<MessageView>, i: int) -> bool {
    forall|j: int|
        0 < j && i <= j < ms.len() ==> bytes::lex_lt(ms[j - 1].key, (#[trigger] ms[j]).key)
}

/// A batch can be appended to a leaf on a page of `page_len` bytes: there is
/// something to append, its keys ascend above the last key of the leaf and inside
/// its fence, the leaf may have so many entries, and there is room for them.
pub open spec fn batch_goes(
    page_len: int,
    fence: FenceView,
    entries: Seq<EntryView>,
    ms: Seq<MessageView>,
    max_leaf_entries: int,
) -> bool {
    &&& ms.len() > 0
    &&& ascending_from(ms, 0)
    &&& forall|j: int|
        0 <= j < ms.len() ==> leaf_append::appendable(fence, entries, (#[trigger] ms[j]).key)
    &&& entries.len() + ms.len() <= max_leaf_entries
    &&& layout::HEADER_SIZE + layout::leaf_body(
        fence,
        entries + leaf_append::single_entries(ms),
    ).len() <= page_len
}

/// The bytes of a batch are counted exactly where its keys ascend.
proof fn batch_is_counted(ms: Seq<MessageView>, i: int)
    requires
        0 <= i <= ms.len(),
        forall|j: int| 0 <= j < ms.len() ==> leaf_append::entry_len_error(#[trigger] ms[j]) is None,
        leaf_append::enc_singles(ms).len() <= usize::MAX,
    ensures
        leaf_append::batch_bytes(ms, i, leaf_append::enc_singles(ms.take(i)).len() as int) == Ok::<
            _,
            CowBeTreeError,
        >(
            if ascending_from(ms, i) {
                Some(leaf_append::enc_singles(ms).len() as int)
            } else {
                None
            },
        ),
    decreases ms.len() - i,
{
    if i == ms.len() {
        assert(ms.take(i) =~= ms);
    } else {
        let f = |e: EntryView| layout::enc_entry(e);
        let front = leaf_append::single_entries(ms.take(i + 1));
        let back = leaf_append::single_entries(ms.skip(i + 1));
        layout::flat_add(front, back, f);
        assert(front + back =~= leaf_append::single_entries(ms));
        leaf_append::enc_singles_push(ms.take(i), ms[i]);
        assert(ms.take(i).push(ms[i]) =~= ms.take(i + 1));
        assert(leaf_append::entry_len_error(ms[i]) is None);
        batch_is_counted(ms, i + 1);
        if i > 0 && !bytes::lex_lt(ms[i - 1].key, ms[i].key) {
            assert(!ascending_from(ms, i));
        } else {
            assert(ascending_from(ms, i) == ascending_from(ms, i + 1)) by {
                if ascending_from(ms, i + 1) {
                    assert forall|j: int| 0 < j && i <= j < ms.len() implies bytes::lex_lt(
                        ms[j - 1].key,
                        (#[trigger] ms[j]).key,
                    ) by {}
                }
            }
        }
    }
}

/// Every key of a batch is behind a leaf, if the first and the last are.
proof fn all_are_behind(fence: FenceView, entries: Seq<EntryView>, ms: Seq<MessageView>)
    requires
        ms.len() > 0,
        ascending_from(ms, 0),
        leaf_append::appendable(fence, entries, ms[0].key),
        leaf_append::appendable(fence, entries, ms.last().key),
    ensures
        forall|j: int|
            0 <= j < ms.len() ==> leaf_append::appendable(fence, entries, (#[trigger] ms[j]).key),
{
    assert forall|j: int| 0 <= j < ms.len() implies leaf_append::appendable(
        fence,
        entries,
        (#[trigger] ms[j]).key,
    ) by {
        leaf_append::between_in_fence(fence, ms, j);
        if j > 0 {
            leaf_append::ascending_messages(ms, 0, j);
            if entries.len() > 0 {
                bytes::lex_lt_transitive(entries.last().key, ms[0].key, ms[j].key);
            }
        }
    }
}

/// The length of a batch as entries, together with a page, is a machine word.
pub open spec fn batch_is_sized(ms: Seq<MessageView>) -> bool {
    leaf_append::enc_singles(ms).len() + 4 * ms.len() + PAGE_SIZE <= usize::MAX
}

/// How long the body of a leaf is with a batch behind its entries.
proof fn batch_adds_its_length(fence: FenceView, entries: Seq<EntryView>, ms: Seq<MessageView>)
    ensures
        layout::leaf_body(fence, entries + leaf_append::single_entries(ms)).len()
            == leaf_append::node_layout(fence, entries).dir + leaf_append::enc_singles(ms).len() + 4
            * (entries.len() + ms.len()),
        leaf_append::node_layout(fence, entries).dir >= 0,
{
    let es2 = entries + leaf_append::single_entries(ms);
    layout::flat_add(
        entries,
        leaf_append::single_entries(ms),
        |e: EntryView| layout::enc_entry(e),
    );
    layout::flat_fixed(
        layout::entry_offsets(layout::leaf_base(fence), es2),
        |o: u32| bytes::le32(o),
        4,
    );
}

/// The law below, of a batch whose length is a machine word.
proof fn sized_batch_is_appended(
    page: Seq<u8>,
    ms: Seq<MessageView>,
    max_leaf_entries: int,
)
    requires
        layout::parse_page(page) is Ok,
        layout::parse_page(page)->Ok_0 is Leaf,
        page.len() <= PAGE_SIZE,
        forall|j: int| 0 <= j < ms.len() ==> leaf_append::entry_len_error(#[trigger] ms[j]) is None,
        batch_is_sized(ms),
    ensures
        layout::parse_page(page)->Ok_0 matches NodeView::Leaf { fence, entries } && {
            let goes = batch_goes(page.len() as int, fence, entries, ms, max_leaf_entries);
            match leaf_append::batch_plan(page, ms, max_leaf_entries) {
                Ok(Some(l)) => {
                    &&& goes
                    &&& leaf_append::leaf_append_result(l, ms).message_count == ms.len()
                    &&& layout::parse_page(leaf_append::leaf_appended(page, l, ms)) == Ok::<
                        _,
                        CowBeTreeError,
                    >(
                        NodeView::Leaf {
                            fence,
                            entries: entries + leaf_append::single_entries(ms),
                        },
                    )
                },
                Ok(None) => !goes,
                Err(_) => false,
            }
        },
{
    if ms.len() > 0 {
        let fence = layout::parse_page(page)->Ok_0->Leaf_fence;
        let entries = layout::parse_page(page)->Ok_0->entries;
        let l = leaf_append::node_layout(fence, entries);
        leaf_append::leaf_layout_of_node(page, ms[0].key);
        leaf_append::leaf_layout_of_node(page, ms.last().key);
        layout_laws::read_page_is_canonical(page);
        layout_laws::leaf_written(fence, entries);
        assert(ms.take(0) =~= Seq::<MessageView>::empty());
        assert(leaf_append::single_entries(ms.take(0)) =~= Seq::<EntryView>::empty());
        batch_is_counted(ms, 0);
        batch_adds_its_length(fence, entries, ms);
        layout::flat_fixed(
            layout::entry_offsets(layout::leaf_base(fence), entries),
            |o: u32| bytes::le32(o),
            4,
        );
        assert(layout::leaf_body(fence, entries).len() == l.dir + 4 * entries.len());
        if ascending_from(ms, 0) && leaf_append::appendable(fence, entries, ms[0].key)
            && leaf_append::appendable(fence, entries, ms.last().key) {
            all_are_behind(fence, entries, ms);
        }
        leaf_append::enc_singles_push(ms.drop_last(), ms.last());
        assert(ms.drop_last().push(ms.last()) =~= ms);
        if leaf_append::batch_plan(page, ms, max_leaf_entries) matches Ok(Some(_)) {
            leaf_append::batch_append_pushes(page, ms, max_leaf_entries);
        }
    }
}

/// An append of a batch to a page that holds a leaf is all or nothing: where
/// [`batch_goes`], the page then holds the leaf with every message as an entry
/// behind its entries, and elsewhere it is left alone. The format can hold each of
/// the messages. An error comes only where the batch is too long for a machine word.
pub proof fn batch_is_appended_whole_or_not_at_all(
    page: Seq<u8>,
    ms: Seq<MessageView>,
    max_leaf_entries: int,
)
    requires
        layout::parse_page(page) is Ok,
        layout::parse_page(page)->Ok_0 is Leaf,
        page.len() <= PAGE_SIZE,
        forall|j: int| 0 <= j < ms.len() ==> leaf_append::entry_len_error(#[trigger] ms[j]) is None,
    ensures
        layout::parse_page(page)->Ok_0 matches NodeView::Leaf { fence, entries } && {
            let goes = batch_goes(page.len() as int, fence, entries, ms, max_leaf_entries);
            match leaf_append::batch_plan(page, ms, max_leaf_entries) {
                Ok(Some(l)) => {
                    &&& goes
                    &&& leaf_append::leaf_append_result(l, ms).message_count == ms.len()
                    &&& layout::parse_page(leaf_append::leaf_appended(page, l, ms)) == Ok::<
                        _,
                        CowBeTreeError,
                    >(
                        NodeView::Leaf {
                            fence,
                            entries: entries + leaf_append::single_entries(ms),
                        },
                    )
                },
                Ok(None) => !goes,
                Err(_) => !goes && !batch_is_sized(ms),
            }
        },
{
    let fence = layout::parse_page(page)->Ok_0->Leaf_fence;
    let entries = layout::parse_page(page)->Ok_0->entries;
    if batch_is_sized(ms) {
        sized_batch_is_appended(page, ms, max_leaf_entries);
    } else {
        batch_adds_its_length(fence, entries, ms);
        if let Ok(Some(l)) = leaf_append::batch_plan(page, ms, max_leaf_entries) {
            leaf_append::leaf_layout_of_node(page, ms[0].key);
            leaf_append::batch_append_pushes(page, ms, max_leaf_entries);
            layout_laws::read_page_is_canonical(leaf_append::leaf_appended(page, l, ms));
        }
    }
}

/// A message can be appended to the buffer of a node on a page of `page_len` bytes:
/// the node has no more children than it may, the buffer stays below what makes it
/// be flushed, and there is room.
pub open spec fn message_goes(
    page_len: int,
    n: NodeView,
    m: MessageView,
    flush_messages: int,
    flush_bytes: int,
    max_children: int,
) -> bool {
    n matches NodeView::Internal { fence, children, separators, buffer } && {
        &&& children.len() <= max_children
        &&& buffer.len() + 1 < flush_messages
        &&& message::messages_len(buffer) + message::message_len(m) < flush_bytes
        &&& layout::HEADER_SIZE + layout::internal_body(
            fence,
            children,
            separators,
            buffer.push(m),
        ).len() <= page_len
    }
}

/// An append of a message to the buffer of a page that holds an internal node is
/// made exactly where [`message_goes`], whatever the order of the keys: the page then
/// holds the node with the message behind its buffer, and elsewhere it is left alone.
/// An error comes only where the length of the message together with some pages is no
/// machine word.
pub proof fn message_is_appended_or_not(
    page: Seq<u8>,
    m: MessageView,
    flush_messages: int,
    flush_bytes: int,
    max_children: int,
)
    requires
        layout::parse_page(page) is Ok,
        layout::parse_page(page)->Ok_0 is Internal,
        page.len() <= PAGE_SIZE,
    ensures
        layout::parse_page(page)->Ok_0 matches NodeView::Internal {
            fence,
            children,
            separators,
            buffer,
        } && {
            let goes = message_goes(
                page.len() as int,
                layout::parse_page(page)->Ok_0,
                m,
                flush_messages,
                flush_bytes,
                max_children,
            );
            match append::buffer_append_plan(
                page,
                m,
                flush_messages,
                flush_bytes,
                max_children,
                false,
            ) {
                Ok(Some(l)) => goes && layout::parse_page(append::buffer_appended(page, l, m))
                    == Ok::<_, CowBeTreeError>(
                    NodeView::Internal { fence, children, separators, buffer: buffer.push(m) },
                ),
                Ok(None) => !goes,
                Err(_) => !goes && message::message_len(m) + 2 * PAGE_SIZE > usize::MAX,
            }
        },
{
    append::buffer_layout_of_node(page);
    layout_laws::read_page_is_canonical(page);
    match layout::parse_page(page)->Ok_0 {
        NodeView::Leaf { .. } => {},
        NodeView::Internal { fence, children, separators, buffer } => {
            let body = layout::internal_body(fence, children, separators, buffer);
            append::enc_messages_len(buffer);
            append::enc_message_len(m);
            layout::flat_push(buffer, m, |x: MessageView| layout::enc_message(x));
            assert(layout::internal_body(fence, children, separators, buffer.push(m)).len()
                == body.len() + message::message_len(m));
            assert(body.len() >= message::messages_len(buffer));
            takes::messages_are_long(buffer);
        },
    }
    if let Ok(Some(l)) = append::buffer_append_plan(
        page,
        m,
        flush_messages,
        flush_bytes,
        max_children,
        false,
    ) {
        append::buffer_append_pushes(page, m, flush_messages, flush_bytes, max_children, false);
        layout_laws::read_page_is_canonical(append::buffer_appended(page, l, m));
    }
}

} // verus!
