//! Appending to a page in place: a message to an internal page's buffer, new
//! entries behind the last entry of a leaf. A page changes only where the append
//! is made; where it is declined or fails, the page is left alone.
use vstd::prelude::*;

use crate::betree::layout;
use crate::betree::layout_laws;
use crate::betree::message;
use crate::betree::message::{BufferedMessage, MessageView};
use crate::betree::node;
use crate::betree::node::{CowBeTreeError, FenceView, NodeView, PageKind};
use crate::betree::reader;
use crate::betree::writer;
use crate::betree::writer::BodyWriter;
use crate::bytes;

verus! {

broadcast use bytes::group_le;

// ---------------------------------------------------------------------------
// Internal pages.

/// An append to a buffer.
#[derive(Clone, Copy, Debug, PartialEq, Eq, Structural)]
pub struct InternalBufferAppend {
    pub buffer_count: usize,
    pub body_len: usize,
    pub message_len: usize,
}

/// Where the buffer of an internal page lies.
#[derive(Clone, Copy)]
pub struct InternalBufferLayout {
    pub child_count: usize,
    pub buffer_count: usize,
    pub buffer_count_offset: usize,
    pub body_len: usize,
    pub buffer_len: usize,
}

/// Where the buffer of an internal page lies; `None` for a leaf.
pub open spec fn buffer_layout(page: Seq<u8>) -> Result<
    Option<InternalBufferLayout>,
    CowBeTreeError,
> {
    match layout::p_page(page) {
        Err(e) => Err(e),
        Ok((kind, body)) => if kind is Leaf {
            Ok(None)
        } else {
            match layout::p_fence(body, 0) {
                Err(e) => Err(e),
                Ok((_, p0)) => match layout::p_internal_header(body, p0) {
                    Err(e) => Err(e),
                    Ok((nc, ns, nb, p1)) => match layout::p_exact(body, p1, 8 * nc) {
                        Err(e) => Err(e),
                        Ok((_, p2)) => match layout::p_keys(body, p2, ns as nat) {
                            Err(e) => Err(e),
                            Ok((_, p3)) => match layout::p_messages(body, p3, nb as nat) {
                                Err(e) => Err(e),
                                Ok((_, p4)) => if p4 != body.len() {
                                    layout::corrupt("internal buffer length mismatch")
                                } else {
                                    Ok(
                                        Some(
                                            InternalBufferLayout {
                                                child_count: nc as usize,
                                                buffer_count: nb as usize,
                                                buffer_count_offset: (p0 + 4) as usize,
                                                body_len: body.len() as usize,
                                                buffer_len: (body.len() - p3) as usize,
                                            },
                                        ),
                                    )
                                },
                            },
                        },
                    },
                },
            }
        },
    }
}

/// Whether and where `m` is appended to the buffer of a page. With `early`, a
/// message too large for the format is refused before the thresholds are asked.
pub open spec fn buffer_append_plan(
    page: Seq<u8>,
    m: MessageView,
    flush_messages: int,
    flush_bytes: int,
    max_children: int,
    early: bool,
) -> Result<Option<InternalBufferLayout>, CowBeTreeError> {
    match buffer_layout(page) {
        Err(e) => Err(e),
        Ok(None) => Ok(None),
        Ok(Some(l)) => {
            let len = message::clamp_usize(message::message_len(m));
            if l.child_count > max_children {
                Ok(None)
            } else if early && writer::message_error(m) is Some {
                Err(writer::message_error(m)->0)
            } else if l.buffer_len + len > usize::MAX {
                layout::corrupt("internal buffer byte length overflow")
            } else if l.buffer_count + 1 >= flush_messages || l.buffer_len + len >= flush_bytes {
                Ok(None)
            } else if l.body_len + len > usize::MAX {
                layout::corrupt("internal body length overflow")
            } else if layout::HEADER_SIZE + l.body_len + len > page.len() {
                Ok(None)
            } else if writer::message_error(m) is Some {
                Err(writer::message_error(m)->0)
            } else if l.body_len + len > u32::MAX {
                layout::corrupt("internal page body too large")
            } else if l.buffer_count + 1 > u16::MAX {
                layout::corrupt("too many buffered messages")
            } else {
                Ok(Some(l))
            }
        },
    }
}

/// A page after `m` was appended to its buffer.
pub open spec fn buffer_appended(page: Seq<u8>, l: InternalBufferLayout, m: MessageView) -> Seq<
    u8,
> {
    let p1 = bytes::patch(page, layout::HEADER_SIZE + l.body_len, layout::enc_message(m));
    let p2 = bytes::patch(
        p1,
        layout::BODY_LEN_OFF as int,
        bytes::le32((l.body_len + message::message_len(m)) as u32),
    );
    bytes::patch(
        p2,
        layout::HEADER_SIZE + l.buffer_count_offset,
        bytes::le16((l.buffer_count + 1) as u16),
    )
}

pub open spec fn buffer_append_result(l: InternalBufferLayout, m: MessageView) -> InternalBufferAppend {
    InternalBufferAppend {
        buffer_count: (l.buffer_count + 1) as usize,
        body_len: (l.body_len + message::message_len(m)) as usize,
        message_len: message::message_len(m) as usize,
    }
}

pub proof fn enc_message_len(m: MessageView)
    ensures
        layout::enc_message(m).len() == message::message_len(m),
{
}

pub proof fn enc_messages_len(ms: Seq<MessageView>)
    ensures
        layout::enc_messages(ms).len() == message::messages_len(ms),
    decreases ms.len(),
{
    if ms.len() > 0 {
        enc_messages_len(ms.drop_last());
        assert(ms.drop_last().push(ms.last()) =~= ms);
        layout::flat_push(ms.drop_last(), ms.last(), |m: MessageView| layout::enc_message(m));
    }
}

/// The buffer layout of a page that holds an internal node.
pub proof fn buffer_layout_of_node(page: Seq<u8>)
    requires
        layout::parse_page(page) is Ok,
    ensures
        match layout::parse_page(page)->Ok_0 {
            NodeView::Leaf { .. } => buffer_layout(page) == Ok::<
                Option<InternalBufferLayout>,
                CowBeTreeError,
            >(None),
            NodeView::Internal { fence, children, separators, buffer } => {
                let body = layout::internal_body(fence, children, separators, buffer);
                buffer_layout(page) == Ok::<_, CowBeTreeError>(
                    Some(
                        InternalBufferLayout {
                            child_count: children.len() as usize,
                            buffer_count: buffer.len() as usize,
                            buffer_count_offset: (layout::enc_fence(fence).len() + 4) as usize,
                            body_len: body.len() as usize,
                            buffer_len: message::messages_len(buffer) as usize,
                        },
                    ),
                ) && body.len() <= u32::MAX && layout::HEADER_SIZE + body.len() <= page.len()
            },
        },
{
    layout_laws::read_page_is_canonical(page);
    match layout::parse_page(page)->Ok_0 {
        NodeView::Leaf { .. } => {},
        NodeView::Internal { fence, children, separators, buffer } => {
            layout_laws::internal_written(fence, children, separators, buffer);
            enc_messages_len(buffer);
        },
    }
}

/// A page whose body and body length were replaced, and of the rest of the
/// header at most the item count, has the new body.
pub proof fn page_with_new_body(page: Seq<u8>, new: Seq<u8>, body2: Seq<u8>)
    requires
        layout::p_page(page) is Ok,
        new.len() == page.len(),
        layout::HEADER_SIZE + body2.len() <= new.len(),
        body2.len() <= u32::MAX,
        new.subrange(layout::HEADER_SIZE as int, layout::HEADER_SIZE + body2.len()) == body2,
        new.subrange(layout::BODY_LEN_OFF as int, layout::BODY_LEN_OFF + 4) == bytes::le32(
            body2.len() as u32,
        ),
        forall|i: int| layout::MAGIC_OFF <= i < layout::HEADER_SIZE ==> new[i] == page[i],
    ensures
        layout::p_page(new) == Ok::<_, CowBeTreeError>((layout::p_page(page)->Ok_0.0, body2)),
{
    assert(new.subrange(layout::MAGIC_OFF as int, layout::MAGIC_OFF + 4) =~= page.subrange(
        layout::MAGIC_OFF as int,
        layout::MAGIC_OFF + 4,
    ));
}

/// The bytes of a body after a message was put behind it and the count before
/// its last part was replaced.
proof fn appended_body(
    page: Seq<u8>,
    new: Seq<u8>,
    front: Seq<u8>,
    c3: Seq<u8>,
    c4: Seq<u8>,
    rest: Seq<u8>,
    e: Seq<u8>,
    len_bytes: Seq<u8>,
)
    requires
        c3.len() == 2,
        c4.len() == 2,
        len_bytes.len() == 4,
        32 + front.len() + 2 + rest.len() + e.len() <= page.len(),
        page.subrange(32, 32int + (front.len() + 2 + rest.len())) == front + (c3 + rest),
        new == bytes::patch(
            bytes::patch(
                bytes::patch(page, (32 + (front.len() + 2 + rest.len())) as int, e),
                10,
                len_bytes,
            ),
            (32 + front.len()) as int,
            c4,
        ),
    ensures
        new.subrange(32, 32int + (front.len() + 2 + rest.len() + e.len())) == front + (c4 + (rest + e)),
        new.subrange(10, 14) == len_bytes,
        new.len() == page.len(),
        forall|i: int| 14 <= i < 32 ==> new[i] == page[i],
{
    let body = front + (c3 + rest);
    assert forall|i: int| 0 <= i < body.len() implies page[32 + i] == body[i] by {
        assert(page.subrange(32, 32int + (front.len() + 2 + rest.len()))[i] == body[i]);
    }
    assert(new.subrange(10, 14) =~= len_bytes);
    let lhs = new.subrange(32, 32int + (front.len() + 2 + rest.len() + e.len()));
    let rhs = front + (c4 + (rest + e));
    assert forall|i: int| 0 <= i < rhs.len() implies lhs[i] == rhs[i] by {
        assert(lhs[i] == new[32 + i]);
        if i < body.len() {
            assert(page[32 + i] == body[i]);
        }
    }
    assert(lhs =~= rhs);
}

/// The page that an append makes holds the node with the message behind its
/// buffer.
proof fn buffer_appended_holds(
    page: Seq<u8>,
    fence: FenceView,
    children: Seq<u64>,
    separators: Seq<Seq<u8>>,
    buffer: Seq<MessageView>,
    m: MessageView,
    l: InternalBufferLayout,
)
    requires
        layout::p_page(page) == Ok::<_, CowBeTreeError>(
            (PageKind::Internal, layout::internal_body(fence, children, separators, buffer)),
        ),
        layout::internal_fits(fence, children, separators, buffer),
        node::sorted_keys(separators),
        l.buffer_count == buffer.len(),
        l.buffer_count_offset == layout::enc_fence(fence).len() + 4,
        l.body_len == layout::internal_body(fence, children, separators, buffer).len(),
        layout::message_fits(m),
        buffer.len() + 1 <= u16::MAX,
        l.body_len + message::message_len(m) <= u32::MAX,
        layout::HEADER_SIZE + l.body_len + message::message_len(m) <= page.len(),
    ensures
        layout::parse_page(buffer_appended(page, l, m)) == Ok::<_, CowBeTreeError>(
            NodeView::Internal { fence, children, separators, buffer: buffer.push(m) },
        ),
        buffer_appended(page, l, m).len() == page.len(),
{
    let new = buffer_appended(page, l, m);
    let f = |x: MessageView| layout::enc_message(x);
    layout::flat_push(buffer, m, f);
    enc_message_len(m);
    let body = layout::internal_body(fence, children, separators, buffer);
    let buffer2 = buffer.push(m);
    let body2 = layout::internal_body(fence, children, separators, buffer2);
    let n2 = NodeView::Internal { fence, children, separators, buffer: buffer2 };
    let ff = layout::enc_fence(fence);
    let c1 = bytes::le16(children.len() as u16);
    let c2 = bytes::le16(separators.len() as u16);
    let c3 = bytes::le16(buffer.len() as u16);
    let c4 = bytes::le16(buffer2.len() as u16);
    let ws = layout::enc_words(children);
    let ks = layout::enc_keys(separators);
    let ms = layout::enc_messages(buffer);
    let e = layout::enc_message(m);
    let rest = ws + (ks + ms);
    let front = ff + (c1 + c2);
    assert(layout::enc_messages(buffer2) == ms + e);
    assert(ws + (ks + (ms + e)) =~= rest + e);
    assert(body =~= front + (c3 + rest));
    assert(body2 =~= front + (c4 + (rest + e)));
    appended_body(
        page,
        new,
        front,
        c3,
        c4,
        rest,
        e,
        bytes::le32((l.body_len + message::message_len(m)) as u32),
    );
    page_with_new_body(page, new, body2);
    assert(layout::internal_fits(fence, children, separators, buffer2));
    layout_laws::page_holds(new, n2);
}

/// An append to the buffer of a page that holds a node: the page then holds the
/// node with the message behind its buffer.
pub proof fn buffer_append_pushes(
    page: Seq<u8>,
    m: MessageView,
    flush_messages: int,
    flush_bytes: int,
    max_children: int,
    early: bool,
)
    requires
        layout::parse_page(page) is Ok,
        page.len() <= usize::MAX,
        buffer_append_plan(page, m, flush_messages, flush_bytes, max_children, early) is Ok,
        buffer_append_plan(page, m, flush_messages, flush_bytes, max_children, early)->Ok_0 is Some,
    ensures
        ({
            let l = buffer_append_plan(page, m, flush_messages, flush_bytes, max_children, early)->Ok_0->0;
            &&& layout::parse_page(page)->Ok_0 matches NodeView::Internal {
                fence,
                children,
                separators,
                buffer,
            }
            &&& layout::parse_page(buffer_appended(page, l, m)) == Ok::<_, CowBeTreeError>(
                NodeView::Internal { fence, children, separators, buffer: buffer.push(m) },
            )
            &&& buffer_appended(page, l, m).len() == page.len()
        }),
{
    buffer_layout_of_node(page);
    layout_laws::read_page_is_canonical(page);
    let l = buffer_append_plan(page, m, flush_messages, flush_bytes, max_children, early)->Ok_0->0;
    match layout::parse_page(page)->Ok_0 {
        NodeView::Leaf { .. } => {},
        NodeView::Internal { fence, children, separators, buffer } => {
            buffer_appended_holds(page, fence, children, separators, buffer, m, l);
        },
    }
}

/// Walk past the separators.
fn skip_separators(r0: &mut reader::BodyReader<'_>, count: usize) -> (r: Result<
    (),
    CowBeTreeError,
>)
    ensures
        final(r0).data == old(r0).data,
        match layout::p_keys(old(r0).data@, old(r0).pos as int, count as nat) {
            Ok((_, p)) => r is Ok && final(r0).pos == p,
            Err(e) => r is Err && r->Err_0 == e,
        },
{
    let ghost data = r0.data@;
    let ghost start = r0.pos as int;
    let ghost p = |d: Seq<u8>, q: int| layout::p_bytes16(d, q);
    let ghost mut seen: Seq<Seq<u8>> = Seq::empty();
    let mut i: usize = 0;
    proof {
        let all = layout::p_list(data, start, count as nat, p);
        if all is Ok {
            assert(seen + all->Ok_0.0 =~= all->Ok_0.0);
        }
    }
    while i < count
        invariant
            i <= count,
            r0.data == old(r0).data,
            data == r0.data@,
            start == old(r0).pos as int,
            p == (|d: Seq<u8>, q: int| layout::p_bytes16(d, q)),
            layout::p_list(data, start, count as nat, p) == layout::prepend(
                seen,
                layout::p_list(data, r0.pos as int, (count - i) as nat, p),
            ),
        decreases count - i,
    {
        let ghost here = r0.pos as int;
        let ghost rest = layout::p_list(data, here, (count - i) as nat, p);
        assert(p(data, here) == layout::p_bytes16(data, here));
        let separator = r0.read_bytes_u16_len()?;
        proof {
            let tail = layout::p_list(data, r0.pos as int, (count - i - 1) as nat, p);
            if tail is Ok {
                assert(seen + (seq![separator@] + tail->Ok_0.0) =~= seen.push(separator@)
                    + tail->Ok_0.0);
            }
            seen = seen.push(separator@);
        }
        i += 1;
    }
    Ok(())
}

/// Walk past the messages.
fn skip_messages(r0: &mut reader::BodyReader<'_>, count: usize) -> (r: Result<(), CowBeTreeError>)
    ensures
        final(r0).data == old(r0).data,
        match layout::p_messages(old(r0).data@, old(r0).pos as int, count as nat) {
            Ok((_, p)) => r is Ok && final(r0).pos == p,
            Err(e) => r is Err && r->Err_0 == e,
        },
{
    let ghost data = r0.data@;
    let ghost start = r0.pos as int;
    let ghost p = |d: Seq<u8>, q: int| layout::p_message(d, q);
    let ghost mut seen: Seq<MessageView> = Seq::empty();
    let mut i: usize = 0;
    proof {
        let all = layout::p_list(data, start, count as nat, p);
        if all is Ok {
            assert(seen + all->Ok_0.0 =~= all->Ok_0.0);
        }
    }
    while i < count
        invariant
            i <= count,
            r0.data == old(r0).data,
            data == r0.data@,
            start == old(r0).pos as int,
            p == (|d: Seq<u8>, q: int| layout::p_message(d, q)),
            layout::p_list(data, start, count as nat, p) == layout::prepend(
                seen,
                layout::p_list(data, r0.pos as int, (count - i) as nat, p),
            ),
        decreases count - i,
    {
        let ghost here = r0.pos as int;
        let ghost rest = layout::p_list(data, here, (count - i) as nat, p);
        assert(p(data, here) == layout::p_message(data, here));
        let key = r0.read_bytes_u16_len()?;
        let version = reader::read_raw_version(r0)?;
        proof {
            let m = MessageView { key: key@, version: version@ };
            let tail = layout::p_list(data, r0.pos as int, (count - i - 1) as nat, p);
            if tail is Ok {
                assert(seen + (seq![m] + tail->Ok_0.0) =~= seen.push(m) + tail->Ok_0.0);
            }
            seen = seen.push(m);
        }
        i += 1;
    }
    Ok(())
}

/// Where the buffer of an internal page lies; `None` for a leaf.
pub fn internal_buffer_layout(page: &[u8]) -> (r: Result<
    Option<InternalBufferLayout>,
    CowBeTreeError,
>)
    ensures
        r == buffer_layout(page@),
        r matches Ok(Some(l)) ==> {
            &&& layout::HEADER_SIZE + l.body_len <= page@.len()
            &&& l.buffer_count <= u16::MAX
            &&& l.buffer_len <= l.body_len
            &&& l.buffer_count_offset + 2 <= l.body_len
            &&& l.body_len <= u32::MAX
        },
{
    let (kind, mut r0) = reader::page_body_reader(page)?;
    match kind {
        PageKind::Leaf => {
            return Ok(None);
        },
        PageKind::Internal => {},
    }
    reader::skip_fence(&mut r0)?;
    let header_pos: usize = r0.pos;
    let (child_count, separator_count, buffer_count) = reader::read_internal_header(&mut r0)?;
    let _children = r0.read_exact(child_count * 8)?;
    skip_separators(&mut r0, separator_count)?;
    let body_len: usize = r0.data.len();
    let buffer_start: usize = r0.pos;
    skip_messages(&mut r0, buffer_count)?;
    if r0.pos != body_len {
        return Err(CowBeTreeError::CorruptPage("internal buffer length mismatch"));
    }
    proof {
        let body = layout::p_page(page@)->Ok_0.1;
        let (_, p0) = layout::p_fence(body, 0)->Ok_0;
        layout_laws::fence_read(body, 0);
        let p1 = p0 + 6;
        layout_laws::keys_read(body, p1 + 8 * child_count, separator_count as nat);
        layout_laws::messages_read(body, buffer_start as int, buffer_count as nat);
    }
    Ok(
        Some(
            InternalBufferLayout {
                child_count,
                buffer_count,
                buffer_count_offset: header_pos + 4,
                body_len,
                buffer_len: body_len - buffer_start,
            },
        ),
    )
}

fn append_to_buffer(
    page: &mut [u8],
    m: &BufferedMessage,
    flush_threshold_messages: usize,
    flush_threshold_bytes: usize,
    max_internal_children: usize,
    early: bool,
) -> (r: Result<Option<InternalBufferAppend>, CowBeTreeError>)
    ensures
        match buffer_append_plan(
            old(page)@,
            m@,
            flush_threshold_messages as int,
            flush_threshold_bytes as int,
            max_internal_children as int,
            early,
        ) {
            Err(e) => r is Err && r->Err_0 == e && final(page)@ == old(page)@,
            Ok(None) => r is Ok && r->Ok_0 is None && final(page)@ == old(page)@,
            Ok(Some(l)) => r == Ok::<_, CowBeTreeError>(Some(buffer_append_result(l, m@)))
                && final(page)@ == buffer_appended(old(page)@, l, m@),
        },
{
    let found = internal_buffer_layout(page)?;
    let l = match found {
        Some(l) => l,
        None => {
            return Ok(None);
        },
    };
    let size: usize = page.len();
    if l.child_count > max_internal_children {
        return Ok(None);
    }
    let mut w = BodyWriter::new();
    if early {
        check_message(m)?;
    }
    let message_len: usize = m.encoded_len();
    let new_buffer_count: usize = l.buffer_count + 1;
    let new_buffer_len: usize = match l.buffer_len.checked_add(message_len) {
        Some(n) => n,
        None => {
            return Err(CowBeTreeError::CorruptPage("internal buffer byte length overflow"));
        },
    };
    if new_buffer_count >= flush_threshold_messages || new_buffer_len >= flush_threshold_bytes {
        return Ok(None);
    }
    let new_body_len: usize = match l.body_len.checked_add(message_len) {
        Some(n) => n,
        None => {
            return Err(CowBeTreeError::CorruptPage("internal body length overflow"));
        },
    };
    if new_body_len > size - layout::HEADER_SIZE {
        return Ok(None);
    }
    writer::encode_message(&mut w, m)?;
    if new_body_len as u64 > 0xffff_ffff {
        return Err(CowBeTreeError::CorruptPage("internal page body too large"));
    }
    if new_buffer_count > 0xffff {
        return Err(CowBeTreeError::CorruptPage("too many buffered messages"));
    }
    let b = w.into_inner();
    proof {
        enc_message_len(m@);
        assert(b@ =~= layout::enc_message(m@));
    }
    bytes::write_at(page, layout::HEADER_SIZE + l.body_len, b.as_slice());
    let len_bytes = vstd::bytes::u32_to_le_bytes(new_body_len as u32);
    bytes::write_at(page, layout::BODY_LEN_OFF, len_bytes.as_slice());
    let count_bytes = vstd::bytes::u16_to_le_bytes(new_buffer_count as u16);
    bytes::write_at(page, layout::HEADER_SIZE + l.buffer_count_offset, count_bytes.as_slice());
    Ok(
        Some(
            InternalBufferAppend {
                buffer_count: new_buffer_count,
                body_len: new_body_len,
                message_len,
            },
        ),
    )
}

/// Refuse a message too large for the format.
fn check_message(m: &BufferedMessage) -> (r: Result<(), CowBeTreeError>)
    ensures
        match writer::message_error(m@) {
            Some(e) => r is Err && r->Err_0 == e,
            None => r is Ok,
        },
{
    if m.key.len() > 0xffff {
        return Err(CowBeTreeError::CorruptPage("message key too large"));
    }
    if m.version.value.len() as u64 > 0xffff_ffff {
        return Err(CowBeTreeError::CorruptPage("version value too large"));
    }
    Ok(())
}

/// Append a message to the buffer of an internal page, unless the page is a
/// leaf, the buffer is due for a flush, there are too many children, or there is
/// no room.
pub fn append_internal_buffer_message(
    page: &mut [u8],
    m: &BufferedMessage,
    flush_threshold_messages: usize,
    flush_threshold_bytes: usize,
    max_internal_children: usize,
) -> (r: Result<Option<InternalBufferAppend>, CowBeTreeError>)
    ensures
        match buffer_append_plan(
            old(page)@,
            m@,
            flush_threshold_messages as int,
            flush_threshold_bytes as int,
            max_internal_children as int,
            false,
        ) {
            Err(e) => r is Err && r->Err_0 == e && final(page)@ == old(page)@,
            Ok(None) => r is Ok && r->Ok_0 is None && final(page)@ == old(page)@,
            Ok(Some(l)) => r == Ok::<_, CowBeTreeError>(Some(buffer_append_result(l, m@)))
                && final(page)@ == buffer_appended(old(page)@, l, m@),
        },
{
    append_to_buffer(
        page,
        m,
        flush_threshold_messages,
        flush_threshold_bytes,
        max_internal_children,
        false,
    )
}

/// Append a put to the buffer of an internal page, likewise.
pub fn append_internal_buffer_kv(
    page: &mut [u8],
    key: &[u8],
    value: &[u8],
    commit_ts: u64,
    flush_threshold_messages: usize,
    flush_threshold_bytes: usize,
    max_internal_children: usize,
) -> (r: Result<Option<InternalBufferAppend>, CowBeTreeError>)
    ensures
        match buffer_append_plan(
            old(page)@,
            message::put_view(key@, commit_ts, value@),
            flush_threshold_messages as int,
            flush_threshold_bytes as int,
            max_internal_children as int,
            true,
        ) {
            Err(e) => r is Err && r->Err_0 == e && final(page)@ == old(page)@,
            Ok(None) => r is Ok && r->Ok_0 is None && final(page)@ == old(page)@,
            Ok(Some(l)) => r == Ok::<_, CowBeTreeError>(
                Some(buffer_append_result(l, message::put_view(key@, commit_ts, value@))),
            ) && final(page)@ == buffer_appended(
                old(page)@,
                l,
                message::put_view(key@, commit_ts, value@),
            ),
        },
{
    let m = BufferedMessage::put(key, commit_ts, value);
    append_to_buffer(
        page,
        &m,
        flush_threshold_messages,
        flush_threshold_bytes,
        max_internal_children,
        true,
    )
}

} // verus!
