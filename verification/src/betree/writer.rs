//! Writing pages: the body writer and the encoding of nodes.
use vstd::prelude::*;

use crate::betree::layout;
use crate::betree::layout_laws;
use crate::betree::message;
use crate::betree::message::{BufferedMessage, MessageView, VersionRecord, VersionView};
use crate::betree::node;
use crate::betree::node::{CowBeTreeError, EntryView, Fence, FenceView, LeafEntry, NodePage, NodeView, PageKind};
use crate::bytes;

verus! {

broadcast use bytes::group_le;

// ---------------------------------------------------------------------------
// What cannot be written.

pub open spec fn fence_error(fence: FenceView) -> Option<CowBeTreeError> {
    if fence.lower.len() > u16::MAX {
        Some(CowBeTreeError::CorruptPage("lower fence too large"))
    } else if fence.upper is Some && fence.upper->0.len() > u16::MAX {
        Some(CowBeTreeError::CorruptPage("upper fence too large"))
    } else {
        None
    }
}

pub open spec fn some_value_too_large(vs: Seq<VersionView>) -> bool {
    exists|i: int| 0 <= i < vs.len() && !layout::version_fits(#[trigger] vs[i])
}

pub open spec fn entry_error(e: EntryView) -> Option<CowBeTreeError> {
    if e.key.len() > u16::MAX {
        Some(CowBeTreeError::CorruptPage("leaf key too large"))
    } else if e.versions.len() > u16::MAX {
        Some(CowBeTreeError::CorruptPage("too many retained versions"))
    } else if some_value_too_large(e.versions) {
        Some(CowBeTreeError::CorruptPage("version value too large"))
    } else {
        None
    }
}

/// What stops the writing of the entries from `i` on, if anything.
pub open spec fn entries_error(base: int, es: Seq<EntryView>, i: int) -> Option<CowBeTreeError>
    decreases es.len() - i,
{
    if i >= es.len() {
        None
    } else if layout::entry_offset(base, es, i) > u32::MAX {
        Some(CowBeTreeError::CorruptPage("leaf entry offset too large"))
    } else if entry_error(es[i]) is Some {
        entry_error(es[i])
    } else {
        entries_error(base, es, i + 1)
    }
}

/// What stops the writing of a leaf body, if anything.
pub open spec fn leaf_error(fence: FenceView, es: Seq<EntryView>) -> Option<CowBeTreeError> {
    if fence_error(fence) is Some {
        fence_error(fence)
    } else if es.len() > u16::MAX {
        Some(CowBeTreeError::CorruptPage("too many leaf entries"))
    } else {
        entries_error(layout::leaf_base(fence), es, 0)
    }
}

pub open spec fn message_error(m: MessageView) -> Option<CowBeTreeError> {
    if m.key.len() > u16::MAX {
        Some(CowBeTreeError::CorruptPage("message key too large"))
    } else if !layout::version_fits(m.version) {
        Some(CowBeTreeError::CorruptPage("version value too large"))
    } else {
        None
    }
}

/// What stops the writing of the messages from `i` on, if anything.
pub open spec fn messages_error(ms: Seq<MessageView>, i: int) -> Option<CowBeTreeError>
    decreases ms.len() - i,
{
    if i >= ms.len() {
        None
    } else if message_error(ms[i]) is Some {
        message_error(ms[i])
    } else {
        messages_error(ms, i + 1)
    }
}

pub open spec fn some_key_too_large(ks: Seq<Seq<u8>>) -> bool {
    exists|i: int| 0 <= i < ks.len() && (#[trigger] ks[i]).len() > u16::MAX
}

/// What stops the writing of an internal body, if anything.
pub open spec fn internal_error(
    fence: FenceView,
    children: Seq<u64>,
    separators: Seq<Seq<u8>>,
    buffer: Seq<MessageView>,
) -> Option<CowBeTreeError> {
    if children.len() == 0 {
        Some(CowBeTreeError::EmptyInternalPage)
    } else if separators.len() + 1 != children.len() {
        Some(CowBeTreeError::CorruptPage("internal separator count does not match child count"))
    } else if fence_error(fence) is Some {
        fence_error(fence)
    } else if children.len() > u16::MAX {
        Some(CowBeTreeError::CorruptPage("too many internal children"))
    } else if buffer.len() > u16::MAX {
        Some(CowBeTreeError::CorruptPage("too many buffered messages"))
    } else if some_key_too_large(separators) {
        Some(CowBeTreeError::CorruptPage("internal separator too large"))
    } else {
        messages_error(buffer, 0)
    }
}

pub open spec fn node_error(n: NodeView) -> Option<CowBeTreeError> {
    match n {
        NodeView::Leaf { fence, entries } => leaf_error(fence, entries),
        NodeView::Internal { fence, children, separators, buffer } => internal_error(
            fence,
            children,
            separators,
            buffer,
        ),
    }
}

/// How many bytes of a page of `capacity` bytes a node takes up, or why it has
/// no place there.
pub open spec fn page_len(n: NodeView, capacity: int) -> Result<usize, CowBeTreeError> {
    if node_error(n) is Some {
        Err(node_error(n)->0)
    } else {
        let needed = layout::HEADER_SIZE + layout::node_body(n).len();
        if needed > usize::MAX {
            layout::corrupt("page length overflow")
        } else if needed > capacity {
            Err(
                CowBeTreeError::PageOverflow {
                    kind: node::kind_name(layout::node_kind(n)),
                    needed: needed as usize,
                    capacity: capacity as usize,
                },
            )
        } else {
            Ok(needed as usize)
        }
    }
}

/// The outcome of writing a node on a page of `capacity` bytes.
pub open spec fn write_result(n: NodeView, capacity: int) -> Result<usize, CowBeTreeError> {
    if page_len(n, capacity) is Ok && layout::node_body(n).len() > u32::MAX {
        layout::corrupt("page body too large")
    } else {
        page_len(n, capacity)
    }
}

/// The page that a node is written as.
pub open spec fn node_image(n: NodeView, len: nat) -> Seq<u8> {
    layout::page_image(layout::node_kind(n), layout::node_count(n), layout::node_body(n), len)
}

pub proof fn entries_error_none(base: int, es: Seq<EntryView>, i: int)
    requires
        0 <= i <= es.len(),
    ensures
        entries_error(base, es, i) is None <==> (forall|j: int|
            i <= j < es.len() ==> layout::entry_fits(#[trigger] es[j]) && layout::entry_offset(
                base,
                es,
                j,
            ) <= u32::MAX),
    decreases es.len() - i,
{
    if i < es.len() {
        entries_error_none(base, es, i + 1);
        assert(entry_error(es[i]) is None <==> layout::entry_fits(es[i]));
        if entries_error(base, es, i) is None {
            assert forall|j: int| i <= j < es.len() implies layout::entry_fits(#[trigger] es[j])
                && layout::entry_offset(base, es, j) <= u32::MAX by {
                if j > i {
                    assert(layout::entry_fits(es[j]));
                }
            }
        }
    }
}

proof fn messages_error_none(ms: Seq<MessageView>, i: int)
    requires
        0 <= i <= ms.len(),
    ensures
        messages_error(ms, i) is None <==> (forall|j: int|
            i <= j < ms.len() ==> layout::message_fits(#[trigger] ms[j])),
    decreases ms.len() - i,
{
    if i < ms.len() {
        messages_error_none(ms, i + 1);
        assert(message_error(ms[i]) is None <==> layout::message_fits(ms[i]));
        if messages_error(ms, i) is None {
            assert forall|j: int| i <= j < ms.len() implies layout::message_fits(
                #[trigger] ms[j],
            ) by {
                if j > i {
                    assert(layout::message_fits(ms[j]));
                }
            }
        }
    }
}

/// A node whose keys are in order can be written without error exactly when it
/// fits the format; a fence whose upper key has the one length that stands for
/// "none" is left aside.
pub proof fn no_error_means_fits(n: NodeView)
    requires
        match n {
            NodeView::Leaf { fence, entries } => node::sorted_entries(entries) && (
            fence.upper matches Some(u) ==> u.len() != layout::NONE_FENCE_LEN),
            NodeView::Internal { fence, separators, .. } => node::sorted_keys(separators) && (
            fence.upper matches Some(u) ==> u.len() != layout::NONE_FENCE_LEN),
        },
    ensures
        node_error(n) is None <==> layout::node_fits(n),
{
    match n {
        NodeView::Leaf { fence, entries } => {
            let base = layout::leaf_base(fence);
            entries_error_none(base, entries, 0);
            if node_error(n) is None {
                assert(layout::leaf_fits(fence, entries)) by {
                    assert forall|i: int| 0 <= i < entries.len() implies
                        #[trigger] layout::entry_offset(base, entries, i) <= u32::MAX by {
                        assert(layout::entry_fits(entries[i]));
                    }
                }
            }
        },
        NodeView::Internal { fence, children, separators, buffer } => {
            messages_error_none(buffer, 0);
        },
    }
}

/// A page of at most `PAGE_SIZE` bytes on which a node with keys in order was
/// written holds that node.
pub proof fn node_image_is_read_back(n: NodeView, len: nat)
    requires
        write_result(n, len as int) is Ok,
        match n {
            NodeView::Leaf { entries, .. } => node::sorted_entries(entries),
            NodeView::Internal { separators, .. } => node::sorted_keys(separators),
        },
        len <= crate::page_id::PAGE_SIZE,
    ensures
        layout::parse_page(node_image(n, len)) == Ok::<_, CowBeTreeError>(n),
        node_image(n, len).len() == len,
        layout::node_fits(n),
{
    let fence = match n {
        NodeView::Leaf { fence, .. } => fence,
        NodeView::Internal { fence, .. } => fence,
    };
    assert(layout::node_body(n).len() >= layout::enc_fence(fence).len());
    no_error_means_fits(n);
    layout_laws::written_page_is_read_back(n, len);
    layout_laws::page_written(
        layout::node_kind(n),
        layout::node_count(n),
        layout::node_body(n),
        len,
    );
}

// ---------------------------------------------------------------------------
// The body writer.

/// A body under construction.
pub struct BodyWriter {
    pub data: Vec<u8>,
}

fn extend(data: &mut Vec<u8>, b: &[u8])
    ensures
        final(data)@ == old(data)@ + b@,
{
    let ghost before = data@;
    data.extend_from_slice(b);
    assert(data@ =~= before + b@);
}

impl BodyWriter {
    pub fn new() -> (r: Self)
        ensures
            r.data@ == Seq::<u8>::empty(),
    {
        Self { data: Vec::new() }
    }

    /// The length so far, if it fits 32 bits.
    pub fn len_u32(&self, msg: &'static str) -> (r: Result<u32, CowBeTreeError>)
        ensures
            self.data@.len() <= u32::MAX ==> r is Ok && r->Ok_0 == self.data@.len(),
            self.data@.len() > u32::MAX ==> r == layout::corrupt::<u32>(msg),
    {
        if self.data.len() as u64 > 0xffff_ffff {
            return Err(CowBeTreeError::CorruptPage(msg));
        }
        Ok(self.data.len() as u32)
    }

    pub fn push_bytes(&mut self, b: &[u8])
        ensures
            final(self).data@ == old(self).data@ + b@,
    {
        extend(&mut self.data, b);
    }

    pub fn push_u8(&mut self, value: u8)
        ensures
            final(self).data@ == old(self).data@ + seq![value],
    {
        let ghost before = self.data@;
        self.data.push(value);
        assert(self.data@ =~= before + seq![value]);
    }

    pub fn push_u16(&mut self, value: usize, msg: &'static str) -> (r: Result<(), CowBeTreeError>)
        ensures
            value <= u16::MAX ==> r is Ok && final(self).data@ == old(self).data@ + bytes::le16(
                value as u16,
            ),
            value > u16::MAX ==> r == layout::corrupt::<()>(msg) && final(self).data@ == old(
                self,
            ).data@,
    {
        if value > 0xffff {
            return Err(CowBeTreeError::CorruptPage(msg));
        }
        self.push_u16_raw(value as u16);
        Ok(())
    }

    pub fn push_u16_raw(&mut self, value: u16)
        ensures
            final(self).data@ == old(self).data@ + bytes::le16(value),
    {
        let b = vstd::bytes::u16_to_le_bytes(value);
        extend(&mut self.data, b.as_slice());
    }

    pub fn push_u32(&mut self, value: usize, msg: &'static str) -> (r: Result<(), CowBeTreeError>)
        ensures
            value <= u32::MAX ==> r is Ok && final(self).data@ == old(self).data@ + bytes::le32(
                value as u32,
            ),
            value > u32::MAX ==> r == layout::corrupt::<()>(msg) && final(self).data@ == old(
                self,
            ).data@,
    {
        if value as u64 > 0xffff_ffff {
            return Err(CowBeTreeError::CorruptPage(msg));
        }
        self.push_u32_raw(value as u32);
        Ok(())
    }

    pub fn push_u32_raw(&mut self, value: u32)
        ensures
            final(self).data@ == old(self).data@ + bytes::le32(value),
    {
        let b = vstd::bytes::u32_to_le_bytes(value);
        extend(&mut self.data, b.as_slice());
    }

    pub fn push_u64(&mut self, value: u64)
        ensures
            final(self).data@ == old(self).data@ + bytes::le64(value),
    {
        let b = vstd::bytes::u64_to_le_bytes(value);
        extend(&mut self.data, b.as_slice());
    }

    pub fn push_bytes_with_u16_len(&mut self, b: &[u8], msg: &'static str) -> (r: Result<
        (),
        CowBeTreeError,
    >)
        ensures
            b@.len() <= u16::MAX ==> r is Ok && final(self).data@ == old(self).data@
                + layout::enc_bytes16(b@),
            b@.len() > u16::MAX ==> r == layout::corrupt::<()>(msg) && final(self).data@ == old(
                self,
            ).data@,
    {
        let ghost before = self.data@;
        self.push_u16(b.len(), msg)?;
        extend(&mut self.data, b);
        assert(self.data@ =~= before + layout::enc_bytes16(b@));
        Ok(())
    }

    pub fn push_bytes_with_u32_len(&mut self, b: &[u8], msg: &'static str) -> (r: Result<
        (),
        CowBeTreeError,
    >)
        ensures
            b@.len() <= u32::MAX ==> r is Ok && final(self).data@ == old(self).data@
                + layout::enc_bytes32(b@),
            b@.len() > u32::MAX ==> r == layout::corrupt::<()>(msg) && final(self).data@ == old(
                self,
            ).data@,
    {
        let ghost before = self.data@;
        self.push_u32(b.len(), msg)?;
        extend(&mut self.data, b);
        assert(self.data@ =~= before + layout::enc_bytes32(b@));
        Ok(())
    }

    pub fn into_inner(self) -> (r: Vec<u8>)
        ensures
            r@ == self.data@,
    {
        self.data
    }
}

pub fn encode_fence(writer: &mut BodyWriter, fence: &Fence) -> (r: Result<(), CowBeTreeError>)
    ensures
        match fence_error(fence@) {
            Some(e) => r is Err && r->Err_0 == e,
            None => r is Ok && final(writer).data@ == old(writer).data@ + layout::enc_fence(
                fence@,
            ),
        },
{
    let ghost before = writer.data@;
    writer.push_bytes_with_u16_len(fence.lower.as_slice(), "lower fence too large")?;
    match &fence.upper {
        Some(upper) => {
            writer.push_bytes_with_u16_len(upper.as_slice(), "upper fence too large")?;
        },
        None => {
            writer.push_u16_raw(layout::NONE_FENCE_LEN);
        },
    }
    assert(writer.data@ =~= before + layout::enc_fence(fence@));
    Ok(())
}

pub fn encode_version(writer: &mut BodyWriter, version: &VersionRecord) -> (r: Result<
    (),
    CowBeTreeError,
>)
    ensures
        layout::version_fits(version@) ==> r is Ok && final(writer).data@ == old(writer).data@
            + layout::enc_version(version@),
        !layout::version_fits(version@) ==> r == layout::corrupt::<()>("version value too large"),
{
    let ghost before = writer.data@;
    writer.push_u64(version.commit_ts);
    writer.push_u8(
        if version.deleted {
            1
        } else {
            0
        },
    );
    writer.push_bytes_with_u32_len(version.value.as_slice(), "version value too large")?;
    assert(writer.data@ =~= before + layout::enc_version(version@));
    Ok(())
}

pub fn encode_message(writer: &mut BodyWriter, m: &BufferedMessage) -> (r: Result<
    (),
    CowBeTreeError,
>)
    ensures
        match message_error(m@) {
            Some(e) => r is Err && r->Err_0 == e,
            None => r is Ok && final(writer).data@ == old(writer).data@ + layout::enc_message(m@),
        },
{
    let ghost before = writer.data@;
    writer.push_bytes_with_u16_len(m.key.as_slice(), "message key too large")?;
    encode_version(writer, &m.version)?;
    assert(writer.data@ =~= before + layout::enc_message(m@));
    Ok(())
}

fn encode_entry(writer: &mut BodyWriter, entry: &LeafEntry) -> (r: Result<(), CowBeTreeError>)
    ensures
        match entry_error(entry@) {
            Some(e) => r is Err && r->Err_0 == e,
            None => r is Ok && final(writer).data@ == old(writer).data@ + layout::enc_entry(
                entry@,
            ),
        },
{
    let ghost before = writer.data@;
    let ghost vs = entry@.versions;
    let ghost f = |v: VersionView| layout::enc_version(v);
    writer.push_bytes_with_u16_len(entry.key.as_slice(), "leaf key too large")?;
    writer.push_u16(entry.versions.len(), "too many retained versions")?;
    let ghost start = writer.data@;
    let mut i: usize = 0;
    proof {
        assert(vs.take(0) =~= Seq::<VersionView>::empty());
        assert(start + layout::flat(vs.take(0), f) =~= start);
    }
    while i < entry.versions.len()
        invariant
            i <= entry.versions@.len(),
            vs == entry@.versions,
            entry@.key.len() <= u16::MAX,
            vs.len() <= u16::MAX,
            f == (|v: VersionView| layout::enc_version(v)),
            writer.data@ == start + layout::flat(vs.take(i as int), f),
            forall|j: int| 0 <= j < i ==> layout::version_fits(#[trigger] vs[j]),
        decreases entry.versions@.len() - i,
    {
        assert(vs[i as int] == entry.versions@[i as int]@);
        encode_version(writer, &entry.versions[i])?;
        proof {
            layout::flat_split(vs, i as int, f);
            assert(writer.data@ =~= start + layout::flat(vs.take(i + 1), f));
        }
        i += 1;
    }
    proof {
        assert(vs.take(i as int) =~= vs);
        assert(writer.data@ =~= before + layout::enc_entry(entry@));
    }
    Ok(())
}

/// The body of a leaf page.
pub fn encode_leaf_body(fence: &Fence, entries: &[LeafEntry]) -> (r: Result<
    Vec<u8>,
    CowBeTreeError,
>)
    ensures
        match leaf_error(fence@, node::entries_view(entries@)) {
            Some(e) => r is Err && r->Err_0 == e,
            None => r is Ok && r->Ok_0@ == layout::leaf_body(
                fence@,
                node::entries_view(entries@),
            ),
        },
{
    let ghost es = node::entries_view(entries@);
    let ghost base = layout::leaf_base(fence@);
    let ghost f = |e: EntryView| layout::enc_entry(e);
    let mut body = BodyWriter::new();
    encode_fence(&mut body, fence)?;
    body.push_u16(entries.len(), "too many leaf entries")?;
    let ghost start = body.data@;
    let mut offsets: Vec<u32> = Vec::new();
    let mut i: usize = 0;
    proof {
        assert(es.take(0) =~= Seq::<EntryView>::empty());
        assert(start + layout::flat(es.take(0), f) =~= start);
        assert(start.len() == base);
    }
    while i < entries.len()
        invariant
            i <= entries@.len(),
            es == node::entries_view(entries@),
            es.len() <= u16::MAX,
            fence_error(fence@) is None,
            base == layout::leaf_base(fence@),
            start.len() == base,
            f == (|e: EntryView| layout::enc_entry(e)),
            body.data@ == start + layout::flat(es.take(i as int), f),
            offsets@.len() == i,
            forall|j: int|
                0 <= j < i ==> #[trigger] offsets@[j] == layout::entry_offset(base, es, j) as u32,
            leaf_error(fence@, es) == entries_error(base, es, i as int),
        decreases entries@.len() - i,
    {
        assert(body.data@.len() == layout::entry_offset(base, es, i as int));
        let offset: u32 = body.len_u32("leaf entry offset too large")?;
        offsets.push(offset);
        assert(es[i as int] == entries@[i as int]@);
        encode_entry(&mut body, &entries[i])?;
        proof {
            layout::flat_split(es, i as int, f);
            assert(body.data@ =~= start + layout::flat(es.take(i + 1), f));
        }
        i += 1;
    }
    proof {
        assert(es.take(i as int) =~= es);
        assert(offsets@ =~= layout::entry_offsets(base, es));
    }
    let ghost full = body.data@;
    let ghost g = |o: u32| bytes::le32(o);
    let ghost os = offsets@;
    let mut k: usize = 0;
    proof {
        assert(os.take(0) =~= Seq::<u32>::empty());
        assert(full + layout::flat(os.take(0), g) =~= full);
    }
    while k < offsets.len()
        invariant
            k <= offsets@.len(),
            os == offsets@,
            g == (|o: u32| bytes::le32(o)),
            body.data@ == full + layout::flat(os.take(k as int), g),
        decreases offsets@.len() - k,
    {
        body.push_u32_raw(offsets[k]);
        proof {
            layout::flat_split(os, k as int, g);
            assert(body.data@ =~= full + layout::flat(os.take(k + 1), g));
        }
        k += 1;
    }
    proof {
        assert(os.take(k as int) =~= os);
        assert(body.data@ =~= layout::leaf_body(fence@, es));
    }
    Ok(body.into_inner())
}

fn encode_words(body: &mut BodyWriter, words: &[u64])
    ensures
        final(body).data@ == old(body).data@ + layout::enc_words(words@),
{
    let ghost start = body.data@;
    let ghost f = |w: u64| bytes::le64(w);
    let mut i: usize = 0;
    proof {
        assert(words@.take(0) =~= Seq::<u64>::empty());
        assert(start + layout::flat(words@.take(0), f) =~= start);
    }
    while i < words.len()
        invariant
            i <= words@.len(),
            f == (|w: u64| bytes::le64(w)),
            body.data@ == start + layout::flat(words@.take(i as int), f),
        decreases words@.len() - i,
    {
        body.push_u64(words[i]);
        proof {
            layout::flat_split(words@, i as int, f);
            assert(body.data@ =~= start + layout::flat(words@.take(i + 1), f));
        }
        i += 1;
    }
    assert(words@.take(i as int) =~= words@);
}

fn encode_keys(body: &mut BodyWriter, keys: &[Vec<u8>], msg: &'static str) -> (r: Result<
    (),
    CowBeTreeError,
>)
    ensures
        some_key_too_large(node::keys_view(keys@)) ==> r == layout::corrupt::<()>(msg),
        !some_key_too_large(node::keys_view(keys@)) ==> r is Ok && final(body).data@ == old(
            body,
        ).data@ + layout::enc_keys(node::keys_view(keys@)),
{
    let ghost start = body.data@;
    let ghost ks = node::keys_view(keys@);
    let ghost f = |k: Seq<u8>| layout::enc_bytes16(k);
    let mut i: usize = 0;
    proof {
        assert(ks.take(0) =~= Seq::<Seq<u8>>::empty());
        assert(start + layout::flat(ks.take(0), f) =~= start);
    }
    while i < keys.len()
        invariant
            i <= keys@.len(),
            ks == node::keys_view(keys@),
            f == (|k: Seq<u8>| layout::enc_bytes16(k)),
            body.data@ == start + layout::flat(ks.take(i as int), f),
            forall|j: int| 0 <= j < i ==> (#[trigger] ks[j]).len() <= u16::MAX,
        decreases keys@.len() - i,
    {
        assert(ks[i as int] == keys@[i as int]@);
        body.push_bytes_with_u16_len(keys[i].as_slice(), msg)?;
        proof {
            layout::flat_split(ks, i as int, f);
            assert(body.data@ =~= start + layout::flat(ks.take(i + 1), f));
        }
        i += 1;
    }
    assert(ks.take(i as int) =~= ks);
    Ok(())
}

fn encode_messages(body: &mut BodyWriter, messages: &[BufferedMessage]) -> (r: Result<
    (),
    CowBeTreeError,
>)
    ensures
        match messages_error(message::messages_view(messages@), 0) {
            Some(e) => r is Err && r->Err_0 == e,
            None => r is Ok && final(body).data@ == old(body).data@ + layout::enc_messages(
                message::messages_view(messages@),
            ),
        },
{
    let ghost start = body.data@;
    let ghost ms = message::messages_view(messages@);
    let ghost f = |m: MessageView| layout::enc_message(m);
    let mut i: usize = 0;
    proof {
        assert(ms.take(0) =~= Seq::<MessageView>::empty());
        assert(start + layout::flat(ms.take(0), f) =~= start);
    }
    while i < messages.len()
        invariant
            i <= messages@.len(),
            ms == message::messages_view(messages@),
            f == (|m: MessageView| layout::enc_message(m)),
            body.data@ == start + layout::flat(ms.take(i as int), f),
            messages_error(ms, 0) == messages_error(ms, i as int),
        decreases messages@.len() - i,
    {
        assert(ms[i as int] == messages@[i as int]@);
        encode_message(body, &messages[i])?;
        proof {
            layout::flat_split(ms, i as int, f);
            assert(body.data@ =~= start + layout::flat(ms.take(i + 1), f));
        }
        i += 1;
    }
    assert(ms.take(i as int) =~= ms);
    Ok(())
}

/// The body of an internal page.
pub fn encode_internal_body(
    fence: &Fence,
    children: &[u64],
    separators: &[Vec<u8>],
    buffer: &[BufferedMessage],
) -> (r: Result<Vec<u8>, CowBeTreeError>)
    ensures
        match internal_error(
            fence@,
            children@,
            node::keys_view(separators@),
            message::messages_view(buffer@),
        ) {
            Some(e) => r is Err && r->Err_0 == e,
            None => r is Ok && r->Ok_0@ == layout::internal_body(
                fence@,
                children@,
                node::keys_view(separators@),
                message::messages_view(buffer@),
            ),
        },
{
    if children.len() == 0 {
        return Err(CowBeTreeError::EmptyInternalPage);
    }
    if separators.len() != children.len() - 1 {
        return Err(
            CowBeTreeError::CorruptPage("internal separator count does not match child count"),
        );
    }
    let mut body = BodyWriter::new();
    encode_fence(&mut body, fence)?;
    body.push_u16(children.len(), "too many internal children")?;
    body.push_u16(separators.len(), "too many internal separators")?;
    body.push_u16(buffer.len(), "too many buffered messages")?;
    encode_words(&mut body, children);
    encode_keys(&mut body, separators, "internal separator too large")?;
    encode_messages(&mut body, buffer)?;
    assert(body.data@ =~= layout::internal_body(
        fence@,
        children@,
        node::keys_view(separators@),
        message::messages_view(buffer@),
    ));
    Ok(body.into_inner())
}

/// Write the header and the body of a page. The page is left alone where they
/// have no place on it.
pub fn finish_page(page: &mut [u8], kind: PageKind, count: usize, body: Vec<u8>) -> (r: Result<
    usize,
    CowBeTreeError,
>)
    requires
        count <= u16::MAX,
    ensures
        ({
            let needed = layout::HEADER_SIZE + body@.len();
            if needed > usize::MAX {
                r == layout::corrupt::<usize>("page length overflow") && final(page)@ == old(page)@
            } else if needed > old(page)@.len() {
                r == Err::<usize, CowBeTreeError>(
                    CowBeTreeError::PageOverflow {
                        kind: node::kind_name(kind),
                        needed: needed as usize,
                        capacity: old(page)@.len() as usize,
                    },
                ) && final(page)@ == old(page)@
            } else if body@.len() > u32::MAX {
                r == layout::corrupt::<usize>("page body too large") && final(page)@ == old(page)@
            } else {
                r == Ok::<usize, CowBeTreeError>(needed as usize) && final(page)@
                    == layout::page_image(kind, count as int, body@, old(page)@.len())
            }
        }),
{
    let needed: usize = encoded_body_len(kind, &body, page.len())?;
    if body.len() as u64 > 0xffff_ffff {
        return Err(CowBeTreeError::CorruptPage("page body too large"));
    }
    bytes::zero_fill(page);
    let count_bytes = vstd::bytes::u16_to_le_bytes(count as u16);
    bytes::write_at(page, layout::COUNT_OFF, count_bytes.as_slice());
    let len_bytes = vstd::bytes::u32_to_le_bytes(body.len() as u32);
    bytes::write_at(page, layout::BODY_LEN_OFF, len_bytes.as_slice());
    let magic_bytes = vstd::bytes::u32_to_le_bytes(layout::PAGE_MAGIC);
    bytes::write_at(page, layout::MAGIC_OFF, magic_bytes.as_slice());
    page[layout::VERSION_OFF] = layout::PAGE_VERSION;
    page[layout::KIND_OFF] = kind.byte();
    bytes::write_at(page, layout::HEADER_SIZE, body.as_slice());
    assert(page@ =~= layout::page_image(kind, count as int, body@, old(page)@.len()));
    Ok(needed)
}

/// Bytes that a page with this body takes up, where it fits.
pub fn encoded_body_len(kind: PageKind, body: &Vec<u8>, capacity: usize) -> (r: Result<
    usize,
    CowBeTreeError,
>)
    ensures
        ({
            let needed = layout::HEADER_SIZE + body@.len();
            if needed > usize::MAX {
                r == layout::corrupt::<usize>("page length overflow")
            } else if needed > capacity {
                r == Err::<usize, CowBeTreeError>(
                    CowBeTreeError::PageOverflow {
                        kind: node::kind_name(kind),
                        needed: needed as usize,
                        capacity,
                    },
                )
            } else {
                r == Ok::<usize, CowBeTreeError>(needed as usize)
            }
        }),
{
    match layout::HEADER_SIZE.checked_add(body.len()) {
        None => Err(CowBeTreeError::CorruptPage("page length overflow")),
        Some(needed) => {
            if needed > capacity {
                return Err(page_overflow(kind.name(), needed, capacity));
            }
            Ok(needed)
        },
    }
}

pub fn page_overflow(kind: &'static str, needed: usize, capacity: usize) -> (r: CowBeTreeError)
    ensures
        r == (CowBeTreeError::PageOverflow { kind, needed, capacity }),
{
    CowBeTreeError::PageOverflow { kind, needed, capacity }
}

/// Write a leaf on a page.
pub fn encode_leaf_page(page: &mut [u8], fence: &Fence, entries: &[LeafEntry]) -> (r: Result<
    usize,
    CowBeTreeError,
>)
    ensures
        ({
            let n = NodeView::Leaf { fence: fence@, entries: node::entries_view(entries@) };
            &&& r == write_result(n, old(page)@.len() as int)
            &&& final(page)@ == if r is Ok {
                node_image(n, old(page)@.len())
            } else {
                old(page)@
            }
        }),
{
    let _size: usize = page.len();
    let body = encode_leaf_body(fence, entries)?;
    finish_page(page, PageKind::Leaf, entries.len(), body)
}

/// Write an internal node on a page.
pub fn encode_internal_page(
    page: &mut [u8],
    fence: &Fence,
    children: &[u64],
    separators: &[Vec<u8>],
    buffer: &[BufferedMessage],
) -> (r: Result<usize, CowBeTreeError>)
    ensures
        ({
            let n = NodeView::Internal {
                fence: fence@,
                children: children@,
                separators: node::keys_view(separators@),
                buffer: message::messages_view(buffer@),
            };
            &&& r == write_result(n, old(page)@.len() as int)
            &&& final(page)@ == if r is Ok {
                node_image(n, old(page)@.len())
            } else {
                old(page)@
            }
        }),
{
    let _size: usize = page.len();
    let body = encode_internal_body(fence, children, separators, buffer)?;
    finish_page(page, PageKind::Internal, children.len(), body)
}

/// Bytes that a node takes up on a page of `capacity` bytes, where it fits.
pub fn encoded_page_len(n: &NodePage, capacity: usize) -> (r: Result<usize, CowBeTreeError>)
    ensures
        r == page_len(n@, capacity as int),
{
    match n {
        NodePage::Leaf { fence, entries } => leaf_page_len(fence, entries.as_slice(), capacity),
        NodePage::Internal { fence, children, separators, buffer } => internal_page_len(
            fence,
            children.as_slice(),
            separators.as_slice(),
            buffer.as_slice(),
            capacity,
        ),
    }
}

pub fn leaf_page_len(fence: &Fence, entries: &[LeafEntry], capacity: usize) -> (r: Result<
    usize,
    CowBeTreeError,
>)
    ensures
        r == page_len(
            NodeView::Leaf { fence: fence@, entries: node::entries_view(entries@) },
            capacity as int,
        ),
{
    let body = encode_leaf_body(fence, entries)?;
    encoded_body_len(PageKind::Leaf, &body, capacity)
}

pub fn internal_page_len(
    fence: &Fence,
    children: &[u64],
    separators: &[Vec<u8>],
    buffer: &[BufferedMessage],
    capacity: usize,
) -> (r: Result<usize, CowBeTreeError>)
    ensures
        r == page_len(
            NodeView::Internal {
                fence: fence@,
                children: children@,
                separators: node::keys_view(separators@),
                buffer: message::messages_view(buffer@),
            },
            capacity as int,
        ),
{
    let body = encode_internal_body(fence, children, separators, buffer)?;
    encoded_body_len(PageKind::Internal, &body, capacity)
}

} // verus!
