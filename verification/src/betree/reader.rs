//! Reading pages: the body reader and the decoding of a page into a node.
use vstd::prelude::*;

use crate::betree::layout;
use crate::betree::message;
use crate::betree::message::{BufferedMessage, MessageView, VersionRecord, VersionView};
use crate::betree::node;
use crate::betree::node::{CowBeTreeError, EntryView, Fence, LeafEntry, NodePage, PageKind};
use crate::bytes;

verus! {

/// A position in a body.
#[derive(Clone, Copy)]
pub struct BodyReader<'a> {
    pub data: &'a [u8],
    pub pos: usize,
}

/// The reader moved on to `pos`.
pub open spec fn moved(before: BodyReader<'_>, after: BodyReader<'_>, pos: int) -> bool {
    after.data == before.data && after.pos == pos
}

impl<'a> BodyReader<'a> {
    pub fn new(data: &'a [u8]) -> (r: Self)
        ensures
            r.data == data,
            r.pos == 0,
    {
        Self { data, pos: 0 }
    }

    pub fn at(data: &'a [u8], pos: usize) -> (r: Result<Self, CowBeTreeError>)
        ensures
            pos <= data@.len() ==> r is Ok && r->Ok_0.data == data && r->Ok_0.pos == pos,
            pos > data@.len() ==> r is Err && r->Err_0 == CowBeTreeError::CorruptPage(
                "body reader offset out of bounds",
            ),
    {
        if pos > data.len() {
            return Err(CowBeTreeError::CorruptPage("body reader offset out of bounds"));
        }
        Ok(Self { data, pos })
    }

    pub fn read_exact(&mut self, len: usize) -> (r: Result<&'a [u8], CowBeTreeError>)
        ensures
            match layout::p_exact(old(self).data@, old(self).pos as int, len as int) {
                Ok((s, p)) => r is Ok && r->Ok_0@ == s && moved(*old(self), *final(self), p),
                Err(e) => r is Err && r->Err_0 == e && *final(self) == *old(self),
            },
    {
        let size: usize = self.data.len();
        match self.pos.checked_add(len) {
            None => Err(CowBeTreeError::CorruptPage("body offset overflow")),
            Some(end) => {
                if end > size {
                    return Err(CowBeTreeError::CorruptPage("body read out of bounds"));
                }
                let b = vstd::slice::slice_subrange(self.data, self.pos, end);
                self.pos = end;
                Ok(b)
            },
        }
    }

    pub fn read_u8(&mut self) -> (r: Result<u8, CowBeTreeError>)
        ensures
            match layout::p_u8(old(self).data@, old(self).pos as int) {
                Ok((x, p)) => r is Ok && r->Ok_0 == x && moved(*old(self), *final(self), p),
                Err(e) => r is Err && r->Err_0 == e && *final(self) == *old(self),
            },
    {
        let s = self.read_exact(1)?;
        Ok(s[0])
    }

    pub fn read_u16(&mut self) -> (r: Result<u16, CowBeTreeError>)
        ensures
            match layout::p_u16(old(self).data@, old(self).pos as int) {
                Ok((x, p)) => r is Ok && r->Ok_0 == x && moved(*old(self), *final(self), p),
                Err(e) => r is Err && r->Err_0 == e && *final(self) == *old(self),
            },
    {
        let s = self.read_exact(2)?;
        Ok(vstd::bytes::u16_from_le_bytes(s))
    }

    pub fn read_u32(&mut self) -> (r: Result<u32, CowBeTreeError>)
        ensures
            match layout::p_u32(old(self).data@, old(self).pos as int) {
                Ok((x, p)) => r is Ok && r->Ok_0 == x && moved(*old(self), *final(self), p),
                Err(e) => r is Err && r->Err_0 == e && *final(self) == *old(self),
            },
    {
        let s = self.read_exact(4)?;
        Ok(vstd::bytes::u32_from_le_bytes(s))
    }

    pub fn read_u64(&mut self) -> (r: Result<u64, CowBeTreeError>)
        ensures
            match layout::p_u64(old(self).data@, old(self).pos as int) {
                Ok((x, p)) => r is Ok && r->Ok_0 == x && moved(*old(self), *final(self), p),
                Err(e) => r is Err && r->Err_0 == e && *final(self) == *old(self),
            },
    {
        let s = self.read_exact(8)?;
        Ok(vstd::bytes::u64_from_le_bytes(s))
    }

    pub fn read_bytes_u16_len(&mut self) -> (r: Result<&'a [u8], CowBeTreeError>)
        ensures
            final(self).data == old(self).data,
            match layout::p_bytes16(old(self).data@, old(self).pos as int) {
                Ok((s, p)) => r is Ok && r->Ok_0@ == s && moved(*old(self), *final(self), p),
                Err(e) => r is Err && r->Err_0 == e,
            },
    {
        let len: u16 = self.read_u16()?;
        self.read_exact(len as usize)
    }

    pub fn read_bytes_u32_len(&mut self) -> (r: Result<&'a [u8], CowBeTreeError>)
        ensures
            final(self).data == old(self).data,
            match layout::p_bytes32(old(self).data@, old(self).pos as int) {
                Ok((s, p)) => r is Ok && r->Ok_0@ == s && moved(*old(self), *final(self), p),
                Err(e) => r is Err && r->Err_0 == e,
            },
    {
        let len: u32 = self.read_u32()?;
        self.read_exact(len as usize)
    }
}

/// The kind of a page and a reader at the start of its body.
pub fn page_body_reader<'a>(page: &'a [u8]) -> (r: Result<
    (PageKind, BodyReader<'a>),
    CowBeTreeError,
>)
    ensures
        match layout::p_page(page@) {
            Ok((kind, body)) => r is Ok && r->Ok_0.0 == kind && r->Ok_0.1.data@ == body
                && r->Ok_0.1.pos == 0,
            Err(e) => r is Err && r->Err_0 == e,
        },
{
    if page.len() < layout::HEADER_SIZE {
        return Err(CowBeTreeError::CorruptPage("page shorter than header"));
    }
    let magic: u32 = read_u32(page, layout::MAGIC_OFF)?;
    if magic != layout::PAGE_MAGIC {
        return Err(CowBeTreeError::CorruptPage("bad page magic"));
    }
    if page[layout::VERSION_OFF] != layout::PAGE_VERSION {
        return Err(CowBeTreeError::CorruptPage("unsupported page version"));
    }
    let kind = match PageKind::from_byte(page[layout::KIND_OFF]) {
        Some(kind) => kind,
        None => {
            return Err(CowBeTreeError::CorruptPage("bad page kind"));
        },
    };
    let body_len: usize = read_u32(page, layout::BODY_LEN_OFF)? as usize;
    if body_len > page.len() - layout::HEADER_SIZE {
        return Err(CowBeTreeError::CorruptPage("page body extends past page end"));
    }
    let body = vstd::slice::slice_subrange(
        page,
        layout::HEADER_SIZE,
        layout::HEADER_SIZE + body_len,
    );
    Ok((kind, BodyReader::new(body)))
}

/// The 32-bit integer at `offset`.
pub fn read_u32(page: &[u8], offset: usize) -> (r: Result<u32, CowBeTreeError>)
    ensures
        offset + 4 <= page@.len() ==> r == Ok::<u32, CowBeTreeError>(
            bytes::of_le32(page@.subrange(offset as int, offset + 4)),
        ),
        offset + 4 > page@.len() ==> r == Err::<u32, CowBeTreeError>(
            CowBeTreeError::CorruptPage(
                if offset + 4 > usize::MAX {
                    "u32 offset overflow"
                } else {
                    "u32 read out of bounds"
                },
            ),
        ),
{
    let size: usize = page.len();
    match offset.checked_add(4) {
        None => Err(CowBeTreeError::CorruptPage("u32 offset overflow")),
        Some(end) => {
            if end > size {
                return Err(CowBeTreeError::CorruptPage("u32 read out of bounds"));
            }
            Ok(vstd::bytes::u32_from_le_bytes(vstd::slice::slice_subrange(page, offset, end)))
        },
    }
}

pub fn decode_fence(reader: &mut BodyReader<'_>) -> (r: Result<Fence, CowBeTreeError>)
    ensures
        match layout::p_fence(old(reader).data@, old(reader).pos as int) {
            Ok((f, p)) => r is Ok && r->Ok_0@ == f && moved(*old(reader), *final(reader), p),
            Err(e) => r is Err && r->Err_0 == e,
        },
{
    let lower = bytes::copy_bytes(reader.read_bytes_u16_len()?);
    let upper_len: u16 = reader.read_u16()?;
    if upper_len == layout::NONE_FENCE_LEN {
        return Ok(Fence { lower, upper: None });
    }
    let upper = bytes::copy_bytes(reader.read_exact(upper_len as usize)?);
    Ok(Fence { lower, upper: Some(upper) })
}

/// Move past the fence.
pub fn skip_fence(reader: &mut BodyReader<'_>) -> (r: Result<(), CowBeTreeError>)
    ensures
        match layout::p_fence(old(reader).data@, old(reader).pos as int) {
            Ok((f, p)) => r is Ok && moved(*old(reader), *final(reader), p),
            Err(e) => r is Err && r->Err_0 == e,
        },
{
    let _lower = reader.read_bytes_u16_len()?;
    let upper_len: u16 = reader.read_u16()?;
    if upper_len != layout::NONE_FENCE_LEN {
        let _upper = reader.read_exact(upper_len as usize)?;
    }
    Ok(())
}

/// A version whose value still lies in the page.
#[derive(Clone, Copy, Debug, PartialEq, Eq)]
pub struct RawVisibleVersion<'a> {
    pub commit_ts: u64,
    pub deleted: bool,
    pub value: &'a [u8],
}

impl<'a> View for RawVisibleVersion<'a> {
    type V = VersionView;

    open spec fn view(&self) -> VersionView {
        VersionView { commit_ts: self.commit_ts, value: self.value@, deleted: self.deleted }
    }
}

pub fn read_raw_version<'a>(reader: &mut BodyReader<'a>) -> (r: Result<
    RawVisibleVersion<'a>,
    CowBeTreeError,
>)
    ensures
        final(reader).data == old(reader).data,
        match layout::p_version(old(reader).data@, old(reader).pos as int) {
            Ok((v, p)) => r is Ok && r->Ok_0@ == v && moved(*old(reader), *final(reader), p),
            Err(e) => r is Err && r->Err_0 == e,
        },
{
    let commit_ts: u64 = reader.read_u64()?;
    let flag: u8 = reader.read_u8()?;
    if flag > 1 {
        return Err(CowBeTreeError::CorruptPage("bad version deletion flag"));
    }
    let value = reader.read_bytes_u32_len()?;
    Ok(RawVisibleVersion { commit_ts, deleted: flag == 1, value })
}

pub fn decode_version(reader: &mut BodyReader<'_>) -> (r: Result<VersionRecord, CowBeTreeError>)
    ensures
        final(reader).data == old(reader).data,
        match layout::p_version(old(reader).data@, old(reader).pos as int) {
            Ok((v, p)) => r is Ok && r->Ok_0@ == v && moved(*old(reader), *final(reader), p),
            Err(e) => r is Err && r->Err_0 == e,
        },
{
    let raw = read_raw_version(reader)?;
    Ok(
        VersionRecord {
            commit_ts: raw.commit_ts,
            value: bytes::copy_bytes(raw.value),
            deleted: raw.deleted,
        },
    )
}

pub fn decode_message(reader: &mut BodyReader<'_>) -> (r: Result<BufferedMessage, CowBeTreeError>)
    ensures
        final(reader).data == old(reader).data,
        match layout::p_message(old(reader).data@, old(reader).pos as int) {
            Ok((m, p)) => r is Ok && r->Ok_0@ == m && moved(*old(reader), *final(reader), p),
            Err(e) => r is Err && r->Err_0 == e,
        },
{
    let key = bytes::copy_bytes(reader.read_bytes_u16_len()?);
    let version = decode_version(reader)?;
    Ok(BufferedMessage { key, version })
}

fn decode_versions(reader: &mut BodyReader<'_>, count: usize) -> (r: Result<
    Vec<VersionRecord>,
    CowBeTreeError,
>)
    ensures
        final(reader).data == old(reader).data,
        match layout::p_versions(old(reader).data@, old(reader).pos as int, count as nat) {
            Ok((vs, p)) => r is Ok && message::versions_view(r->Ok_0@) == vs && moved(
                *old(reader),
                *final(reader),
                p,
            ),
            Err(e) => r is Err && r->Err_0 == e,
        },
{
    let ghost data = reader.data@;
    let ghost start = reader.pos as int;
    let ghost p = |d: Seq<u8>, q: int| layout::p_version(d, q);
    let mut versions: Vec<VersionRecord> = Vec::new();
    let mut i: usize = 0;
    proof {
        let all = layout::p_list(data, start, count as nat, p);
        assert(layout::prepend(Seq::empty(), all) == all) by {
            if all is Ok {
                assert(Seq::<VersionView>::empty() + all->Ok_0.0 =~= all->Ok_0.0);
            }
        }
        assert(message::versions_view(versions@) =~= Seq::empty());
    }
    while i < count
        invariant
            i <= count,
            reader.data == old(reader).data,
            data == reader.data@,
            start == old(reader).pos as int,
            p == (|d: Seq<u8>, q: int| layout::p_version(d, q)),
            layout::p_list(data, start, count as nat, p) == layout::prepend(
                message::versions_view(versions@),
                layout::p_list(data, reader.pos as int, (count - i) as nat, p),
            ),
        decreases count - i,
    {
        let ghost here = reader.pos as int;
        let ghost before = message::versions_view(versions@);
        let ghost rest = layout::p_list(data, here, (count - i) as nat, p);
        assert(p(data, here) == layout::p_version(data, here));
        let v = decode_version(reader)?;
        versions.push(v);
        proof {
            assert(message::versions_view(versions@) =~= before.push(v@));
            let tail = layout::p_list(data, reader.pos as int, (count - i - 1) as nat, p);
            if tail is Ok {
                assert(before + (seq![v@] + tail->Ok_0.0) =~= before.push(v@) + tail->Ok_0.0);
            }
        }
        i += 1;
    }
    proof {
        assert(message::versions_view(versions@) + Seq::empty() =~= message::versions_view(
            versions@,
        ));
    }
    Ok(versions)
}

fn decode_messages(reader: &mut BodyReader<'_>, count: usize) -> (r: Result<
    Vec<BufferedMessage>,
    CowBeTreeError,
>)
    ensures
        final(reader).data == old(reader).data,
        match layout::p_messages(old(reader).data@, old(reader).pos as int, count as nat) {
            Ok((ms, p)) => r is Ok && message::messages_view(r->Ok_0@) == ms && moved(
                *old(reader),
                *final(reader),
                p,
            ),
            Err(e) => r is Err && r->Err_0 == e,
        },
{
    let ghost data = reader.data@;
    let ghost start = reader.pos as int;
    let ghost p = |d: Seq<u8>, q: int| layout::p_message(d, q);
    let mut messages: Vec<BufferedMessage> = Vec::new();
    let mut i: usize = 0;
    proof {
        let all = layout::p_list(data, start, count as nat, p);
        assert(layout::prepend(Seq::empty(), all) == all) by {
            if all is Ok {
                assert(Seq::<MessageView>::empty() + all->Ok_0.0 =~= all->Ok_0.0);
            }
        }
        assert(message::messages_view(messages@) =~= Seq::empty());
    }
    while i < count
        invariant
            i <= count,
            reader.data == old(reader).data,
            data == reader.data@,
            start == old(reader).pos as int,
            p == (|d: Seq<u8>, q: int| layout::p_message(d, q)),
            layout::p_list(data, start, count as nat, p) == layout::prepend(
                message::messages_view(messages@),
                layout::p_list(data, reader.pos as int, (count - i) as nat, p),
            ),
        decreases count - i,
    {
        let ghost here = reader.pos as int;
        let ghost before = message::messages_view(messages@);
        let ghost rest = layout::p_list(data, here, (count - i) as nat, p);
        assert(p(data, here) == layout::p_message(data, here));
        let m = decode_message(reader)?;
        messages.push(m);
        proof {
            assert(message::messages_view(messages@) =~= before.push(m@));
            let tail = layout::p_list(data, reader.pos as int, (count - i - 1) as nat, p);
            if tail is Ok {
                assert(before + (seq![m@] + tail->Ok_0.0) =~= before.push(m@) + tail->Ok_0.0);
            }
        }
        i += 1;
    }
    proof {
        assert(message::messages_view(messages@) + Seq::empty() =~= message::messages_view(
            messages@,
        ));
    }
    Ok(messages)
}

fn decode_keys(reader: &mut BodyReader<'_>, count: usize) -> (r: Result<
    Vec<Vec<u8>>,
    CowBeTreeError,
>)
    ensures
        final(reader).data == old(reader).data,
        match layout::p_keys(old(reader).data@, old(reader).pos as int, count as nat) {
            Ok((ks, p)) => r is Ok && node::keys_view(r->Ok_0@) == ks && moved(
                *old(reader),
                *final(reader),
                p,
            ),
            Err(e) => r is Err && r->Err_0 == e,
        },
{
    let ghost data = reader.data@;
    let ghost start = reader.pos as int;
    let ghost p = |d: Seq<u8>, q: int| layout::p_bytes16(d, q);
    let mut keys: Vec<Vec<u8>> = Vec::new();
    let mut i: usize = 0;
    proof {
        let all = layout::p_list(data, start, count as nat, p);
        assert(layout::prepend(Seq::empty(), all) == all) by {
            if all is Ok {
                assert(Seq::<Seq<u8>>::empty() + all->Ok_0.0 =~= all->Ok_0.0);
            }
        }
        assert(node::keys_view(keys@) =~= Seq::empty());
    }
    while i < count
        invariant
            i <= count,
            reader.data == old(reader).data,
            data == reader.data@,
            start == old(reader).pos as int,
            p == (|d: Seq<u8>, q: int| layout::p_bytes16(d, q)),
            layout::p_list(data, start, count as nat, p) == layout::prepend(
                node::keys_view(keys@),
                layout::p_list(data, reader.pos as int, (count - i) as nat, p),
            ),
        decreases count - i,
    {
        let ghost here = reader.pos as int;
        let ghost before = node::keys_view(keys@);
        let ghost rest = layout::p_list(data, here, (count - i) as nat, p);
        assert(p(data, here) == layout::p_bytes16(data, here));
        let k = bytes::copy_bytes(reader.read_bytes_u16_len()?);
        keys.push(k);
        proof {
            assert(node::keys_view(keys@) =~= before.push(k@));
            let tail = layout::p_list(data, reader.pos as int, (count - i - 1) as nat, p);
            if tail is Ok {
                assert(before + (seq![k@] + tail->Ok_0.0) =~= before.push(k@) + tail->Ok_0.0);
            }
        }
        i += 1;
    }
    proof {
        assert(node::keys_view(keys@) + Seq::empty() =~= node::keys_view(keys@));
    }
    Ok(keys)
}

fn decode_words(reader: &mut BodyReader<'_>, count: usize) -> (r: Result<Vec<u64>, CowBeTreeError>)
    ensures
        final(reader).data == old(reader).data,
        match layout::p_words(old(reader).data@, old(reader).pos as int, count as nat) {
            Ok((ws, p)) => r is Ok && r->Ok_0@ == ws && moved(*old(reader), *final(reader), p),
            Err(e) => r is Err && r->Err_0 == e,
        },
{
    let ghost data = reader.data@;
    let ghost start = reader.pos as int;
    let ghost p = |d: Seq<u8>, q: int| layout::p_u64(d, q);
    let mut words: Vec<u64> = Vec::new();
    let mut i: usize = 0;
    proof {
        let all = layout::p_list(data, start, count as nat, p);
        assert(layout::prepend(Seq::empty(), all) == all) by {
            if all is Ok {
                assert(Seq::<u64>::empty() + all->Ok_0.0 =~= all->Ok_0.0);
            }
        }
        assert(words@ =~= Seq::empty());
    }
    while i < count
        invariant
            i <= count,
            reader.data == old(reader).data,
            data == reader.data@,
            start == old(reader).pos as int,
            p == (|d: Seq<u8>, q: int| layout::p_u64(d, q)),
            layout::p_list(data, start, count as nat, p) == layout::prepend(
                words@,
                layout::p_list(data, reader.pos as int, (count - i) as nat, p),
            ),
        decreases count - i,
    {
        let ghost here = reader.pos as int;
        let ghost before = words@;
        let ghost rest = layout::p_list(data, here, (count - i) as nat, p);
        assert(p(data, here) == layout::p_u64(data, here));
        let w: u64 = reader.read_u64()?;
        words.push(w);
        proof {
            let tail = layout::p_list(data, reader.pos as int, (count - i - 1) as nat, p);
            if tail is Ok {
                assert(before + (seq![w] + tail->Ok_0.0) =~= words@ + tail->Ok_0.0);
            }
        }
        i += 1;
    }
    proof {
        assert(words@ + Seq::empty() =~= words@);
    }
    Ok(words)
}

/// Where the directory of a leaf body begins.
pub fn leaf_directory_start(body_len: usize, entry_count: usize) -> (r: Result<
    usize,
    CowBeTreeError,
>)
    ensures
        match layout::p_dir_start(body_len as int, entry_count as int) {
            Ok(dir) => r is Ok && r->Ok_0 == dir,
            Err(e) => r is Err && r->Err_0 == e,
        },
{
    match entry_count.checked_mul(layout::LEAF_DIR_ENTRY_SIZE) {
        None => Err(CowBeTreeError::CorruptPage("leaf directory length overflow")),
        Some(directory_len) => {
            if directory_len > body_len {
                return Err(
                    CowBeTreeError::CorruptPage("leaf directory extends before body start"),
                );
            }
            Ok(body_len - directory_len)
        },
    }
}

/// The offset of entry `idx`, as the directory gives it.
pub fn read_leaf_entry_offset(data: &[u8], directory_start: usize, idx: usize) -> (r: Result<
    usize,
    CowBeTreeError,
>)
    ensures
        match layout::p_dir_offset(data@, directory_start as int, idx as int) {
            Ok(offset) => r is Ok && r->Ok_0 == offset,
            Err(e) => r is Err && r->Err_0 == e,
        },
{
    let size: usize = data.len();
    let scaled: usize = match idx.checked_mul(layout::LEAF_DIR_ENTRY_SIZE) {
        Some(scaled) => scaled,
        None => {
            return Err(CowBeTreeError::CorruptPage("leaf directory offset overflow"));
        },
    };
    let start: usize = match directory_start.checked_add(scaled) {
        Some(start) => start,
        None => {
            return Err(CowBeTreeError::CorruptPage("leaf directory offset overflow"));
        },
    };
    let end: usize = match start.checked_add(layout::LEAF_DIR_ENTRY_SIZE) {
        Some(end) => end,
        None => {
            return Err(CowBeTreeError::CorruptPage("leaf directory offset overflow"));
        },
    };
    if end > size {
        return Err(CowBeTreeError::CorruptPage("leaf directory read out of bounds"));
    }
    let offset: usize = vstd::bytes::u32_from_le_bytes(
        vstd::slice::slice_subrange(data, start, end),
    ) as usize;
    if offset >= directory_start {
        return Err(CowBeTreeError::CorruptPage("leaf entry offset points into directory"));
    }
    Ok(offset)
}

/// The entry count and the directory start of a leaf body, from a reader that
/// stands behind the fence.
pub fn read_leaf_header(reader: &mut BodyReader<'_>) -> (r: Result<(usize, usize), CowBeTreeError>)
    ensures
        final(reader).data == old(reader).data,
        match layout::p_leaf_header(old(reader).data@, old(reader).pos as int) {
            Ok((n, p, dir)) => r is Ok && r->Ok_0.0 == n && r->Ok_0.1 == dir && final(reader).pos
                == p,
            Err(e) => r is Err && r->Err_0 == e,
        },
{
    let entry_count: usize = reader.read_u16()? as usize;
    let directory_start: usize = leaf_directory_start(reader.data.len(), entry_count)?;
    if reader.pos > directory_start {
        return Err(CowBeTreeError::CorruptPage("leaf directory overlaps entry header"));
    }
    Ok((entry_count, directory_start))
}

fn decode_entry(reader: &mut BodyReader<'_>) -> (r: Result<LeafEntry, CowBeTreeError>)
    ensures
        final(reader).data == old(reader).data,
        match layout::p_entry(old(reader).data@, old(reader).pos as int) {
            Ok((e, p)) => r is Ok && r->Ok_0@ == e && moved(*old(reader), *final(reader), p),
            Err(e) => r is Err && r->Err_0 == e,
        },
{
    let key = bytes::copy_bytes(reader.read_bytes_u16_len()?);
    let version_count: usize = reader.read_u16()? as usize;
    let versions = decode_versions(reader, version_count)?;
    Ok(LeafEntry { key, versions })
}

fn decode_entries(reader: &mut BodyReader<'_>, directory_start: usize, count: usize) -> (r: Result<
    Vec<LeafEntry>,
    CowBeTreeError,
>)
    ensures
        final(reader).data == old(reader).data,
        match layout::p_entries(
            old(reader).data@,
            directory_start as int,
            old(reader).pos as int,
            0,
            count as nat,
        ) {
            Ok((es, p)) => r is Ok && node::entries_view(r->Ok_0@) == es && moved(
                *old(reader),
                *final(reader),
                p,
            ),
            Err(e) => r is Err && r->Err_0 == e,
        },
{
    let ghost data = reader.data@;
    let ghost start = reader.pos as int;
    let ghost dir = directory_start as int;
    let mut entries: Vec<LeafEntry> = Vec::new();
    let mut i: usize = 0;
    proof {
        let all = layout::p_entries(data, dir, start, 0, count as nat);
        assert(layout::prepend(Seq::empty(), all) == all) by {
            if all is Ok {
                assert(Seq::<EntryView>::empty() + all->Ok_0.0 =~= all->Ok_0.0);
            }
        }
        assert(node::entries_view(entries@) =~= Seq::empty());
    }
    while i < count
        invariant
            i <= count,
            reader.data == old(reader).data,
            data == reader.data@,
            start == old(reader).pos as int,
            dir == directory_start,
            layout::p_entries(data, dir, start, 0, count as nat) == layout::prepend(
                node::entries_view(entries@),
                layout::p_entries(data, dir, reader.pos as int, i as int, (count - i) as nat),
            ),
        decreases count - i,
    {
        let ghost here = reader.pos as int;
        let ghost before = node::entries_view(entries@);
        let ghost rest = layout::p_entries(data, dir, here, i as int, (count - i) as nat);
        let expected: usize = read_leaf_entry_offset(reader.data, directory_start, i)?;
        if expected != reader.pos {
            return Err(CowBeTreeError::CorruptPage("leaf entry offset directory mismatch"));
        }
        let e = decode_entry(reader)?;
        entries.push(e);
        proof {
            assert(node::entries_view(entries@) =~= before.push(e@));
            let tail = layout::p_entries(
                data,
                dir,
                reader.pos as int,
                i + 1,
                (count - i - 1) as nat,
            );
            if tail is Ok {
                assert(before + (seq![e@] + tail->Ok_0.0) =~= before.push(e@) + tail->Ok_0.0);
            }
        }
        i += 1;
    }
    proof {
        assert(node::entries_view(entries@) + Seq::empty() =~= node::entries_view(entries@));
    }
    Ok(entries)
}

/// Check that the keys of the entries are strictly ascending.
pub fn validate_leaf_order(entries: &[LeafEntry]) -> (r: Result<(), CowBeTreeError>)
    ensures
        node::sorted_entries(node::entries_view(entries@)) ==> r is Ok,
        !node::sorted_entries(node::entries_view(entries@)) ==> r is Err && r->Err_0
            == CowBeTreeError::CorruptPage("leaf keys are not strictly sorted"),
{
    let ghost es = node::entries_view(entries@);
    let mut i: usize = 1;
    while i < entries.len()
        invariant
            1 <= i,
            es == node::entries_view(entries@),
            forall|a: int, b: int|
                #![trigger es[a], es[b]]
                0 <= a < b < i && b < es.len() ==> bytes::lex_lt(es[a].key, es[b].key),
        decreases entries@.len() - i,
    {
        if !bytes::key_less(entries[i - 1].key.as_slice(), entries[i].key.as_slice()) {
            assert(!bytes::lex_lt(es[i - 1].key, es[i as int].key));
            return Err(CowBeTreeError::CorruptPage("leaf keys are not strictly sorted"));
        }
        proof {
            assert(bytes::lex_lt(es[i - 1].key, es[i as int].key));
            assert forall|a: int, b: int|
                #![trigger es[a], es[b]]
                0 <= a < b < i + 1 && b < es.len() implies bytes::lex_lt(es[a].key, es[b].key) by {
                if b == i && a < i - 1 {
                    bytes::lex_lt_transitive(es[a].key, es[i - 1].key, es[i as int].key);
                }
            }
        }
        i += 1;
    }
    Ok(())
}

/// Check that the separators are strictly ascending.
pub fn validate_separator_order(separators: &[Vec<u8>]) -> (r: Result<(), CowBeTreeError>)
    ensures
        node::sorted_keys(node::keys_view(separators@)) ==> r is Ok,
        !node::sorted_keys(node::keys_view(separators@)) ==> r is Err && r->Err_0
            == CowBeTreeError::CorruptPage("internal separators are not strictly sorted"),
{
    let ghost ks = node::keys_view(separators@);
    let mut i: usize = 1;
    while i < separators.len()
        invariant
            1 <= i,
            ks == node::keys_view(separators@),
            forall|a: int, b: int|
                #![trigger ks[a], ks[b]]
                0 <= a < b < i && b < ks.len() ==> bytes::lex_lt(ks[a], ks[b]),
        decreases separators@.len() - i,
    {
        if !bytes::key_less(separators[i - 1].as_slice(), separators[i].as_slice()) {
            assert(!bytes::lex_lt(ks[i - 1], ks[i as int]));
            return Err(CowBeTreeError::CorruptPage("internal separators are not strictly sorted"));
        }
        proof {
            assert(bytes::lex_lt(ks[i - 1], ks[i as int]));
            assert forall|a: int, b: int|
                #![trigger ks[a], ks[b]]
                0 <= a < b < i + 1 && b < ks.len() implies bytes::lex_lt(ks[a], ks[b]) by {
                if b == i && a < i - 1 {
                    bytes::lex_lt_transitive(ks[a], ks[i - 1], ks[i as int]);
                }
            }
        }
        i += 1;
    }
    Ok(())
}

fn decode_leaf(reader: BodyReader<'_>, fence: Fence) -> (r: Result<NodePage, CowBeTreeError>)
    ensures
        match layout::p_leaf(reader.data@, reader.pos as int, fence@) {
            Ok(n) => r is Ok && r->Ok_0@ == n,
            Err(e) => r is Err && r->Err_0 == e,
        },
{
    let mut reader = reader;
    let (entry_count, directory_start) = read_leaf_header(&mut reader)?;
    let entries = decode_entries(&mut reader, directory_start, entry_count)?;
    if reader.pos != directory_start {
        return Err(CowBeTreeError::CorruptPage("leaf entries do not end at offset directory"));
    }
    validate_leaf_order(entries.as_slice())?;
    Ok(NodePage::Leaf { fence, entries })
}

/// The counts of children, separators and messages, from a reader that stands
/// behind the fence.
pub fn read_internal_header(reader: &mut BodyReader<'_>) -> (r: Result<
    (usize, usize, usize),
    CowBeTreeError,
>)
    ensures
        final(reader).data == old(reader).data,
        match layout::p_internal_header(old(reader).data@, old(reader).pos as int) {
            Ok((nc, ns, nb, p)) => r is Ok && r->Ok_0.0 == nc && r->Ok_0.1 == ns && r->Ok_0.2 == nb
                && final(reader).pos == p && p == old(reader).pos + 6,
            Err(e) => r is Err && r->Err_0 == e,
        },
{
    let child_count: usize = reader.read_u16()? as usize;
    let separator_count: usize = reader.read_u16()? as usize;
    let buffer_count: usize = reader.read_u16()? as usize;
    if child_count == 0 {
        return Err(CowBeTreeError::EmptyInternalPage);
    }
    if separator_count + 1 != child_count {
        return Err(
            CowBeTreeError::CorruptPage("internal separator count does not match child count"),
        );
    }
    Ok((child_count, separator_count, buffer_count))
}

fn decode_internal(reader: BodyReader<'_>, fence: Fence) -> (r: Result<NodePage, CowBeTreeError>)
    ensures
        match layout::p_internal(reader.data@, reader.pos as int, fence@) {
            Ok(n) => r is Ok && r->Ok_0@ == n,
            Err(e) => r is Err && r->Err_0 == e,
        },
{
    let mut reader = reader;
    let (child_count, separator_count, buffer_count) = read_internal_header(&mut reader)?;
    let children = decode_words(&mut reader, child_count)?;
    let separators = decode_keys(&mut reader, separator_count)?;
    validate_separator_order(separators.as_slice())?;
    let buffer = decode_messages(&mut reader, buffer_count)?;
    if reader.pos != reader.data.len() {
        return Err(CowBeTreeError::CorruptPage("internal buffer length mismatch"));
    }
    Ok(NodePage::Internal { fence, children, separators, buffer })
}

/// The node that a page holds.
pub fn decode_page(page: &[u8]) -> (r: Result<NodePage, CowBeTreeError>)
    ensures
        match layout::parse_page(page@) {
            Ok(n) => r is Ok && r->Ok_0@ == n,
            Err(e) => r is Err && r->Err_0 == e,
        },
{
    let (kind, mut reader) = page_body_reader(page)?;
    let fence = decode_fence(&mut reader)?;
    match kind {
        PageKind::Leaf => decode_leaf(reader, fence),
        PageKind::Internal => decode_internal(reader, fence),
    }
}

} // verus!
