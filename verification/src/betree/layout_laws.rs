//! Laws of the page format: what was written is read back, and a page that can
//! be read holds exactly the body that its node is written as.
use vstd::prelude::*;

use crate::betree::layout;
use crate::betree::message::{MessageView, VersionView};
use crate::betree::node;
use crate::betree::node::{CowBeTreeError, EntryView, FenceView, NodeView, PageKind};
use crate::bytes;

verus! {

broadcast use {layout::at_concat, bytes::group_le};

pub proof fn bytes16_written(data: Seq<u8>, pos: int, b: Seq<u8>)
    requires
        layout::at(data, pos, layout::enc_bytes16(b)),
        b.len() <= u16::MAX,
    ensures
        layout::p_bytes16(data, pos) == Ok::<_, CowBeTreeError>((b, pos + 2 + b.len())),
{
}

pub proof fn bytes16_read(data: Seq<u8>, pos: int)
    requires
        0 <= pos,
        layout::p_bytes16(data, pos) is Ok,
    ensures
        ({
            let (b, p) = layout::p_bytes16(data, pos)->Ok_0;
            &&& layout::at(data, pos, layout::enc_bytes16(b))
            &&& p == pos + 2 + b.len()
            &&& b.len() <= u16::MAX
        }),
{
}

pub proof fn bytes32_written(data: Seq<u8>, pos: int, b: Seq<u8>)
    requires
        layout::at(data, pos, layout::enc_bytes32(b)),
        b.len() <= u32::MAX,
    ensures
        layout::p_bytes32(data, pos) == Ok::<_, CowBeTreeError>((b, pos + 4 + b.len())),
{
}

pub proof fn bytes32_read(data: Seq<u8>, pos: int)
    requires
        0 <= pos,
        layout::p_bytes32(data, pos) is Ok,
    ensures
        ({
            let (b, p) = layout::p_bytes32(data, pos)->Ok_0;
            &&& layout::at(data, pos, layout::enc_bytes32(b))
            &&& p == pos + 4 + b.len()
            &&& b.len() <= u32::MAX
        }),
{
}

pub proof fn fence_written(data: Seq<u8>, pos: int, fence: FenceView)
    requires
        layout::at(data, pos, layout::enc_fence(fence)),
        layout::fence_fits(fence),
    ensures
        layout::p_fence(data, pos) == Ok::<_, CowBeTreeError>(
            (fence, pos + layout::enc_fence(fence).len()),
        ),
{
    bytes16_written(data, pos, fence.lower);
    let p1 = pos + 2 + fence.lower.len();
    match fence.upper {
        Some(u) => {
            assert(layout::at(data, p1, layout::enc_bytes16(u)));
            bytes16_written(data, p1, u);
            assert(u.len() as u16 != layout::NONE_FENCE_LEN);
        },
        None => {
            assert(layout::at(data, p1, bytes::le16(layout::NONE_FENCE_LEN)));
        },
    }
}

pub proof fn fence_read(data: Seq<u8>, pos: int)
    requires
        0 <= pos,
        layout::p_fence(data, pos) is Ok,
    ensures
        ({
            let (fence, p) = layout::p_fence(data, pos)->Ok_0;
            &&& layout::at(data, pos, layout::enc_fence(fence))
            &&& p == pos + layout::enc_fence(fence).len()
            &&& layout::fence_fits(fence)
        }),
{
    bytes16_read(data, pos);
    let (lower, p1) = layout::p_bytes16(data, pos)->Ok_0;
    let (n, p2) = layout::p_u16(data, p1)->Ok_0;
    assert(bytes::le16(n) == data.subrange(p1, p1 + 2));
    assert(layout::at(data, p1, bytes::le16(n)));
    if n != layout::NONE_FENCE_LEN {
        bytes16_read(data, p1);
    }
}

pub proof fn version_written(data: Seq<u8>, pos: int, v: VersionView)
    requires
        layout::at(data, pos, layout::enc_version(v)),
        layout::version_fits(v),
    ensures
        layout::p_version(data, pos) == Ok::<_, CowBeTreeError>(
            (v, pos + layout::enc_version(v).len()),
        ),
{
    let flag = seq![layout::flag_byte(v.deleted)];
    assert(layout::at(data, pos, bytes::le64(v.commit_ts)));
    assert(layout::at(data, pos + 8, flag + layout::enc_bytes32(v.value)));
    assert(layout::at(data, pos + 8, flag));
    assert(data.subrange(pos + 8, pos + 9)[0] == flag[0]);
    bytes32_written(data, pos + 9, v.value);
}

pub proof fn version_read(data: Seq<u8>, pos: int)
    requires
        0 <= pos,
        layout::p_version(data, pos) is Ok,
    ensures
        ({
            let (v, p) = layout::p_version(data, pos)->Ok_0;
            &&& layout::at(data, pos, layout::enc_version(v))
            &&& p == pos + layout::enc_version(v).len()
            &&& layout::version_fits(v)
        }),
{
    let (v, p) = layout::p_version(data, pos)->Ok_0;
    let flag = seq![layout::flag_byte(v.deleted)];
    assert(layout::at(data, pos, bytes::le64(v.commit_ts)));
    assert(data.subrange(pos + 8, pos + 9) =~= flag);
    assert(layout::at(data, pos + 8, flag));
    bytes32_read(data, pos + 9);
    assert(layout::at(data, pos + 8, flag + layout::enc_bytes32(v.value)));
}

pub proof fn message_written(data: Seq<u8>, pos: int, m: MessageView)
    requires
        layout::at(data, pos, layout::enc_message(m)),
        layout::message_fits(m),
    ensures
        layout::p_message(data, pos) == Ok::<_, CowBeTreeError>(
            (m, pos + layout::enc_message(m).len()),
        ),
{
    bytes16_written(data, pos, m.key);
    version_written(data, pos + 2 + m.key.len(), m.version);
}

pub proof fn message_read(data: Seq<u8>, pos: int)
    requires
        0 <= pos,
        layout::p_message(data, pos) is Ok,
    ensures
        ({
            let (m, p) = layout::p_message(data, pos)->Ok_0;
            &&& layout::at(data, pos, layout::enc_message(m))
            &&& p == pos + layout::enc_message(m).len()
            &&& layout::message_fits(m)
        }),
{
    bytes16_read(data, pos);
    let (key, p1) = layout::p_bytes16(data, pos)->Ok_0;
    version_read(data, p1);
}

/// A list is read back item by item.
pub proof fn list_written<A>(
    data: Seq<u8>,
    pos: int,
    s: Seq<A>,
    f: spec_fn(A) -> Seq<u8>,
    p: spec_fn(Seq<u8>, int) -> Result<(A, int), CowBeTreeError>,
)
    requires
        layout::at(data, pos, layout::flat(s, f)),
        forall|i: int, q: int|
            #![trigger layout::at(data, q, f(s[i]))]
            0 <= i < s.len() && layout::at(data, q, f(s[i])) ==> p(data, q) == Ok::<
                _,
                CowBeTreeError,
            >((s[i], q + f(s[i]).len())),
    ensures
        layout::p_list(data, pos, s.len(), p) == Ok::<_, CowBeTreeError>(
            (s, pos + layout::flat(s, f).len()),
        ),
    decreases s.len(),
{
    if s.len() == 0 {
        assert(s =~= Seq::<A>::empty());
    } else {
        let rest = s.skip(1);
        assert(layout::at(data, pos, f(s[0])));
        assert forall|i: int, q: int|
            #![trigger layout::at(data, q, f(rest[i]))]
            0 <= i < rest.len() && layout::at(data, q, f(rest[i])) implies p(data, q) == Ok::<
            _,
            CowBeTreeError,
        >((rest[i], q + f(rest[i]).len())) by {
            assert(rest[i] == s[i + 1]);
            assert(layout::at(data, q, f(s[i + 1])));
        }
        list_written(data, pos + f(s[0]).len(), rest, f, p);
        assert(seq![s[0]] + rest =~= s);
    }
}

/// A list that was read stands in the data item by item.
pub proof fn list_read<A>(
    data: Seq<u8>,
    pos: int,
    n: nat,
    f: spec_fn(A) -> Seq<u8>,
    p: spec_fn(Seq<u8>, int) -> Result<(A, int), CowBeTreeError>,
    good: spec_fn(A) -> bool,
)
    requires
        0 <= pos <= data.len(),
        layout::p_list(data, pos, n, p) is Ok,
        forall|q: int|
            #![trigger p(data, q)]
            0 <= q && p(data, q) is Ok ==> ({
                let (x, q2) = p(data, q)->Ok_0;
                layout::at(data, q, f(x)) && q2 == q + f(x).len() && good(x)
            }),
    ensures
        ({
            let (xs, p2) = layout::p_list(data, pos, n, p)->Ok_0;
            &&& xs.len() == n
            &&& layout::at(data, pos, layout::flat(xs, f))
            &&& p2 == pos + layout::flat(xs, f).len()
            &&& forall|i: int| 0 <= i < xs.len() ==> good(#[trigger] xs[i])
        }),
    decreases n,
{
    let (xs, p2) = layout::p_list(data, pos, n, p)->Ok_0;
    if n == 0 {
        assert(data.subrange(pos, pos) =~= Seq::<u8>::empty());
    } else {
        let (x, p1) = p(data, pos)->Ok_0;
        list_read(data, p1, (n - 1) as nat, f, p, good);
        let (rest, _) = layout::p_list(data, p1, (n - 1) as nat, p)->Ok_0;
        assert(xs == seq![x] + rest);
        assert(xs.skip(1) =~= rest);
        assert(xs[0] == x);
        assert(layout::at(data, pos, f(x) + layout::flat(rest, f)));
        assert forall|i: int| 0 <= i < xs.len() implies good(#[trigger] xs[i]) by {
            if i > 0 {
                assert(xs[i] == rest[i - 1]);
            }
        }
    }
}

pub proof fn versions_written(data: Seq<u8>, pos: int, vs: Seq<VersionView>)
    requires
        layout::at(data, pos, layout::enc_versions(vs)),
        forall|i: int| 0 <= i < vs.len() ==> layout::version_fits(#[trigger] vs[i]),
    ensures
        layout::p_versions(data, pos, vs.len()) == Ok::<_, CowBeTreeError>(
            (vs, pos + layout::enc_versions(vs).len()),
        ),
{
    let f = |v: VersionView| layout::enc_version(v);
    let p = |d: Seq<u8>, q: int| layout::p_version(d, q);
    assert forall|i: int, q: int|
        #![trigger layout::at(data, q, f(vs[i]))]
        0 <= i < vs.len() && layout::at(data, q, f(vs[i])) implies p(data, q) == Ok::<
        _,
        CowBeTreeError,
    >((vs[i], q + f(vs[i]).len())) by {
        version_written(data, q, vs[i]);
    }
    list_written(data, pos, vs, f, p);
}

pub proof fn versions_read(data: Seq<u8>, pos: int, n: nat)
    requires
        0 <= pos <= data.len(),
        layout::p_versions(data, pos, n) is Ok,
    ensures
        ({
            let (vs, p2) = layout::p_versions(data, pos, n)->Ok_0;
            &&& vs.len() == n
            &&& layout::at(data, pos, layout::enc_versions(vs))
            &&& p2 == pos + layout::enc_versions(vs).len()
            &&& forall|i: int| 0 <= i < vs.len() ==> layout::version_fits(#[trigger] vs[i])
        }),
{
    let f = |v: VersionView| layout::enc_version(v);
    let p = |d: Seq<u8>, q: int| layout::p_version(d, q);
    let good = |v: VersionView| layout::version_fits(v);
    assert forall|q: int|
        #![trigger p(data, q)]
        0 <= q && p(data, q) is Ok implies ({
        let (x, q2) = p(data, q)->Ok_0;
        layout::at(data, q, f(x)) && q2 == q + f(x).len() && good(x)
    }) by {
        version_read(data, q);
    }
    list_read(data, pos, n, f, p, good);
    let (vs, _) = layout::p_versions(data, pos, n)->Ok_0;
    assert forall|i: int| 0 <= i < vs.len() implies layout::version_fits(#[trigger] vs[i]) by {
        assert(good(vs[i]));
    }
}

pub proof fn messages_written(data: Seq<u8>, pos: int, ms: Seq<MessageView>)
    requires
        layout::at(data, pos, layout::enc_messages(ms)),
        forall|i: int| 0 <= i < ms.len() ==> layout::message_fits(#[trigger] ms[i]),
    ensures
        layout::p_messages(data, pos, ms.len()) == Ok::<_, CowBeTreeError>(
            (ms, pos + layout::enc_messages(ms).len()),
        ),
{
    let f = |m: MessageView| layout::enc_message(m);
    let p = |d: Seq<u8>, q: int| layout::p_message(d, q);
    assert forall|i: int, q: int|
        #![trigger layout::at(data, q, f(ms[i]))]
        0 <= i < ms.len() && layout::at(data, q, f(ms[i])) implies p(data, q) == Ok::<
        _,
        CowBeTreeError,
    >((ms[i], q + f(ms[i]).len())) by {
        message_written(data, q, ms[i]);
    }
    list_written(data, pos, ms, f, p);
}

pub proof fn messages_read(data: Seq<u8>, pos: int, n: nat)
    requires
        0 <= pos <= data.len(),
        layout::p_messages(data, pos, n) is Ok,
    ensures
        ({
            let (ms, p2) = layout::p_messages(data, pos, n)->Ok_0;
            &&& ms.len() == n
            &&& layout::at(data, pos, layout::enc_messages(ms))
            &&& p2 == pos + layout::enc_messages(ms).len()
            &&& forall|i: int| 0 <= i < ms.len() ==> layout::message_fits(#[trigger] ms[i])
        }),
{
    let f = |m: MessageView| layout::enc_message(m);
    let p = |d: Seq<u8>, q: int| layout::p_message(d, q);
    let good = |m: MessageView| layout::message_fits(m);
    assert forall|q: int|
        #![trigger p(data, q)]
        0 <= q && p(data, q) is Ok implies ({
        let (x, q2) = p(data, q)->Ok_0;
        layout::at(data, q, f(x)) && q2 == q + f(x).len() && good(x)
    }) by {
        message_read(data, q);
    }
    list_read(data, pos, n, f, p, good);
    let (ms, _) = layout::p_messages(data, pos, n)->Ok_0;
    assert forall|i: int| 0 <= i < ms.len() implies layout::message_fits(#[trigger] ms[i]) by {
        assert(good(ms[i]));
    }
}

pub proof fn keys_written(data: Seq<u8>, pos: int, ks: Seq<Seq<u8>>)
    requires
        layout::at(data, pos, layout::enc_keys(ks)),
        forall|i: int| 0 <= i < ks.len() ==> (#[trigger] ks[i]).len() <= u16::MAX,
    ensures
        layout::p_keys(data, pos, ks.len()) == Ok::<_, CowBeTreeError>(
            (ks, pos + layout::enc_keys(ks).len()),
        ),
{
    let f = |k: Seq<u8>| layout::enc_bytes16(k);
    let p = |d: Seq<u8>, q: int| layout::p_bytes16(d, q);
    assert forall|i: int, q: int|
        #![trigger layout::at(data, q, f(ks[i]))]
        0 <= i < ks.len() && layout::at(data, q, f(ks[i])) implies p(data, q) == Ok::<
        _,
        CowBeTreeError,
    >((ks[i], q + f(ks[i]).len())) by {
        bytes16_written(data, q, ks[i]);
    }
    list_written(data, pos, ks, f, p);
}

pub proof fn keys_read(data: Seq<u8>, pos: int, n: nat)
    requires
        0 <= pos <= data.len(),
        layout::p_keys(data, pos, n) is Ok,
    ensures
        ({
            let (ks, p2) = layout::p_keys(data, pos, n)->Ok_0;
            &&& ks.len() == n
            &&& layout::at(data, pos, layout::enc_keys(ks))
            &&& p2 == pos + layout::enc_keys(ks).len()
            &&& forall|i: int| 0 <= i < ks.len() ==> (#[trigger] ks[i]).len() <= u16::MAX
        }),
{
    let f = |k: Seq<u8>| layout::enc_bytes16(k);
    let p = |d: Seq<u8>, q: int| layout::p_bytes16(d, q);
    let good = |k: Seq<u8>| k.len() <= u16::MAX;
    assert forall|q: int|
        #![trigger p(data, q)]
        0 <= q && p(data, q) is Ok implies ({
        let (x, q2) = p(data, q)->Ok_0;
        layout::at(data, q, f(x)) && q2 == q + f(x).len() && good(x)
    }) by {
        bytes16_read(data, q);
    }
    list_read(data, pos, n, f, p, good);
    let (ks, _) = layout::p_keys(data, pos, n)->Ok_0;
    assert forall|i: int| 0 <= i < ks.len() implies (#[trigger] ks[i]).len() <= u16::MAX by {
        assert(good(ks[i]));
    }
}

pub proof fn words_written(data: Seq<u8>, pos: int, ws: Seq<u64>)
    requires
        layout::at(data, pos, layout::enc_words(ws)),
    ensures
        layout::p_words(data, pos, ws.len()) == Ok::<_, CowBeTreeError>(
            (ws, pos + layout::enc_words(ws).len()),
        ),
{
    let f = |w: u64| bytes::le64(w);
    let p = |d: Seq<u8>, q: int| layout::p_u64(d, q);
    list_written(data, pos, ws, f, p);
}

pub proof fn words_read(data: Seq<u8>, pos: int, n: nat)
    requires
        0 <= pos <= data.len(),
        layout::p_words(data, pos, n) is Ok,
    ensures
        ({
            let (ws, p2) = layout::p_words(data, pos, n)->Ok_0;
            &&& ws.len() == n
            &&& layout::at(data, pos, layout::enc_words(ws))
            &&& p2 == pos + layout::enc_words(ws).len()
        }),
{
    let f = |w: u64| bytes::le64(w);
    let p = |d: Seq<u8>, q: int| layout::p_u64(d, q);
    let good = |w: u64| true;
    assert forall|q: int|
        #![trigger p(data, q)]
        0 <= q && p(data, q) is Ok implies ({
        let (x, q2) = p(data, q)->Ok_0;
        layout::at(data, q, f(x)) && q2 == q + f(x).len() && good(x)
    }) by {
        assert(bytes::le64(bytes::of_le64(data.subrange(q, q + 8))) == data.subrange(q, q + 8));
    }
    list_read(data, pos, n, f, p, good);
}

pub proof fn entry_written(data: Seq<u8>, pos: int, e: EntryView)
    requires
        layout::at(data, pos, layout::enc_entry(e)),
        layout::entry_fits(e),
    ensures
        layout::p_entry(data, pos) == Ok::<_, CowBeTreeError>(
            (e, pos + layout::enc_entry(e).len()),
        ),
{
    bytes16_written(data, pos, e.key);
    let p1 = pos + 2 + e.key.len();
    assert(layout::at(data, p1, bytes::le16(e.versions.len() as u16)));
    versions_written(data, p1 + 2, e.versions);
}

pub proof fn entry_read(data: Seq<u8>, pos: int)
    requires
        0 <= pos,
        layout::p_entry(data, pos) is Ok,
    ensures
        ({
            let (e, p) = layout::p_entry(data, pos)->Ok_0;
            &&& layout::at(data, pos, layout::enc_entry(e))
            &&& p == pos + layout::enc_entry(e).len()
            &&& layout::entry_fits(e)
        }),
{
    bytes16_read(data, pos);
    let (key, p1) = layout::p_bytes16(data, pos)->Ok_0;
    let (n, p2) = layout::p_u16(data, p1)->Ok_0;
    assert(bytes::le16(n) == data.subrange(p1, p1 + 2));
    assert(layout::at(data, p1, bytes::le16(n)));
    versions_read(data, p2, n as nat);
    let (vs, _) = layout::p_versions(data, p2, n as nat)->Ok_0;
    assert(layout::at(data, p1, bytes::le16(vs.len() as u16) + layout::enc_versions(vs)));
}

/// The offsets of a leaf body's entries stand in its directory.
proof fn directory_written(data: Seq<u8>, dir: int, offsets: Seq<u32>, i: int)
    requires
        layout::at(data, dir, layout::enc_offsets(offsets)),
        0 <= i < offsets.len(),
    ensures
        layout::at(data, dir + i * 4, bytes::le32(offsets[i])),
        layout::enc_offsets(offsets).len() == offsets.len() * 4,
{
    let f = |o: u32| bytes::le32(o);
    layout::flat_fixed(offsets, f, 4);
    let b = layout::enc_offsets(offsets);
    assert(layout::at(b, i * 4, f(offsets[i])));
    assert(data.subrange(dir + i * 4, dir + i * 4 + 4) =~= data.subrange(
        dir,
        dir + b.len(),
    ).subrange(i * 4, i * 4 + 4));
}

#[verifier::rlimit(60)]
#[verifier::spinoff_prover]
pub proof fn entries_written(
    data: Seq<u8>,
    base: int,
    es: Seq<EntryView>,
    i: int,
)
    requires
        layout::at(data, base, layout::enc_entries(es)),
        layout::at(
            data,
            base + layout::enc_entries(es).len(),
            layout::enc_offsets(layout::entry_offsets(base, es)),
        ),
        forall|j: int| 0 <= j < es.len() ==> layout::entry_fits(#[trigger] es[j]),
        forall|j: int|
            0 <= j < es.len() ==> #[trigger] layout::entry_offset(base, es, j) <= u32::MAX,
        0 <= i <= es.len(),
    ensures
        ({
            let dir = base + layout::enc_entries(es).len();
            &&& layout::p_entries(
                data,
                dir,
                layout::entry_offset(base, es, i),
                i,
                (es.len() - i) as nat,
            ) == Ok::<_, CowBeTreeError>((es.skip(i), dir as int))
            &&& forall|j: int|
                i <= j < es.len() ==> {
                    &&& #[trigger] layout::p_dir_offset(data, dir as int, j) == Ok::<
                        _,
                        CowBeTreeError,
                    >(layout::entry_offset(base, es, j))
                    &&& layout::at(data, layout::entry_offset(base, es, j), layout::enc_entry(es[j]))
                    &&& layout::entry_offset(base, es, j + 1) == layout::entry_offset(base, es, j)
                        + layout::enc_entry(es[j]).len()
                }
        }),
    decreases es.len() - i,
{
    let f = |e: EntryView| layout::enc_entry(e);
    let dir = base + layout::enc_entries(es).len();
    let off = layout::entry_offset(base, es, i);
    if i == es.len() {
        assert(es.take(i) =~= es);
        assert(es.skip(i) =~= Seq::<EntryView>::empty());
    } else {
        layout::flat_split(es, i, f);
        entries_written(data, base, es, i + 1);
        let before = layout::enc_entries(es.take(i));
        let here = layout::enc_entry(es[i]);
        let behind = layout::flat(es.skip(i + 1), f);
        assert(layout::enc_entries(es) == before + here + behind);
        assert(layout::at(data, base, before + here + behind));
        assert(layout::at(data, base, before + here));
        assert(layout::at(data, off, here));
        assert(layout::enc_entry(es[i]).len() >= 4);
        let offsets = layout::entry_offsets(base, es);
        directory_written(data, dir, offsets, i);
        assert(off <= u32::MAX);
        assert(offsets[i] as int == off);
        assert(dir + i * 4 + 4 <= data.len());
        assert(layout::p_dir_offset(data, dir, i) == Ok::<_, CowBeTreeError>(off));
        entry_written(data, off, es[i]);
        assert(seq![es[i]] + es.skip(i + 1) =~= es.skip(i));
        assert(layout::entry_offset(base, es, i + 1) == off + here.len());
    }
}

proof fn entries_read(data: Seq<u8>, dir: int, pos: int, idx: int, n: nat)
    requires
        0 <= pos <= data.len(),
        0 <= idx,
        layout::p_entries(data, dir, pos, idx, n) is Ok,
    ensures
        ({
            let (es, p2) = layout::p_entries(data, dir, pos, idx, n)->Ok_0;
            &&& es.len() == n
            &&& layout::at(data, pos, layout::enc_entries(es))
            &&& p2 == pos + layout::enc_entries(es).len()
            &&& forall|i: int| 0 <= i < es.len() ==> layout::entry_fits(#[trigger] es[i])
            &&& forall|i: int|
                0 <= i < es.len() ==> layout::p_dir_offset(data, dir, idx + i) == Ok::<
                    _,
                    CowBeTreeError,
                >(#[trigger] layout::entry_offset(pos, es, i))
        }),
    decreases n,
{
    let f = |e: EntryView| layout::enc_entry(e);
    let (es, p2) = layout::p_entries(data, dir, pos, idx, n)->Ok_0;
    if n == 0 {
        assert(data.subrange(pos, pos) =~= Seq::<u8>::empty());
    } else {
        entry_read(data, pos);
        let (e, p1) = layout::p_entry(data, pos)->Ok_0;
        entries_read(data, dir, p1, idx + 1, (n - 1) as nat);
        let (rest, _) = layout::p_entries(data, dir, p1, idx + 1, (n - 1) as nat)->Ok_0;
        assert(es == seq![e] + rest);
        assert(es.skip(1) =~= rest);
        assert(es[0] == e);
        assert(layout::at(data, pos, layout::enc_entry(e) + layout::enc_entries(rest)));
        assert forall|i: int| 0 <= i < es.len() implies layout::entry_fits(#[trigger] es[i]) by {
            if i > 0 {
                assert(es[i] == rest[i - 1]);
            }
        }
        assert forall|i: int| 0 <= i < es.len() implies layout::p_dir_offset(data, dir, idx + i)
            == Ok::<_, CowBeTreeError>(#[trigger] layout::entry_offset(pos, es, i)) by {
            if i == 0 {
                assert(es.take(0) =~= Seq::<EntryView>::empty());
                assert(layout::enc_entries(es.take(0)).len() == 0);
            } else {
                assert(es.take(i) =~= seq![e] + rest.take(i - 1));
                layout::flat_add(seq![e], rest.take(i - 1), f);
                layout::flat_one(e, f);
                assert(layout::entry_offset(pos, es, i) == layout::entry_offset(p1, rest, i - 1));
            }
        }
    }
}

/// A leaf body is read back.
pub proof fn leaf_written(fence: FenceView, entries: Seq<EntryView>)
    requires
        layout::leaf_fits(fence, entries),
        node::sorted_entries(entries),
    ensures
        ({
            let data = layout::leaf_body(fence, entries);
            let base = layout::leaf_base(fence);
            let dir = base + layout::enc_entries(entries).len();
            &&& layout::p_fence(data, 0) == Ok::<_, CowBeTreeError>((fence, base - 2))
            &&& layout::p_leaf_header(data, base - 2) == Ok::<_, CowBeTreeError>(
                (entries.len() as int, base, dir),
            )
            &&& layout::at(data, base, layout::enc_entries(entries))
            &&& layout::at(
                data,
                dir,
                layout::enc_offsets(layout::entry_offsets(base, entries)),
            )
            &&& data.len() == dir + 4 * entries.len()
            &&& layout::p_leaf(data, base - 2, fence) == Ok::<_, CowBeTreeError>(
                NodeView::Leaf { fence, entries },
            )
        }),
{
    let data = layout::leaf_body(fence, entries);
    let base = layout::leaf_base(fence);
    let count = bytes::le16(entries.len() as u16);
    let body = layout::enc_entries(entries);
    let offsets = layout::entry_offsets(base, entries);
    let dirb = layout::enc_offsets(offsets);
    let dir = base + body.len();
    assert(data.subrange(0, data.len() as int) =~= data);
    assert(layout::at(data, 0, data));
    assert(layout::at(data, 0, layout::enc_fence(fence) + (count + (body + dirb))));
    assert(layout::at(data, base - 2, count + (body + dirb)));
    assert(layout::at(data, base, body + dirb));
    fence_written(data, 0, fence);
    layout::flat_fixed(offsets, |o: u32| bytes::le32(o), 4);
    assert(dirb.len() == entries.len() * 4);
    entries_written(data, base, entries, 0);
    assert(entries.take(0) =~= Seq::<EntryView>::empty());
    assert(layout::entry_offset(base, entries, 0) == base);
    assert(entries.skip(0) =~= entries);
}

/// A leaf body that can be read is the one its node is written as.
#[verifier::rlimit(40)]
#[verifier::spinoff_prover]
pub proof fn leaf_read(data: Seq<u8>)
    requires
        layout::p_fence(data, 0) is Ok,
        ({
            let (fence, pos) = layout::p_fence(data, 0)->Ok_0;
            layout::p_leaf(data, pos, fence) is Ok
        }),
    ensures
        ({
            let (fence, pos) = layout::p_fence(data, 0)->Ok_0;
            &&& layout::p_leaf(data, pos, fence)->Ok_0 is Leaf
            &&& layout::p_leaf(data, pos, fence)->Ok_0->Leaf_fence == fence
            &&& data == layout::leaf_body(fence, layout::p_leaf(data, pos, fence)->Ok_0->entries)
            &&& layout::leaf_fits(fence, layout::p_leaf(data, pos, fence)->Ok_0->entries)
            &&& node::sorted_entries(layout::p_leaf(data, pos, fence)->Ok_0->entries)
        }),
{
    let (fence, pos) = layout::p_fence(data, 0)->Ok_0;
    fence_read(data, 0);
    let (n, p1, dir) = layout::p_leaf_header(data, pos)->Ok_0;
    let entries = layout::p_leaf(data, pos, fence)->Ok_0->entries;
    assert(bytes::le16(n as u16) == data.subrange(pos, pos + 2));
    assert(layout::at(data, pos, bytes::le16(n as u16)));
    entries_read(data, dir, p1, 0, n as nat);
    let base = layout::leaf_base(fence);
    assert(base == p1);
    let offsets = layout::entry_offsets(base, entries);
    let f = |o: u32| bytes::le32(o);
    let b = data.subrange(dir, data.len() as int);
    assert forall|i: int| 0 <= i < entries.len() implies #[trigger] layout::entry_offset(
        base,
        entries,
        i,
    ) <= u32::MAX by {
        assert(layout::p_dir_offset(data, dir, 0 + i) == Ok::<_, CowBeTreeError>(
            layout::entry_offset(p1, entries, i),
        ));
    }
    assert forall|i: int| 0 <= i < offsets.len() implies (#[trigger] f(offsets[i])).len() == 4 by {}
    assert forall|i: int| 0 <= i < offsets.len() implies layout::at(
        b,
        i * 4,
        #[trigger] f(offsets[i]),
    ) by {
        assert(layout::p_dir_offset(data, dir, 0 + i) == Ok::<_, CowBeTreeError>(
            layout::entry_offset(p1, entries, i),
        ));
        let s = data.subrange(dir + i * 4, dir + i * 4 + 4);
        assert(bytes::le32(bytes::of_le32(s)) == s);
        assert(b.subrange(i * 4, i * 4 + 4) =~= s);
    }
    layout::flat_fixed_is(offsets, f, 4, b);
    let count = bytes::le16(entries.len() as u16);
    let body = layout::enc_entries(entries);
    assert(data =~= layout::enc_fence(fence) + (count + (body + b))) by {
        assert(data =~= data.subrange(0, pos) + (data.subrange(pos, p1) + (data.subrange(p1, dir)
            + b)));
    }
}

/// The seven parts of an internal body stand one behind the other.
proof fn seven_parts(
    a: Seq<u8>,
    b: Seq<u8>,
    c: Seq<u8>,
    d: Seq<u8>,
    e: Seq<u8>,
    f: Seq<u8>,
    g: Seq<u8>,
)
    ensures
        ({
            let data = a + (b + (c + (d + (e + (f + g)))));
            let p1 = a.len() as int;
            let p2 = p1 + b.len();
            let p3 = p2 + c.len();
            let p4 = p3 + d.len();
            let p5 = p4 + e.len();
            let p6 = p5 + f.len();
            &&& layout::at(data, 0, a)
            &&& layout::at(data, p1, b)
            &&& layout::at(data, p2, c)
            &&& layout::at(data, p3, d)
            &&& layout::at(data, p4, e)
            &&& layout::at(data, p5, f)
            &&& layout::at(data, p6, g)
            &&& data.len() == p6 + g.len()
        }),
{
    let data = a + (b + (c + (d + (e + (f + g)))));
    assert(data.subrange(0, data.len() as int) =~= data);
    assert(layout::at(data, 0, data));
}

/// An internal body is read back.
pub proof fn internal_written(
    fence: FenceView,
    children: Seq<u64>,
    separators: Seq<Seq<u8>>,
    buffer: Seq<MessageView>,
)
    requires
        layout::internal_fits(fence, children, separators, buffer),
    ensures
        ({
            let data = layout::internal_body(fence, children, separators, buffer);
            let p0 = layout::enc_fence(fence).len() as int;
            let p1 = p0 + 6;
            let p2 = p1 + 8 * children.len();
            let p3 = p2 + layout::enc_keys(separators).len();
            &&& layout::p_fence(data, 0) == Ok::<_, CowBeTreeError>((fence, p0))
            &&& layout::at(data, p0 + 4, bytes::le16(buffer.len() as u16))
            &&& layout::p_internal_header(data, p0) == Ok::<_, CowBeTreeError>(
                (children.len() as int, separators.len() as int, buffer.len() as int, p1),
            )
            &&& layout::at(data, p1, layout::enc_words(children))
            &&& layout::p_words(data, p1, children.len()) == Ok::<_, CowBeTreeError>((children, p2))
            &&& layout::p_keys(data, p2, separators.len()) == Ok::<_, CowBeTreeError>(
                (separators, p3),
            )
            &&& layout::p_messages(data, p3, buffer.len()) == Ok::<_, CowBeTreeError>(
                (buffer, data.len() as int),
            )
            &&& layout::at(data, p3, layout::enc_messages(buffer))
            &&& data.len() == p3 + layout::enc_messages(buffer).len()
            &&& node::sorted_keys(separators) ==> layout::p_internal(data, p0, fence) == Ok::<
                _,
                CowBeTreeError,
            >(NodeView::Internal { fence, children, separators, buffer })
        }),
{
    let data = layout::internal_body(fence, children, separators, buffer);
    let p0 = layout::enc_fence(fence).len() as int;
    let c1 = bytes::le16(children.len() as u16);
    let c2 = bytes::le16(separators.len() as u16);
    let c3 = bytes::le16(buffer.len() as u16);
    let ws = layout::enc_words(children);
    let ks = layout::enc_keys(separators);
    let ms = layout::enc_messages(buffer);
    seven_parts(layout::enc_fence(fence), c1, c2, c3, ws, ks, ms);
    let p1 = p0 + 6;
    fence_written(data, 0, fence);
    layout::flat_fixed(children, |w: u64| bytes::le64(w), 8);
    assert(ws.len() == children.len() * 8);
    let p2 = p1 + 8 * children.len();
    words_written(data, p1, children);
    keys_written(data, p2, separators);
    let p3 = p2 + ks.len();
    messages_written(data, p3, buffer);
}

/// An internal body that can be read is the one its node is written as.
pub proof fn internal_read(data: Seq<u8>)
    requires
        layout::p_fence(data, 0) is Ok,
        ({
            let (fence, pos) = layout::p_fence(data, 0)->Ok_0;
            layout::p_internal(data, pos, fence) is Ok
        }),
    ensures
        ({
            let (fence, pos) = layout::p_fence(data, 0)->Ok_0;
            &&& layout::p_internal(data, pos, fence)->Ok_0 matches NodeView::Internal {
                fence: f,
                children,
                separators,
                buffer,
            }
            &&& f == fence
            &&& data == layout::internal_body(fence, children, separators, buffer)
            &&& layout::internal_fits(fence, children, separators, buffer)
            &&& node::sorted_keys(separators)
        }),
{
    let (fence, pos) = layout::p_fence(data, 0)->Ok_0;
    fence_read(data, 0);
    let (nc, ns, nb, p1) = layout::p_internal_header(data, pos)->Ok_0;
    let node = layout::p_internal(data, pos, fence)->Ok_0;
    let children = node->children;
    let separators = node->separators;
    let buffer = node->buffer;
    assert(bytes::le16(nc as u16) == data.subrange(pos, pos + 2));
    assert(bytes::le16(ns as u16) == data.subrange(pos + 2, pos + 4));
    assert(bytes::le16(nb as u16) == data.subrange(pos + 4, pos + 6));
    words_read(data, p1, nc as nat);
    let p2 = p1 + layout::enc_words(children).len();
    keys_read(data, p2, ns as nat);
    let p3 = p2 + layout::enc_keys(separators).len();
    messages_read(data, p3, nb as nat);
    assert(data =~= layout::internal_body(fence, children, separators, buffer)) by {
        assert(data =~= data.subrange(0, pos) + (data.subrange(pos, pos + 2) + (data.subrange(
            pos + 2,
            pos + 4,
        ) + (data.subrange(pos + 4, p1) + (data.subrange(p1, p2) + (data.subrange(p2, p3)
            + data.subrange(p3, data.len() as int)))))));
    }
}

/// The header of a written page gives back its kind and its body.
pub proof fn page_written(kind: PageKind, count: int, body: Seq<u8>, len: nat)
    requires
        layout::HEADER_SIZE + body.len() <= len,
        body.len() <= u32::MAX,
    ensures
        layout::p_page(layout::page_image(kind, count, body, len)) == Ok::<_, CowBeTreeError>(
            (kind, body),
        ),
        layout::page_image(kind, count, body, len).len() == len,
{
    let page = layout::page_image(kind, count, body, len);
    assert(page.subrange(layout::MAGIC_OFF as int, layout::MAGIC_OFF + 4) =~= bytes::le32(
        layout::PAGE_MAGIC,
    ));
    assert(page.subrange(layout::BODY_LEN_OFF as int, layout::BODY_LEN_OFF + 4) =~= bytes::le32(
        body.len() as u32,
    ));
    assert(page.subrange(layout::HEADER_SIZE as int, layout::HEADER_SIZE + body.len()) =~= body);
    assert(page[layout::VERSION_OFF as int] == layout::PAGE_VERSION);
    assert(page[layout::KIND_OFF as int] == node::kind_byte(kind));
}

/// Where the header of a page stands: the number of items in bytes 8 and 9, the length
/// of the body in bytes 10 to 13, the magic number in bytes 14 to 17, the version of the
/// format, 4, in byte 20, and the kind in byte 21, 1 for a leaf and 2 for a node. The
/// body begins at byte 32. All other bytes are 0.
pub proof fn header_stands_in_its_bytes(kind: PageKind, count: u16, body: Seq<u8>, len: nat)
    requires
        32 + body.len() <= len,
        body.len() <= u32::MAX,
    ensures
        ({
            let page = layout::page_image(kind, count as int, body, len);
            &&& page.len() == len
            &&& page.subrange(8, 10) == bytes::le16(count)
            &&& page.subrange(10, 14) == bytes::le32(body.len() as u32)
            &&& page.subrange(14, 18) == bytes::le32(0x4254_4552)
            &&& page[20] == 4
            &&& page[21] == (if kind is Leaf {
                1u8
            } else {
                2u8
            })
            &&& page.subrange(32, 32int + body.len()) == body
            &&& forall|i: int|
                0 <= i < 8 || 18 <= i < 20 || 22 <= i < 32 || 32 + body.len() <= i < len
                    ==> #[trigger] page[i] == 0
        }),
{
    let page = layout::page_image(kind, count as int, body, len);
    assert(page.subrange(8, 10) =~= bytes::le16(count));
    assert(page.subrange(10, 14) =~= bytes::le32(body.len() as u32));
    assert(page.subrange(14, 18) =~= bytes::le32(0x4254_4552));
    assert(page.subrange(32, 32int + body.len()) =~= body);
}

/// What a message is written as: the length of the key in 2 bytes, the key, the
/// timestamp in 8 bytes, a byte that is 1 for a deletion and else 0, the length of the
/// value in 4 bytes, and the value.
pub proof fn message_stands_in_its_bytes(m: MessageView)
    requires
        m.key.len() <= u16::MAX,
        m.version.value.len() <= u32::MAX,
    ensures
        ({
            let b = layout::enc_message(m);
            let k = m.key.len() as int;
            &&& b.len() == 15 + k + m.version.value.len()
            &&& b.subrange(0, 2) == bytes::le16(k as u16)
            &&& b.subrange(2, 2 + k) == m.key
            &&& b.subrange(2 + k, 10 + k) == bytes::le64(m.version.commit_ts)
            &&& b[10 + k] == (if m.version.deleted {
                1u8
            } else {
                0u8
            })
            &&& b.subrange(11 + k, 15 + k) == bytes::le32(m.version.value.len() as u32)
            &&& b.subrange(15 + k, b.len() as int) == m.version.value
        }),
{
    let b = layout::enc_message(m);
    let k = m.key.len() as int;
    assert(b.subrange(0, 2) =~= bytes::le16(k as u16));
    assert(b.subrange(2, 2 + k) =~= m.key);
    assert(b.subrange(2 + k, 10 + k) =~= bytes::le64(m.version.commit_ts));
    assert(b.subrange(11 + k, 15 + k) =~= bytes::le32(m.version.value.len() as u32));
    assert(b.subrange(15 + k, b.len() as int) =~= m.version.value);
}

/// What was written is read back: a node that fits the format, written on a
/// page with room for it, is the node that the page holds.
pub proof fn written_page_is_read_back(n: NodeView, len: nat)
    requires
        layout::node_fits(n),
        layout::HEADER_SIZE + layout::node_body(n).len() <= len,
        layout::node_body(n).len() <= u32::MAX,
    ensures
        layout::parse_page(
            layout::page_image(layout::node_kind(n), layout::node_count(n), layout::node_body(n), len),
        ) == Ok::<_, CowBeTreeError>(n),
{
    page_written(layout::node_kind(n), layout::node_count(n), layout::node_body(n), len);
    match n {
        NodeView::Leaf { fence, entries } => {
            leaf_written(fence, entries);
        },
        NodeView::Internal { fence, children, separators, buffer } => {
            internal_written(fence, children, separators, buffer);
        },
    }
}

/// A page that can be read holds exactly the body that its node is written as,
/// and the node fits the format. So pages that hold the same node have the same
/// body.
pub proof fn read_page_is_canonical(page: Seq<u8>)
    requires
        layout::parse_page(page) is Ok,
    ensures
        layout::p_page(page) == Ok::<_, CowBeTreeError>(
            (
                layout::node_kind(layout::parse_page(page)->Ok_0),
                layout::node_body(layout::parse_page(page)->Ok_0),
            ),
        ),
        layout::node_fits(layout::parse_page(page)->Ok_0),
{
    let (kind, body) = layout::p_page(page)->Ok_0;
    match kind {
        PageKind::Leaf => {
            leaf_read(body);
        },
        PageKind::Internal => {
            internal_read(body);
        },
    }
}

/// A page holds a node exactly when its body is the one that the node is
/// written as and the node fits the format.
pub proof fn page_holds(page: Seq<u8>, n: NodeView)
    ensures
        (layout::parse_page(page) == Ok::<_, CowBeTreeError>(n)) <==> (layout::p_page(page) == Ok::<
            _,
            CowBeTreeError,
        >((layout::node_kind(n), layout::node_body(n))) && layout::node_fits(n)),
{
    if layout::parse_page(page) == Ok::<_, CowBeTreeError>(n) {
        read_page_is_canonical(page);
    }
    if layout::p_page(page) == Ok::<_, CowBeTreeError>((layout::node_kind(n), layout::node_body(n)))
        && layout::node_fits(n) {
        match n {
            NodeView::Leaf { fence, entries } => {
                leaf_written(fence, entries);
            },
            NodeView::Internal { fence, children, separators, buffer } => {
                internal_written(fence, children, separators, buffer);
            },
        }
    }
}

} // verus!
