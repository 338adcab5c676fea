//! The wire layout of the records inside chunks, as functions on byte
//! sequences: what a record is written as, what is read from given bytes,
//! and the proofs that the two agree.

use crate::convert::{
    i32_le, le_i32, le_u32, lemma_i32_le_roundtrip, lemma_u32_le_roundtrip, u32_le,
};
use crate::riff::ReadError;
use crate::riff::tag_bytes;
use vstd::prelude::*;
use vstd::utf8::*;

verus! {

/// Whether `bytes` stand in `buf` at offset `pos`.
pub open spec fn holds_at(buf: Seq<u8>, pos: int, bytes: Seq<u8>) -> bool {
    0 <= pos && pos + bytes.len() <= buf.len() && buf.subrange(pos, pos + bytes.len()) == bytes
}

/// Where two runs of bytes stand one behind the other, each stands at its
/// own offset.
pub proof fn lemma_holds_split(buf: Seq<u8>, pos: int, a: Seq<u8>, b: Seq<u8>)
    requires
        holds_at(buf, pos, a + b),
    ensures
        holds_at(buf, pos, a),
        holds_at(buf, pos + a.len(), b),
{
    let whole = buf.subrange(pos, pos + (a + b).len());
    assert(buf.subrange(pos, pos + a.len()) =~= whole.subrange(0, a.len() as int));
    assert(whole.subrange(0, a.len() as int) =~= a);
    assert(buf.subrange(pos + a.len(), pos + a.len() + b.len()) =~= whole.subrange(
        a.len() as int,
        (a + b).len() as int,
    ));
    assert(whole.subrange(a.len() as int, (a + b).len() as int) =~= b);
}

/// Bytes put between a prefix and a suffix stand right behind the prefix.
pub proof fn lemma_holds_between(before: Seq<u8>, bytes: Seq<u8>, after: Seq<u8>)
    ensures
        holds_at(before + bytes + after, before.len() as int, bytes),
{
    let buf = before + bytes + after;
    assert(buf.subrange(before.len() as int, (before.len() + bytes.len()) as int) =~= bytes);
}

/// What a string record says: the length it declares and its characters.
pub struct StringRecord {
    pub size: int,
    pub content: Seq<char>,
}

impl StringRecord {
    /// A record is consistent when the declared length is the number of
    /// bytes its content takes as UTF-8, and fits the length field.
    pub open spec fn wf(self) -> bool {
        self.size == encode_utf8(self.content).len() && self.size <= i32::MAX
    }
}

/// The bytes of a string record: its length, little-endian, then the
/// content as UTF-8.
pub open spec fn encode_string(r: StringRecord) -> Seq<u8> {
    i32_le(r.size) + encode_utf8(r.content)
}

/// Reads the string record at `pos`: the record read and the offset behind
/// it. The record is corrupt where its length field or the bytes it
/// announces reach past the buffer, and violates the encoding where those
/// bytes are not UTF-8.
pub open spec fn parse_string(buf: Seq<u8>, pos: int) -> Result<(StringRecord, int), ReadError> {
    if pos < 0 || pos + 4 > buf.len() {
        Err(ReadError::CorruptContainer)
    } else {
        let n = le_u32(buf.subrange(pos, pos + 4));
        let end = pos + 4 + n;
        if end > buf.len() {
            Err(ReadError::CorruptContainer)
        } else if !valid_utf8(buf.subrange(pos + 4, end)) {
            Err(ReadError::EncodingViolation)
        } else {
            Ok(
                (StringRecord { size: n as int, content: decode_utf8(buf.subrange(pos + 4, end)) }, end),
            )
        }
    }
}

/// A consistent string record takes four bytes more than it declares.
pub proof fn lemma_string_len(r: StringRecord)
    requires
        r.wf(),
    ensures
        encode_string(r).len() == 4 + r.size,
        0 <= r.size,
{
    lemma_i32_le_roundtrip(r.size, Seq::empty());
}

/// Reading a consistent string record where its bytes stand gives the
/// record again, and the offset behind it.
pub proof fn lemma_string_roundtrip(r: StringRecord, buf: Seq<u8>, pos: int)
    requires
        r.wf(),
        holds_at(buf, pos, encode_string(r)),
    ensures
        parse_string(buf, pos) == Ok::<(StringRecord, int), ReadError>((r, pos + 4 + r.size)),
{
    lemma_string_len(r);
    lemma_u32_le_roundtrip(r.size, Seq::empty());
    lemma_holds_split(buf, pos, i32_le(r.size), encode_utf8(r.content));
    encode_utf8_valid_utf8(r.content);
    encode_utf8_decode_utf8(r.content);
}

/// A string record that was read is consistent, and writing it gives the
/// very bytes it was read from.
pub proof fn lemma_string_parsed(buf: Seq<u8>, pos: int)
    requires
        parse_string(buf, pos) is Ok,
        buf.len() <= i32::MAX,
    ensures
        ({
            let (r, next) = parse_string(buf, pos)->Ok_0;
            &&& r.wf()
            &&& 0 <= r.size
            &&& next == pos + 4 + r.size
            &&& next <= buf.len()
            &&& encode_string(r) == buf.subrange(pos, next)
        }),
{
    let (r, next) = parse_string(buf, pos)->Ok_0;
    let body = buf.subrange(pos + 4, next);
    decode_utf8_encode_utf8(body);
    lemma_u32_le_roundtrip(0, buf.subrange(pos, pos + 4));
    assert(encode_string(r) =~= buf.subrange(pos, next));
}

/// What a dictionary record says: the pair count it declares and its
/// pairs of key and value, in order.
pub struct DictRecord {
    pub num_of_pairs: int,
    pub pairs: Seq<(StringRecord, StringRecord)>,
}

/// Whether every key and value of a run of pairs is consistent.
pub open spec fn pairs_wf(pairs: Seq<(StringRecord, StringRecord)>) -> bool {
    forall|i: int| 0 <= i < pairs.len() ==> (#[trigger] pairs[i]).0.wf() && pairs[i].1.wf()
}

impl DictRecord {
    /// A dictionary is consistent when it declares the number of pairs it
    /// holds and every key and value is consistent.
    pub open spec fn wf(self) -> bool {
        self.num_of_pairs == self.pairs.len() && pairs_wf(self.pairs)
    }
}

/// The bytes of a run of pairs: every key followed by its value.
pub open spec fn encode_pairs(pairs: Seq<(StringRecord, StringRecord)>) -> Seq<u8>
    decreases pairs.len(),
{
    if pairs.len() == 0 {
        Seq::empty()
    } else {
        encode_pairs(pairs.drop_last()) + (encode_string(pairs.last().0) + encode_string(
            pairs.last().1,
        ))
    }
}

/// The bytes of a dictionary record: the pair count, little-endian, then
/// the pairs.
pub open spec fn encode_dict(d: DictRecord) -> Seq<u8> {
    i32_le(d.num_of_pairs) + encode_pairs(d.pairs)
}

/// The number of bytes a run of consistent pairs takes.
pub open spec fn pairs_size(pairs: Seq<(StringRecord, StringRecord)>) -> int
    decreases pairs.len(),
{
    if pairs.len() == 0 {
        0
    } else {
        pairs_size(pairs.drop_last()) + 8 + pairs.last().0.size + pairs.last().1.size
    }
}

/// The number of bytes a consistent dictionary takes: four for the count,
/// and for every pair the sizes of key and value.
pub open spec fn dict_size(d: DictRecord) -> int {
    4 + pairs_size(d.pairs)
}

/// Reads `n` pairs of strings from `pos` on: the pairs in order and the
/// offset behind the last. The first string that cannot be read decides the
/// error.
pub open spec fn parse_pairs(buf: Seq<u8>, pos: int, n: nat) -> Result<
    (Seq<(StringRecord, StringRecord)>, int),
    ReadError,
>
    decreases n,
{
    if n == 0 {
        Ok((Seq::empty(), pos))
    } else {
        match parse_pairs(buf, pos, (n - 1) as nat) {
            Err(e) => Err(e),
            Ok((init, p)) => match parse_string(buf, p) {
                Err(e) => Err(e),
                Ok((key, at1)) => match parse_string(buf, at1) {
                    Err(e) => Err(e),
                    Ok((value, at2)) => Ok((init.push((key, value)), at2)),
                },
            },
        }
    }
}

/// Reads the dictionary record at `pos`: a pair count, then that many
/// pairs.
pub open spec fn parse_dict(buf: Seq<u8>, pos: int) -> Result<(DictRecord, int), ReadError> {
    if pos < 0 || pos + 4 > buf.len() {
        Err(ReadError::CorruptContainer)
    } else {
        let n = le_u32(buf.subrange(pos, pos + 4));
        match parse_pairs(buf, pos + 4, n) {
            Err(e) => Err(e),
            Ok((pairs, next)) => Ok((DictRecord { num_of_pairs: n as int, pairs }, next)),
        }
    }
}

/// Once a pair cannot be read, no longer run of pairs can.
pub proof fn lemma_pairs_error_stays(buf: Seq<u8>, pos: int, i: nat, n: nat)
    requires
        i <= n,
    ensures
        parse_pairs(buf, pos, i) matches Err(e) ==> parse_pairs(buf, pos, n) == Err::<
            (Seq<(StringRecord, StringRecord)>, int),
            ReadError,
        >(e),
    decreases n,
{
    if i < n {
        lemma_pairs_error_stays(buf, pos, i, (n - 1) as nat);
    }
}

/// Every prefix of a run of consistent pairs is consistent.
pub proof fn lemma_pairs_wf_take(pairs: Seq<(StringRecord, StringRecord)>, i: int)
    requires
        pairs_wf(pairs),
        0 <= i <= pairs.len(),
    ensures
        pairs_wf(pairs.take(i)),
{
    assert forall|j: int| 0 <= j < pairs.take(i).len() implies (#[trigger] pairs.take(i)[j]).0.wf()
        && pairs.take(i)[j].1.wf() by {
        assert(pairs.take(i)[j] == pairs[j]);
    }
}

/// The size of a run of consistent pairs is never negative, and is the
/// number of bytes the run takes.
pub proof fn lemma_pairs_len(pairs: Seq<(StringRecord, StringRecord)>)
    requires
        pairs_wf(pairs),
    ensures
        encode_pairs(pairs).len() == pairs_size(pairs),
        8 * pairs.len() <= pairs_size(pairs),
    decreases pairs.len(),
{
    if pairs.len() > 0 {
        let init = pairs.drop_last();
        assert(init =~= pairs.take(pairs.len() - 1));
        lemma_pairs_wf_take(pairs, pairs.len() - 1);
        lemma_pairs_len(init);
        assert(pairs.last() == pairs[pairs.len() - 1]);
        lemma_string_len(pairs.last().0);
        lemma_string_len(pairs.last().1);
    }
}

/// The size of a run of consistent pairs grows with the run.
pub proof fn lemma_pairs_size_grows(pairs: Seq<(StringRecord, StringRecord)>, i: int)
    requires
        0 <= i <= pairs.len(),
        pairs_wf(pairs),
    ensures
        0 <= pairs_size(pairs.take(i)) <= pairs_size(pairs),
    decreases pairs.len() - i,
{
    lemma_pairs_wf_take(pairs, i);
    lemma_pairs_len(pairs.take(i));
    if i == pairs.len() {
        assert(pairs.take(i) =~= pairs);
    } else {
        lemma_pairs_size_grows(pairs, i + 1);
        assert(pairs.take(i + 1).drop_last() =~= pairs.take(i));
        assert(pairs.take(i + 1).last() == pairs[i]);
        lemma_string_len(pairs[i].0);
        lemma_string_len(pairs[i].1);
    }
}

/// A consistent dictionary takes as many bytes as its size says.
pub proof fn lemma_dict_len(d: DictRecord)
    requires
        d.wf(),
    ensures
        encode_dict(d).len() == dict_size(d),
        dict_size(d) >= 4,
{
    lemma_pairs_len(d.pairs);
    lemma_i32_le_roundtrip(d.num_of_pairs, Seq::empty());
}

/// Reading a run of consistent pairs where its bytes stand gives the pairs
/// again, and the offset behind them.
pub proof fn lemma_pairs_roundtrip(pairs: Seq<(StringRecord, StringRecord)>, buf: Seq<u8>, pos: int)
    requires
        pairs_wf(pairs),
        holds_at(buf, pos, encode_pairs(pairs)),
    ensures
        parse_pairs(buf, pos, pairs.len()) == Ok::<
            (Seq<(StringRecord, StringRecord)>, int),
            ReadError,
        >((pairs, pos + pairs_size(pairs))),
    decreases pairs.len(),
{
    if pairs.len() > 0 {
        let init = pairs.drop_last();
        let key = pairs.last().0;
        let value = pairs.last().1;
        assert(pairs.last() == pairs[pairs.len() - 1]);
        assert(init =~= pairs.take(pairs.len() - 1));
        lemma_pairs_wf_take(pairs, pairs.len() - 1);
        lemma_pairs_len(init);
        lemma_string_len(key);
        lemma_string_len(value);
        lemma_holds_split(buf, pos, encode_pairs(init), encode_string(key) + encode_string(value));
        let p = pos + pairs_size(init);
        lemma_holds_split(buf, p, encode_string(key), encode_string(value));
        lemma_pairs_roundtrip(init, buf, pos);
        lemma_string_roundtrip(key, buf, p);
        lemma_string_roundtrip(value, buf, p + 4 + key.size);
        assert(init.push((key, value)) =~= pairs);
        assert((pairs.len() - 1) as nat == init.len());
        assert(parse_pairs(buf, pos, init.len()) == Ok::<
            (Seq<(StringRecord, StringRecord)>, int),
            ReadError,
        >((init, p)));
    } else {
        assert(pairs =~= Seq::empty());
    }
}

/// Reading a consistent dictionary where its bytes stand gives the
/// dictionary again, and the offset behind it.
pub proof fn lemma_dict_roundtrip(d: DictRecord, buf: Seq<u8>, pos: int)
    requires
        d.wf(),
        dict_size(d) <= i32::MAX,
        holds_at(buf, pos, encode_dict(d)),
    ensures
        parse_dict(buf, pos) == Ok::<(DictRecord, int), ReadError>((d, pos + dict_size(d))),
{
    lemma_pairs_len(d.pairs);
    lemma_i32_le_roundtrip(d.num_of_pairs, Seq::empty());
    lemma_u32_le_roundtrip(d.num_of_pairs, Seq::empty());
    lemma_holds_split(buf, pos, i32_le(d.num_of_pairs), encode_pairs(d.pairs));
    lemma_pairs_roundtrip(d.pairs, buf, pos + 4);
    assert(buf.subrange(pos, pos + 4) == u32_le(d.num_of_pairs));
    assert(le_u32(buf.subrange(pos, pos + 4)) as nat == d.pairs.len());
}

/// Whether `x` is a value of a signed 32-bit field.
pub open spec fn is_i32(x: int) -> bool {
    i32::MIN <= x <= i32::MAX
}

/// Reads the signed integer at `pos`: its value and the offset behind it.
pub open spec fn parse_i32(buf: Seq<u8>, pos: int) -> Result<(int, int), ReadError> {
    if pos < 0 || pos + 4 > buf.len() {
        Err(ReadError::CorruptContainer)
    } else {
        Ok((le_i32(buf.subrange(pos, pos + 4)), pos + 4))
    }
}

/// Reading a signed integer where its bytes stand gives it again.
pub proof fn lemma_i32_roundtrip(x: int, buf: Seq<u8>, pos: int)
    requires
        is_i32(x),
        holds_at(buf, pos, i32_le(x)),
    ensures
        parse_i32(buf, pos) == Ok::<(int, int), ReadError>((x, pos + 4)),
{
    lemma_i32_le_roundtrip(x, Seq::empty());
}

/// The tag of a transform node chunk, `nTRN`.
pub open spec fn tag_ntrn() -> Seq<u8> {
    seq![110u8, 84u8, 82u8, 78u8]
}

/// The tag of a group node chunk, `nGRP`.
pub open spec fn tag_ngrp() -> Seq<u8> {
    seq![110u8, 71u8, 82u8, 80u8]
}

/// The tag of a shape node chunk, `nSHP`.
pub open spec fn tag_nshp() -> Seq<u8> {
    seq![110u8, 83u8, 72u8, 80u8]
}

/// The tag of a material chunk, `MATL`.
pub open spec fn tag_matl() -> Seq<u8> {
    seq![77u8, 65u8, 84u8, 76u8]
}

/// The header of a chunk without children.
pub open spec fn leaf_header(tag: Seq<u8>, size: int) -> Seq<u8> {
    tag + (u32_le(size) + u32_le(0))
}

/// What a transform node chunk says.
pub struct TransformRecord {
    pub node_id: int,
    pub node_attributes: DictRecord,
    pub child_node_id: int,
    pub reserved_id: int,
    pub layer_id: int,
    pub num_of_frames: int,
    pub frame_attributes: DictRecord,
}

impl TransformRecord {
    /// The number of bytes of the chunk's content.
    pub open spec fn size(self) -> int {
        20 + dict_size(self.node_attributes) + dict_size(self.frame_attributes)
    }

    /// The record is consistent when both dictionaries are, every number
    /// fits its field and the content size fits the header.
    pub open spec fn wf(self) -> bool {
        &&& self.node_attributes.wf()
        &&& self.frame_attributes.wf()
        &&& is_i32(self.node_id)
        &&& is_i32(self.child_node_id)
        &&& is_i32(self.reserved_id)
        &&& is_i32(self.layer_id)
        &&& is_i32(self.num_of_frames)
        &&& self.size() <= i32::MAX
    }
}

/// The content of a transform node chunk.
pub open spec fn transform_body(r: TransformRecord) -> Seq<u8> {
    i32_le(r.node_id) + (encode_dict(r.node_attributes) + (i32_le(r.child_node_id) + (i32_le(
        r.reserved_id,
    ) + (i32_le(r.layer_id) + (i32_le(r.num_of_frames) + encode_dict(r.frame_attributes))))))
}

/// The bytes of a transform node chunk: header, then content.
pub open spec fn encode_transform(r: TransformRecord) -> Seq<u8> {
    leaf_header(tag_ntrn(), r.size()) + transform_body(r)
}

/// Reads the transform node chunk at `pos`, passing over its header.
pub open spec fn parse_transform(buf: Seq<u8>, pos: int) -> Result<
    (TransformRecord, int),
    ReadError,
> {
    if pos < 0 || pos + 12 > buf.len() {
        Err(ReadError::CorruptContainer)
    } else {
        match parse_i32(buf, pos + 12) {
            Err(e) => Err(e),
            Ok((node_id, at1)) => match parse_dict(buf, at1) {
                Err(e) => Err(e),
                Ok((node_attributes, at2)) => match parse_i32(buf, at2) {
                    Err(e) => Err(e),
                    Ok((child_node_id, at3)) => match parse_i32(buf, at3) {
                        Err(e) => Err(e),
                        Ok((reserved_id, at4)) => match parse_i32(buf, at4) {
                            Err(e) => Err(e),
                            Ok((layer_id, at5)) => match parse_i32(buf, at5) {
                                Err(e) => Err(e),
                                Ok((num_of_frames, at6)) => match parse_dict(buf, at6) {
                                    Err(e) => Err(e),
                                    Ok((frame_attributes, at7)) => Ok(
                                        (
                                            TransformRecord {
                                                node_id,
                                                node_attributes,
                                                child_node_id,
                                                reserved_id,
                                                layer_id,
                                                num_of_frames,
                                                frame_attributes,
                                            },
                                            at7,
                                        ),
                                    ),
                                },
                            },
                        },
                    },
                },
            },
        }
    }
}

/// A consistent transform node chunk takes twelve bytes more than its
/// content size.
pub proof fn lemma_transform_len(r: TransformRecord)
    requires
        r.wf(),
    ensures
        encode_transform(r).len() == 12 + r.size(),
        transform_body(r).len() == r.size(),
        r.size() >= 28,
{
    lemma_dict_len(r.node_attributes);
    lemma_dict_len(r.frame_attributes);
    lemma_u32_le_roundtrip(0, Seq::empty());
    lemma_u32_le_roundtrip(r.size(), Seq::empty());
    lemma_i32_le_roundtrip(r.node_id, Seq::empty());
    lemma_i32_le_roundtrip(r.child_node_id, Seq::empty());
    lemma_i32_le_roundtrip(r.reserved_id, Seq::empty());
    lemma_i32_le_roundtrip(r.layer_id, Seq::empty());
    lemma_i32_le_roundtrip(r.num_of_frames, Seq::empty());
}

/// Reading a consistent transform node chunk where its bytes stand gives
/// the record again, and the offset behind the chunk.
pub proof fn lemma_transform_roundtrip(r: TransformRecord, buf: Seq<u8>, pos: int)
    requires
        r.wf(),
        holds_at(buf, pos, encode_transform(r)),
    ensures
        parse_transform(buf, pos) == Ok::<(TransformRecord, int), ReadError>(
            (r, pos + 12 + r.size()),
        ),
        well_framed_leaf(buf, pos, tag_ntrn(), r.size()),
{
    lemma_transform_len(r);
    lemma_dict_len(r.node_attributes);
    lemma_dict_len(r.frame_attributes);
    lemma_i32_le_roundtrip(r.node_id, Seq::empty());
    lemma_i32_le_roundtrip(r.child_node_id, Seq::empty());
    lemma_i32_le_roundtrip(r.reserved_id, Seq::empty());
    lemma_i32_le_roundtrip(r.layer_id, Seq::empty());
    lemma_i32_le_roundtrip(r.num_of_frames, Seq::empty());
    lemma_header_stands(buf, pos, tag_ntrn(), r.size(), transform_body(r));
    let f7 = encode_dict(r.frame_attributes);
    let f6 = i32_le(r.num_of_frames) + f7;
    let f5 = i32_le(r.layer_id) + f6;
    let f4 = i32_le(r.reserved_id) + f5;
    let f3 = i32_le(r.child_node_id) + f4;
    let f2 = encode_dict(r.node_attributes) + f3;
    let at1 = pos + 12 + 4;
    let at2 = at1 + dict_size(r.node_attributes);
    lemma_holds_split(buf, pos + 12, i32_le(r.node_id), f2);
    lemma_holds_split(buf, at1, encode_dict(r.node_attributes), f3);
    lemma_holds_split(buf, at2, i32_le(r.child_node_id), f4);
    lemma_holds_split(buf, at2 + 4, i32_le(r.reserved_id), f5);
    lemma_holds_split(buf, at2 + 8, i32_le(r.layer_id), f6);
    lemma_holds_split(buf, at2 + 12, i32_le(r.num_of_frames), f7);
    lemma_i32_roundtrip(r.node_id, buf, pos + 12);
    lemma_dict_roundtrip(r.node_attributes, buf, at1);
    lemma_i32_roundtrip(r.child_node_id, buf, at2);
    lemma_i32_roundtrip(r.reserved_id, buf, at2 + 4);
    lemma_i32_roundtrip(r.layer_id, buf, at2 + 8);
    lemma_i32_roundtrip(r.num_of_frames, buf, at2 + 12);
    lemma_dict_roundtrip(r.frame_attributes, buf, at2 + 16);
}

/// Whether a chunk without children, tagged `tag` and with `size` bytes of
/// content, stands whole at `pos`.
pub open spec fn well_framed_leaf(buf: Seq<u8>, pos: int, tag: Seq<u8>, size: int) -> bool {
    &&& 0 <= pos
    &&& pos + 12 + size <= buf.len()
    &&& buf.subrange(pos, pos + 4) == tag
    &&& le_u32(buf.subrange(pos + 4, pos + 8)) == size
    &&& le_u32(buf.subrange(pos + 8, pos + 12)) == 0
}

/// Where a header and a body stand at `pos`, the header's fields can be
/// read there and the body stands behind it.
pub proof fn lemma_header_stands(buf: Seq<u8>, pos: int, tag: Seq<u8>, size: int, body: Seq<u8>)
    requires
        tag.len() == 4,
        0 <= size <= i32::MAX,
        body.len() == size,
        holds_at(buf, pos, leaf_header(tag, size) + body),
    ensures
        holds_at(buf, pos + 12, body),
        well_framed_leaf(buf, pos, tag, size),
{
    lemma_u32_le_roundtrip(size, Seq::empty());
    lemma_u32_le_roundtrip(0, Seq::empty());
    lemma_holds_split(buf, pos, leaf_header(tag, size), body);
    lemma_holds_split(buf, pos, tag, u32_le(size) + u32_le(0));
    lemma_holds_split(buf, pos + 4, u32_le(size), u32_le(0));
}

/// The bytes of a run of signed integers.
pub open spec fn encode_ids(ids: Seq<int>) -> Seq<u8>
    decreases ids.len(),
{
    if ids.len() == 0 {
        Seq::empty()
    } else {
        encode_ids(ids.drop_last()) + i32_le(ids.last())
    }
}

/// Reads `n` signed integers from `pos` on: the integers in order and the
/// offset behind the last.
pub open spec fn parse_ids(buf: Seq<u8>, pos: int, n: nat) -> Result<(Seq<int>, int), ReadError>
    decreases n,
{
    if n == 0 {
        Ok((Seq::empty(), pos))
    } else {
        match parse_ids(buf, pos, (n - 1) as nat) {
            Err(e) => Err(e),
            Ok((init, p)) => match parse_i32(buf, p) {
                Err(e) => Err(e),
                Ok((id, at1)) => Ok((init.push(id), at1)),
            },
        }
    }
}

/// Whether every integer of a run fits a signed 32-bit field.
pub open spec fn ids_wf(ids: Seq<int>) -> bool {
    forall|i: int| 0 <= i < ids.len() ==> is_i32(#[trigger] ids[i])
}

/// Once an integer cannot be read, no longer run can.
pub proof fn lemma_ids_error_stays(buf: Seq<u8>, pos: int, i: nat, n: nat)
    requires
        i <= n,
    ensures
        parse_ids(buf, pos, i) matches Err(e) ==> parse_ids(buf, pos, n) == Err::<
            (Seq<int>, int),
            ReadError,
        >(e),
    decreases n,
{
    if i < n {
        lemma_ids_error_stays(buf, pos, i, (n - 1) as nat);
    }
}

/// A run of integers takes four bytes for each.
pub proof fn lemma_ids_len(ids: Seq<int>)
    ensures
        encode_ids(ids).len() == 4 * ids.len(),
    decreases ids.len(),
{
    if ids.len() > 0 {
        lemma_ids_len(ids.drop_last());
        lemma_i32_le_roundtrip(ids.last(), Seq::empty());
    }
}

/// Reading a run of integers where its bytes stand gives the run again.
pub proof fn lemma_ids_roundtrip(ids: Seq<int>, buf: Seq<u8>, pos: int)
    requires
        ids_wf(ids),
        holds_at(buf, pos, encode_ids(ids)),
    ensures
        parse_ids(buf, pos, ids.len()) == Ok::<(Seq<int>, int), ReadError>(
            (ids, pos + 4 * ids.len()),
        ),
    decreases ids.len(),
{
    if ids.len() > 0 {
        let init = ids.drop_last();
        assert(ids.last() == ids[ids.len() - 1]);
        assert forall|i: int| 0 <= i < init.len() implies is_i32(#[trigger] init[i]) by {
            assert(init[i] == ids[i]);
        }
        lemma_ids_len(init);
        lemma_holds_split(buf, pos, encode_ids(init), i32_le(ids.last()));
        lemma_ids_roundtrip(init, buf, pos);
        lemma_i32_roundtrip(ids.last(), buf, pos + 4 * init.len());
        assert(init.push(ids.last()) =~= ids);
        assert((ids.len() - 1) as nat == init.len());
    } else {
        assert(ids =~= Seq::empty());
    }
}

/// What a group node chunk says.
pub struct GroupRecord {
    pub node_id: int,
    pub node_attributes: DictRecord,
    pub num_of_children_nodes: int,
    pub child_id: Seq<int>,
}

impl GroupRecord {
    /// The number of bytes of the chunk's content.
    pub open spec fn size(self) -> int {
        8 + dict_size(self.node_attributes) + 4 * self.child_id.len()
    }

    /// The record is consistent when its dictionary is, it declares the
    /// number of children it lists, every number fits its field and the
    /// content size fits the header.
    pub open spec fn wf(self) -> bool {
        &&& self.node_attributes.wf()
        &&& is_i32(self.node_id)
        &&& self.num_of_children_nodes == self.child_id.len()
        &&& ids_wf(self.child_id)
        &&& self.size() <= i32::MAX
    }
}

/// The content of a group node chunk.
pub open spec fn group_body(r: GroupRecord) -> Seq<u8> {
    i32_le(r.node_id) + (encode_dict(r.node_attributes) + (i32_le(r.num_of_children_nodes)
        + encode_ids(r.child_id)))
}

/// The bytes of a group node chunk: header, then content.
pub open spec fn encode_group(r: GroupRecord) -> Seq<u8> {
    leaf_header(tag_ngrp(), r.size()) + group_body(r)
}

/// Reads the group node chunk at `pos`, passing over its header.
pub open spec fn parse_group(buf: Seq<u8>, pos: int) -> Result<(GroupRecord, int), ReadError> {
    if pos < 0 || pos + 12 > buf.len() {
        Err(ReadError::CorruptContainer)
    } else {
        match parse_i32(buf, pos + 12) {
            Err(e) => Err(e),
            Ok((node_id, at1)) => match parse_dict(buf, at1) {
                Err(e) => Err(e),
                Ok((node_attributes, at2)) => if at2 < 0 || at2 + 4 > buf.len() {
                    Err(ReadError::CorruptContainer)
                } else {
                    let n = le_u32(buf.subrange(at2, at2 + 4));
                    match parse_ids(buf, at2 + 4, n) {
                        Err(e) => Err(e),
                        Ok((child_id, at3)) => Ok(
                            (
                                GroupRecord {
                                    node_id,
                                    node_attributes,
                                    num_of_children_nodes: n as int,
                                    child_id,
                                },
                                at3,
                            ),
                        ),
                    }
                },
            },
        }
    }
}

/// A consistent group node chunk takes twelve bytes more than its content
/// size.
pub proof fn lemma_group_len(r: GroupRecord)
    requires
        r.wf(),
    ensures
        encode_group(r).len() == 12 + r.size(),
        group_body(r).len() == r.size(),
        r.size() >= 12,
{
    lemma_dict_len(r.node_attributes);
    lemma_ids_len(r.child_id);
    lemma_u32_le_roundtrip(0, Seq::empty());
    lemma_u32_le_roundtrip(r.size(), Seq::empty());
    lemma_i32_le_roundtrip(r.node_id, Seq::empty());
    lemma_i32_le_roundtrip(r.num_of_children_nodes, Seq::empty());
}

/// Reading a consistent group node chunk where its bytes stand gives the
/// record again, and the offset behind the chunk.
pub proof fn lemma_group_roundtrip(r: GroupRecord, buf: Seq<u8>, pos: int)
    requires
        r.wf(),
        holds_at(buf, pos, encode_group(r)),
    ensures
        parse_group(buf, pos) == Ok::<(GroupRecord, int), ReadError>((r, pos + 12 + r.size())),
        well_framed_leaf(buf, pos, tag_ngrp(), r.size()),
{
    lemma_group_len(r);
    lemma_dict_len(r.node_attributes);
    lemma_ids_len(r.child_id);
    lemma_i32_le_roundtrip(r.node_id, Seq::empty());
    lemma_i32_le_roundtrip(r.num_of_children_nodes, Seq::empty());
    lemma_u32_le_roundtrip(r.num_of_children_nodes, Seq::empty());
    lemma_header_stands(buf, pos, tag_ngrp(), r.size(), group_body(r));
    let f3 = i32_le(r.num_of_children_nodes) + encode_ids(r.child_id);
    let f2 = encode_dict(r.node_attributes) + f3;
    let at1 = pos + 12 + 4;
    let at2 = at1 + dict_size(r.node_attributes);
    lemma_holds_split(buf, pos + 12, i32_le(r.node_id), f2);
    lemma_holds_split(buf, at1, encode_dict(r.node_attributes), f3);
    lemma_holds_split(buf, at2, i32_le(r.num_of_children_nodes), encode_ids(r.child_id));
    lemma_i32_roundtrip(r.node_id, buf, pos + 12);
    lemma_dict_roundtrip(r.node_attributes, buf, at1);
    assert(buf.subrange(at2, at2 + 4) == u32_le(r.num_of_children_nodes));
    lemma_ids_roundtrip(r.child_id, buf, at2 + 4);
}

/// What a shape node chunk says.
pub struct ShapeRecord {
    pub node_id: int,
    pub node_attributes: DictRecord,
    pub num_of_models: int,
    pub model_id: int,
    pub model_attributes: DictRecord,
}

impl ShapeRecord {
    /// The number of bytes of the chunk's content.
    pub open spec fn size(self) -> int {
        12 + dict_size(self.node_attributes) + dict_size(self.model_attributes)
    }

    /// The record is consistent when both dictionaries are, every number
    /// fits its field and the content size fits the header.
    pub open spec fn wf(self) -> bool {
        &&& self.node_attributes.wf()
        &&& self.model_attributes.wf()
        &&& is_i32(self.node_id)
        &&& is_i32(self.num_of_models)
        &&& is_i32(self.model_id)
        &&& self.size() <= i32::MAX
    }
}

/// The content of a shape node chunk.
pub open spec fn shape_body(r: ShapeRecord) -> Seq<u8> {
    i32_le(r.node_id) + (encode_dict(r.node_attributes) + (i32_le(r.num_of_models) + (i32_le(
        r.model_id,
    ) + encode_dict(r.model_attributes))))
}

/// The bytes of a shape node chunk: header, then content.
pub open spec fn encode_shape(r: ShapeRecord) -> Seq<u8> {
    leaf_header(tag_nshp(), r.size()) + shape_body(r)
}

/// Reads the shape node chunk at `pos`, passing over its header.
pub open spec fn parse_shape(buf: Seq<u8>, pos: int) -> Result<(ShapeRecord, int), ReadError> {
    if pos < 0 || pos + 12 > buf.len() {
        Err(ReadError::CorruptContainer)
    } else {
        match parse_i32(buf, pos + 12) {
            Err(e) => Err(e),
            Ok((node_id, at1)) => match parse_dict(buf, at1) {
                Err(e) => Err(e),
                Ok((node_attributes, at2)) => match parse_i32(buf, at2) {
                    Err(e) => Err(e),
                    Ok((num_of_models, at3)) => match parse_i32(buf, at3) {
                        Err(e) => Err(e),
                        Ok((model_id, at4)) => match parse_dict(buf, at4) {
                            Err(e) => Err(e),
                            Ok((model_attributes, at5)) => Ok(
                                (
                                    ShapeRecord {
                                        node_id,
                                        node_attributes,
                                        num_of_models,
                                        model_id,
                                        model_attributes,
                                    },
                                    at5,
                                ),
                            ),
                        },
                    },
                },
            },
        }
    }
}

/// A consistent shape node chunk takes twelve bytes more than its content
/// size.
pub proof fn lemma_shape_len(r: ShapeRecord)
    requires
        r.wf(),
    ensures
        encode_shape(r).len() == 12 + r.size(),
        shape_body(r).len() == r.size(),
        r.size() >= 20,
{
    lemma_dict_len(r.node_attributes);
    lemma_dict_len(r.model_attributes);
    lemma_u32_le_roundtrip(0, Seq::empty());
    lemma_u32_le_roundtrip(r.size(), Seq::empty());
    lemma_i32_le_roundtrip(r.node_id, Seq::empty());
    lemma_i32_le_roundtrip(r.num_of_models, Seq::empty());
    lemma_i32_le_roundtrip(r.model_id, Seq::empty());
}

/// Reading a consistent shape node chunk where its bytes stand gives the
/// record again, and the offset behind the chunk.
pub proof fn lemma_shape_roundtrip(r: ShapeRecord, buf: Seq<u8>, pos: int)
    requires
        r.wf(),
        holds_at(buf, pos, encode_shape(r)),
    ensures
        parse_shape(buf, pos) == Ok::<(ShapeRecord, int), ReadError>((r, pos + 12 + r.size())),
        well_framed_leaf(buf, pos, tag_nshp(), r.size()),
{
    lemma_shape_len(r);
    lemma_dict_len(r.node_attributes);
    lemma_dict_len(r.model_attributes);
    lemma_i32_le_roundtrip(r.node_id, Seq::empty());
    lemma_i32_le_roundtrip(r.num_of_models, Seq::empty());
    lemma_i32_le_roundtrip(r.model_id, Seq::empty());
    lemma_header_stands(buf, pos, tag_nshp(), r.size(), shape_body(r));
    let f4 = i32_le(r.model_id) + encode_dict(r.model_attributes);
    let f3 = i32_le(r.num_of_models) + f4;
    let f2 = encode_dict(r.node_attributes) + f3;
    let at1 = pos + 12 + 4;
    let at2 = at1 + dict_size(r.node_attributes);
    lemma_holds_split(buf, pos + 12, i32_le(r.node_id), f2);
    lemma_holds_split(buf, at1, encode_dict(r.node_attributes), f3);
    lemma_holds_split(buf, at2, i32_le(r.num_of_models), f4);
    lemma_holds_split(buf, at2 + 4, i32_le(r.model_id), encode_dict(r.model_attributes));
    lemma_i32_roundtrip(r.node_id, buf, pos + 12);
    lemma_dict_roundtrip(r.node_attributes, buf, at1);
    lemma_i32_roundtrip(r.num_of_models, buf, at2);
    lemma_i32_roundtrip(r.model_id, buf, at2 + 4);
    lemma_dict_roundtrip(r.model_attributes, buf, at2 + 8);
}

/// What a material chunk says.
pub struct MaterialRecord {
    pub material_id: int,
    pub properties: DictRecord,
}

impl MaterialRecord {
    /// The number of bytes of the chunk's content.
    pub open spec fn size(self) -> int {
        4 + dict_size(self.properties)
    }

    /// The record is consistent when its dictionary is, its number fits its
    /// field and the content size fits the header.
    pub open spec fn wf(self) -> bool {
        &&& self.properties.wf()
        &&& is_i32(self.material_id)
        &&& self.size() <= i32::MAX
    }
}

/// The content of a material chunk.
pub open spec fn material_body(r: MaterialRecord) -> Seq<u8> {
    i32_le(r.material_id) + encode_dict(r.properties)
}

/// The bytes of a material chunk: header, then content.
pub open spec fn encode_material(r: MaterialRecord) -> Seq<u8> {
    leaf_header(tag_matl(), r.size()) + material_body(r)
}

/// Reads the material chunk at `pos`, passing over its header.
pub open spec fn parse_material(buf: Seq<u8>, pos: int) -> Result<
    (MaterialRecord, int),
    ReadError,
> {
    if pos < 0 || pos + 12 > buf.len() {
        Err(ReadError::CorruptContainer)
    } else {
        match parse_i32(buf, pos + 12) {
            Err(e) => Err(e),
            Ok((material_id, at1)) => match parse_dict(buf, at1) {
                Err(e) => Err(e),
                Ok((properties, at2)) => Ok((MaterialRecord { material_id, properties }, at2)),
            },
        }
    }
}

/// A consistent material chunk takes twelve bytes more than its content
/// size.
pub proof fn lemma_material_len(r: MaterialRecord)
    requires
        r.wf(),
    ensures
        encode_material(r).len() == 12 + r.size(),
        material_body(r).len() == r.size(),
        r.size() >= 8,
{
    lemma_dict_len(r.properties);
    lemma_u32_le_roundtrip(0, Seq::empty());
    lemma_u32_le_roundtrip(r.size(), Seq::empty());
    lemma_i32_le_roundtrip(r.material_id, Seq::empty());
}

/// Reading a consistent material chunk where its bytes stand gives the
/// record again, and the offset behind the chunk.
pub proof fn lemma_material_roundtrip(r: MaterialRecord, buf: Seq<u8>, pos: int)
    requires
        r.wf(),
        holds_at(buf, pos, encode_material(r)),
    ensures
        parse_material(buf, pos) == Ok::<(MaterialRecord, int), ReadError>(
            (r, pos + 12 + r.size()),
        ),
        well_framed_leaf(buf, pos, tag_matl(), r.size()),
{
    lemma_material_len(r);
    lemma_dict_len(r.properties);
    lemma_i32_le_roundtrip(r.material_id, Seq::empty());
    lemma_header_stands(buf, pos, tag_matl(), r.size(), material_body(r));
    lemma_holds_split(buf, pos + 12, i32_le(r.material_id), encode_dict(r.properties));
    lemma_i32_roundtrip(r.material_id, buf, pos + 12);
    lemma_dict_roundtrip(r.properties, buf, pos + 16);
}

/// The bytes an ASCII text is written as are its characters.
pub proof fn lemma_ascii_bytes(text: Seq<char>, bytes: Seq<u8>)
    requires
        text.len() == bytes.len(),
        forall|i: int|
            0 <= i < text.len() ==> '\0' <= (#[trigger] text[i]) <= '\u{7f}' && text[i] as u8
                == bytes[i],
    ensures
        encode_utf8(text) == bytes,
{
    is_ascii_chars_encode_utf8(text);
    assert(encode_utf8(text) =~= bytes);
}

/// The names of the chunks are written as their four-byte tags.
pub proof fn lemma_tag_names()
    ensures
        tag_bytes("nTRN"@) == tag_ntrn(),
        tag_bytes("nGRP"@) == tag_ngrp(),
        tag_bytes("nSHP"@) == tag_nshp(),
        tag_bytes("MATL"@) == tag_matl(),
{
    reveal_strlit("nTRN");
    reveal_strlit("nGRP");
    reveal_strlit("nSHP");
    reveal_strlit("MATL");
    lemma_ascii_bytes("nTRN"@, tag_ntrn());
    lemma_ascii_bytes("nGRP"@, tag_ngrp());
    lemma_ascii_bytes("nSHP"@, tag_nshp());
    lemma_ascii_bytes("MATL"@, tag_matl());
}

/// Pairs that were read end inside the buffer, behind where they start.
pub proof fn lemma_pairs_progress(buf: Seq<u8>, pos: int, n: nat)
    requires
        parse_pairs(buf, pos, n) is Ok,
        0 <= pos <= buf.len(),
    ensures
        pos <= parse_pairs(buf, pos, n)->Ok_0.1 <= buf.len(),
    decreases n,
{
    if n > 0 {
        lemma_pairs_progress(buf, pos, (n - 1) as nat);
    }
}

/// A dictionary that was read ends inside the buffer, at least four bytes
/// behind where it starts.
pub proof fn lemma_dict_progress(buf: Seq<u8>, pos: int)
    requires
        parse_dict(buf, pos) is Ok,
    ensures
        pos + 4 <= parse_dict(buf, pos)->Ok_0.1 <= buf.len(),
{
    lemma_pairs_progress(buf, pos + 4, le_u32(buf.subrange(pos, pos + 4)));
}

/// Integers that were read end inside the buffer, behind where they start.
pub proof fn lemma_ids_progress(buf: Seq<u8>, pos: int, n: nat)
    requires
        parse_ids(buf, pos, n) is Ok,
        0 <= pos <= buf.len(),
    ensures
        pos <= parse_ids(buf, pos, n)->Ok_0.1 <= buf.len(),
        parse_ids(buf, pos, n)->Ok_0.0.len() == n,
    decreases n,
{
    if n > 0 {
        lemma_ids_progress(buf, pos, (n - 1) as nat);
    }
}

/// A transform node chunk that was read ends inside the buffer, behind its
/// header.
pub proof fn lemma_transform_progress(buf: Seq<u8>, pos: int)
    requires
        parse_transform(buf, pos) is Ok,
    ensures
        pos + 12 < parse_transform(buf, pos)->Ok_0.1 <= buf.len(),
{
    let at1 = pos + 16;
    lemma_dict_progress(buf, at1);
    let at2 = parse_dict(buf, at1)->Ok_0.1;
    lemma_dict_progress(buf, at2 + 16);
}

/// A group node chunk that was read ends inside the buffer, behind its
/// header, and lists as many children as it declares.
pub proof fn lemma_group_progress(buf: Seq<u8>, pos: int)
    requires
        parse_group(buf, pos) is Ok,
    ensures
        pos + 12 < parse_group(buf, pos)->Ok_0.1 <= buf.len(),
        0 <= parse_group(buf, pos)->Ok_0.0.num_of_children_nodes,
        4 * parse_group(buf, pos)->Ok_0.0.num_of_children_nodes <= buf.len(),
{
    let at1 = pos + 16;
    lemma_dict_progress(buf, at1);
    let at2 = parse_dict(buf, at1)->Ok_0.1;
    let n = le_u32(buf.subrange(at2, at2 + 4));
    lemma_ids_progress(buf, at2 + 4, n);
    lemma_ids_exact(buf, at2 + 4, n);
}

/// Integers that were read take four bytes each.
pub proof fn lemma_ids_exact(buf: Seq<u8>, pos: int, n: nat)
    requires
        parse_ids(buf, pos, n) is Ok,
    ensures
        parse_ids(buf, pos, n)->Ok_0.1 == pos + 4 * n,
    decreases n,
{
    if n > 0 {
        lemma_ids_exact(buf, pos, (n - 1) as nat);
    }
}

/// A shape node chunk that was read ends inside the buffer, behind its
/// header.
pub proof fn lemma_shape_progress(buf: Seq<u8>, pos: int)
    requires
        parse_shape(buf, pos) is Ok,
    ensures
        pos + 12 < parse_shape(buf, pos)->Ok_0.1 <= buf.len(),
{
    let at1 = pos + 16;
    lemma_dict_progress(buf, at1);
    let at2 = parse_dict(buf, at1)->Ok_0.1;
    lemma_dict_progress(buf, at2 + 8);
}

} // verus!
