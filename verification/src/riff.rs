//! Chunk framing: headers, the scan over chunk headers, and the
//! length-prefixed records that chunk bodies are made of.

use crate::convert::{
    i32_le, i32_to_array, le_i32, le_u32, u32_from_vec, u32_le, u32_to_array, u32_to_i32,
};
use crate::layout::{
    dict_size, encode_dict, encode_group, encode_ids, encode_material, encode_pairs, encode_shape,
    encode_string, encode_transform, group_body, leaf_header, lemma_dict_len, lemma_group_len,
    lemma_ids_error_stays, lemma_material_len, lemma_pairs_error_stays, lemma_pairs_size_grows,
    lemma_shape_len, lemma_string_len, lemma_string_parsed, lemma_tag_names, lemma_transform_len,
    material_body, pairs_size, parse_dict, parse_group, parse_i32, parse_ids, parse_material,
    parse_pairs, parse_shape, parse_string, parse_transform, shape_body, tag_matl, tag_ngrp,
    tag_nshp, tag_ntrn, transform_body, DictRecord, GroupRecord, MaterialRecord, ShapeRecord,
    StringRecord, TransformRecord,
};
use crate::node::{Node, NodeModel};
use crate::scene_layout::{bytes_record, is_ascii, lemma_ascii_record, lookup, parse_tree};
use vstd::prelude::*;
use vstd::slice::{slice_subrange, slice_to_vec};
use vstd::string::*;
use vstd::utf8::*;

verus! {

/// Why reading a container failed.
#[derive(Clone, Copy, Debug, PartialEq, Eq, Structural)]
pub enum ReadError {
    /// A header or record reaches past the end of the buffer, or the
    /// container holds what the format has no place for.
    CorruptContainer,
    /// The bytes of a string are not UTF-8.
    EncodingViolation,
    /// A value that no valid container holds, such as palette index 0.
    InvalidArgument,
    /// The scan reached the end of the buffer without finding the chunk.
    NotFound,
}

/// Offset of the first chunk: the outer header of magic and version takes
/// the eight bytes before it.
pub const FIRST_CHUNK: usize = 8;

/// The bytes a tag name is written as.
pub open spec fn tag_bytes(name: Seq<char>) -> Seq<u8> {
    encode_utf8(name)
}

/// The header of a chunk: its tag, then the size of its content and the
/// size of its children, both little-endian.
pub open spec fn header_bytes(tag: Seq<u8>, size: int, children_size: int) -> Seq<u8> {
    tag + u32_le(size) + u32_le(children_size)
}

/// The four bytes at `pos`, where a chunk's tag stands.
pub open spec fn tag_at(buf: Seq<u8>, pos: int) -> Seq<u8> {
    buf.subrange(pos, pos + 4)
}

/// The content size that the header at `pos` declares.
pub open spec fn declared_size(buf: Seq<u8>, pos: int) -> nat {
    le_u32(buf.subrange(pos + 4, pos + 8))
}

/// Where the chunk that starts at `pos` ends, going by its header.
pub open spec fn chunk_end(buf: Seq<u8>, pos: int) -> int {
    pos + 12 + declared_size(buf, pos)
}

/// Whether a whole chunk stands at `pos`: its header and the content it
/// declares both lie inside the buffer.
pub open spec fn well_framed(buf: Seq<u8>, pos: int) -> bool {
    0 <= pos && pos + 12 <= buf.len() && chunk_end(buf, pos) <= buf.len()
}

/// Walks the chunk headers from `pos` on and gives the offset of the
/// `n`-th chunk tagged `tag`, counting from 1. A chunk that is not well
/// framed ends the walk as corrupt; the end of the buffer ends it as not
/// found.
pub open spec fn scan_nth(buf: Seq<u8>, tag: Seq<u8>, pos: int, n: int) -> Result<int, ReadError>
    decreases buf.len() - pos,
{
    if pos >= buf.len() {
        Err(ReadError::NotFound)
    } else if !well_framed(buf, pos) {
        Err(ReadError::CorruptContainer)
    } else if tag_at(buf, pos) == tag {
        if n == 1 {
            Ok(pos)
        } else {
            scan_nth(buf, tag, chunk_end(buf, pos), n - 1)
        }
    } else {
        scan_nth(buf, tag, chunk_end(buf, pos), n)
    }
}

/// Walks the chunk headers from `pos` to the end of the buffer and counts
/// the chunks tagged `tag`. A chunk that is not well framed makes the
/// whole count fail.
pub open spec fn scan_count(buf: Seq<u8>, tag: Seq<u8>, pos: int) -> Result<int, ReadError>
    decreases buf.len() - pos,
{
    if pos >= buf.len() {
        Ok(0)
    } else if !well_framed(buf, pos) {
        Err(ReadError::CorruptContainer)
    } else {
        match scan_count(buf, tag, chunk_end(buf, pos)) {
            Ok(c) => Ok(
                if tag_at(buf, pos) == tag {
                    c + 1
                } else {
                    c
                },
            ),
            Err(e) => Err(e),
        }
    }
}

/// A count that succeeds is never negative, and at most one chunk is
/// counted for every twelve bytes walked.
pub proof fn lemma_scan_count_bounds(buf: Seq<u8>, tag: Seq<u8>, pos: int)
    ensures
        scan_count(buf, tag, pos) matches Ok(c) ==> 0 <= c && (0 <= pos <= buf.len() ==> 12 * c
            <= buf.len() - pos),
    decreases buf.len() - pos,
{
    if pos < buf.len() && well_framed(buf, pos) {
        lemma_scan_count_bounds(buf, tag, chunk_end(buf, pos));
    }
}

/// Asking for a chunk number below 1 gives the same answer whatever the
/// number: nothing is ever found.
pub proof fn lemma_scan_nth_nonpositive(buf: Seq<u8>, tag: Seq<u8>, pos: int, n: int, m: int)
    requires
        n <= 0,
        m <= 0,
    ensures
        scan_nth(buf, tag, pos, n) == scan_nth(buf, tag, pos, m),
        scan_nth(buf, tag, pos, n) is Err,
    decreases buf.len() - pos,
{
    if pos < buf.len() && well_framed(buf, pos) {
        lemma_scan_nth_nonpositive(buf, tag, chunk_end(buf, pos), n, m);
        lemma_scan_nth_nonpositive(buf, tag, chunk_end(buf, pos), n - 1, m - 1);
    }
}

/// Finding and counting agree: where the count of chunks tagged `tag`
/// succeeds with `c`, the `n`-th such chunk is found for every `n` from 1 to
/// `c`, it is well framed and carries the tag, and for every other `n` the
/// answer is that it was not found.
pub proof fn lemma_find_agrees_with_count(buf: Seq<u8>, tag: Seq<u8>, pos: int, n: int)
    requires
        scan_count(buf, tag, pos) is Ok,
    ensures
        1 <= n <= scan_count(buf, tag, pos)->Ok_0 ==> (scan_nth(buf, tag, pos, n) matches Ok(p)
            && pos <= p && well_framed(buf, p) && tag_at(buf, p) == tag),
        !(1 <= n <= scan_count(buf, tag, pos)->Ok_0) ==> scan_nth(buf, tag, pos, n) == Err::<
            int,
            ReadError,
        >(ReadError::NotFound),
    decreases buf.len() - pos,
{
    if pos < buf.len() {
        let next = chunk_end(buf, pos);
        lemma_scan_count_bounds(buf, tag, next);
        lemma_find_agrees_with_count(buf, tag, next, n);
        lemma_find_agrees_with_count(buf, tag, next, n - 1);
    }
}

/// Appends `bytes` to `out`.
pub fn write_slice(out: &mut Vec<u8>, bytes: &[u8])
    ensures
        final(out)@ == old(out)@ + bytes@,
{
    out.extend_from_slice(bytes);
    assert(out@ =~= old(out)@ + bytes@);
}

/// Appends the header of a chunk to `out`: the tag `name`, then the content
/// size and the size of the children. The caller writes exactly
/// `size + children_size` further bytes before the next header.
pub fn write_chunk(name: &str, size: u32, children_size: u32, out: &mut Vec<u8>)
    requires
        tag_bytes(name@).len() == 4,
    ensures
        final(out)@ == old(out)@ + header_bytes(
            tag_bytes(name@),
            size as int,
            children_size as int,
        ),
        final(out)@.len() == old(out)@.len() + 12,
{
    write_slice(out, name.as_bytes());
    let size_bytes = u32_to_array(size);
    write_slice(out, size_bytes.as_slice());
    let children_bytes = u32_to_array(children_size);
    write_slice(out, children_bytes.as_slice());
    assert(out@ =~= old(out)@ + header_bytes(tag_bytes(name@), size as int, children_size as int));
}

/// Whether the four bytes at `pos` are the tag `tag`.
pub fn tag_matches(contents: &Vec<u8>, pos: usize, tag: &[u8]) -> (same: bool)
    requires
        pos + 4 <= contents.len(),
    ensures
        same <==> tag_at(contents@, pos as int) == tag@,
{
    if tag.len() != 4 {
        return false;
    }
    let same = contents[pos] == tag[0] && contents[pos + 1] == tag[1] && contents[pos + 2] == tag[2]
        && contents[pos + 3] == tag[3];
    proof {
        let t = tag_at(contents@, pos as int);
        if same {
            assert(t =~= tag@);
        } else {
            assert(t[0] == contents@[pos as int]);
            assert(t[1] == contents@[pos + 1]);
            assert(t[2] == contents@[pos + 2]);
            assert(t[3] == contents@[pos + 3]);
        }
    }
    same
}

/// Reads the header at `pos` and gives the offset of the next chunk, or
/// nothing where no whole chunk stands at `pos`.
fn next_chunk(contents: &Vec<u8>, pos: usize) -> (next: Option<usize>)
    requires
        pos < contents.len(),
    ensures
        next is Some <==> well_framed(contents@, pos as int),
        next matches Some(p) ==> p == chunk_end(contents@, pos as int) && pos + 12 <= p
            <= contents.len(),
{
    let len = contents.len();
    if len - pos < 12 {
        return None;
    }
    let size = u32_from_vec(contents, pos + 4);
    let room = len - pos - 12;
    if size as u64 > room as u64 {
        return None;
    }
    Some(pos + 12 + size as usize)
}

/// Returns the offset of the `number`-th chunk named `name`, counting from
/// 1. The scan starts behind the outer header and goes from header to
/// header; it never looks inside a chunk.
pub fn find_chunk(contents: &Vec<u8>, name: String, number: i32) -> (result: Result<
    usize,
    ReadError,
>)
    ensures
        match scan_nth(contents@, tag_bytes(name@), FIRST_CHUNK as int, number as int) {
            Ok(p) => result matches Ok(found) && found == p && p < contents@.len(),
            Err(e) => result == Err::<usize, ReadError>(e),
        },
{
    let tag = name.as_str().as_bytes();
    let mut pos: usize = FIRST_CHUNK;
    let mut remaining: i32 = number;
    while pos < contents.len()
        invariant
            FIRST_CHUNK <= pos,
            tag@ == tag_bytes(name@),
            scan_nth(contents@, tag@, pos as int, remaining as int) == scan_nth(
                contents@,
                tag@,
                FIRST_CHUNK as int,
                number as int,
            ),
        decreases contents.len() - pos,
    {
        let next = match next_chunk(contents, pos) {
            Some(next) => next,
            None => {
                return Err(ReadError::CorruptContainer);
            },
        };
        if tag_matches(contents, pos, tag) {
            if remaining == 1 {
                return Ok(pos);
            }
            if remaining > 1 {
                remaining = remaining - 1;
            } else {
                proof {
                    lemma_scan_nth_nonpositive(
                        contents@,
                        tag@,
                        next as int,
                        remaining as int,
                        remaining - 1,
                    );
                }
            }
        }
        pos = next;
    }
    Err(ReadError::NotFound)
}

/// Counts the chunks named `name`, by the same scan as [`find_chunk`], which
/// here always runs to the end of the buffer.
pub fn num_of_chunks(contents: &Vec<u8>, name: String) -> (result: Result<i32, ReadError>)
    requires
        contents@.len() <= i32::MAX,
    ensures
        match scan_count(contents@, tag_bytes(name@), FIRST_CHUNK as int) {
            Ok(c) => result == Ok::<i32, ReadError>(c as i32) && 0 <= c <= i32::MAX,
            Err(e) => result == Err::<i32, ReadError>(e),
        },
{
    let tag = name.as_str().as_bytes();
    let mut pos: usize = FIRST_CHUNK;
    let mut count: i32 = 0;
    while pos < contents.len()
        invariant
            FIRST_CHUNK <= pos,
            contents@.len() <= i32::MAX,
            tag@ == tag_bytes(name@),
            0 <= count,
            12 * count <= pos,
            pos <= contents.len() || scan_count(contents@, tag@, pos as int) is Ok,
            match scan_count(contents@, tag@, pos as int) {
                Ok(c) => scan_count(contents@, tag@, FIRST_CHUNK as int) == Ok::<int, ReadError>(
                    c + count,
                ),
                Err(e) => scan_count(contents@, tag@, FIRST_CHUNK as int) == Err::<int, ReadError>(
                    e,
                ),
            },
        decreases contents.len() - pos,
    {
        let next = match next_chunk(contents, pos) {
            Some(next) => next,
            None => {
                return Err(ReadError::CorruptContainer);
            },
        };
        if tag_matches(contents, pos, tag) {
            count = count + 1;
        }
        pos = next;
    }
    Ok(count)
}

/// Reads the signed little-endian integer at `*pos`. The four bytes must
/// lie inside `vec`; `*pos` is left as it is.
pub fn i32_from_vec(vec: &Vec<u8>, pos: &mut i32) -> (value: i32)
    requires
        0 <= *old(pos),
        *old(pos) + 4 <= vec@.len(),
    ensures
        *final(pos) == *old(pos),
        value == le_i32(vec@.subrange(*old(pos) as int, *old(pos) + 4)),
{
    let at = *pos as usize;
    u32_to_i32(u32_from_vec(vec, at))
}

/// Turns bytes into a string with `String::from_utf8`: the bytes are
/// accepted exactly when they are well-formed UTF-8, and the string then
/// holds the characters they encode.
#[verifier::external_body]
fn string_from_utf8(bytes: Vec<u8>) -> (text: Option<String>)
    ensures
        text is Some <==> valid_utf8(bytes@),
        text matches Some(s) ==> s@ == decode_utf8(bytes@),
{
    match String::from_utf8(bytes) {
        Ok(text) => Some(text),
        Err(_) => None,
    }
}

/// A length-prefixed string as it stands in a chunk.
#[derive(Debug)]
pub struct VoxString {
    pub size: i32,
    pub content: String,
}

impl View for VoxString {
    type V = StringRecord;

    open spec fn view(&self) -> StringRecord {
        StringRecord { size: self.size as int, content: self.content@ }
    }
}

impl VoxString {
    /// Reads the string record at `*cursor` and moves the cursor behind
    /// it. On failure the cursor stays where it was.
    pub fn read(input: &Vec<u8>, cursor: &mut i32) -> (result: Result<VoxString, ReadError>)
        requires
            input@.len() <= i32::MAX,
        ensures
            match parse_string(input@, *old(cursor) as int) {
                Ok((record, next)) => result matches Ok(s) && s@ == record && *final(cursor)
                    == next,
                Err(e) => result == Err::<VoxString, ReadError>(e) && *final(cursor) == *old(
                    cursor,
                ),
            },
    {
        if *cursor < 0 {
            return Err(ReadError::CorruptContainer);
        }
        let pos = *cursor as usize;
        let len = input.len();
        if len < 4 || pos > len - 4 {
            return Err(ReadError::CorruptContainer);
        }
        let n = u32_from_vec(input, pos);
        if n as u64 > (len - pos - 4) as u64 {
            return Err(ReadError::CorruptContainer);
        }
        let end = pos + 4 + n as usize;
        let bytes = slice_to_vec(slice_subrange(input.as_slice(), pos + 4, end));
        match string_from_utf8(bytes) {
            None => Err(ReadError::EncodingViolation),
            Some(content) => {
                *cursor = end as i32;
                Ok(VoxString { size: n as i32, content })
            },
        }
    }

    /// Appends the record to `out`: the declared length, then the content.
    pub fn write(&self, out: &mut Vec<u8>)
        ensures
            final(out)@ == old(out)@ + encode_string(self@),
    {
        let size_bytes = i32_to_array(self.size);
        write_slice(out, size_bytes.as_slice());
        write_slice(out, self.content.as_str().as_bytes());
        assert(out@ =~= old(out)@ + encode_string(self@));
    }

    /// Makes a record from a declared length and a content.
    pub fn new(size: i32, content: String) -> (record: VoxString)
        ensures
            record.size == size,
            record.content == content,
    {
        VoxString { size, content }
    }

    /// Makes the record of a text, declaring the length the text has, or
    /// nothing where that length does not fit the length field.
    pub fn from_text(content: String) -> (record: Option<VoxString>)
        ensures
            record is Some <==> encode_utf8(content@).len() <= i32::MAX,
            record matches Some(r) ==> r.content == content && r@.wf(),
    {
        let len = content.as_str().as_bytes().len();
        if len > i32::MAX as usize {
            None
        } else {
            Some(VoxString { size: len as i32, content })
        }
    }

    /// Makes the record of the ASCII text that `bytes` hold.
    pub fn from_ascii(bytes: Vec<u8>) -> (record: VoxString)
        requires
            is_ascii(bytes@),
            bytes@.len() <= i32::MAX,
        ensures
            record@ == bytes_record(bytes@),
            record@.wf(),
    {
        let len = bytes.len();
        proof {
            lemma_ascii_record(bytes@);
        }
        let content = match string_from_utf8(bytes) {
            Some(text) => text,
            None => String::new(),
        };
        VoxString { size: len as i32, content }
    }

    /// Whether the content is written as exactly `bytes`.
    pub fn is_bytes(&self, bytes: &[u8]) -> (same: bool)
        ensures
            same == (self@.bytes() == bytes@),
    {
        let own = self.content.as_str().as_bytes();
        if own.len() != bytes.len() {
            return false;
        }
        let mut i: usize = 0;
        while i < own.len()
            invariant
                i <= own.len(),
                own@.len() == bytes@.len(),
                own@ == self@.bytes(),
                forall|k: int| 0 <= k < i ==> own@[k] == bytes@[k],
            decreases own.len() - i,
        {
            if own[i] != bytes[i] {
                return false;
            }
            i = i + 1;
        }
        assert(own@ =~= bytes@);
        true
    }

    /// Returns the size of the record in bytes.
    pub fn get_size(&self) -> (size: i32)
        requires
            self.size <= i32::MAX - 4,
        ensures
            size == 4 + self.size,
    {
        4 + self.size
    }
}

/// What a list of key and value records says.
pub open spec fn pairs_view(pairs: Seq<(VoxString, VoxString)>) -> Seq<
    (StringRecord, StringRecord),
> {
    Seq::new(pairs.len(), |i: int| (pairs[i].0@, pairs[i].1@))
}

/// An ordered list of key and value strings with its pair count.
#[derive(Debug)]
pub struct Dict {
    pub num_of_pairs: i32,
    pub pairs: Vec<(VoxString, VoxString)>,
}

impl View for Dict {
    type V = DictRecord;

    open spec fn view(&self) -> DictRecord {
        DictRecord { num_of_pairs: self.num_of_pairs as int, pairs: pairs_view(self.pairs@) }
    }
}

impl Dict {
    /// Reads the dictionary record at `*cursor` and moves the cursor behind
    /// it. On failure the cursor stays where it was.
    pub fn read(input: &Vec<u8>, cursor: &mut i32) -> (result: Result<Dict, ReadError>)
        requires
            input@.len() <= i32::MAX,
        ensures
            match parse_dict(input@, *old(cursor) as int) {
                Ok((record, next)) => result matches Ok(d) && d@ == record && *final(cursor)
                    == next,
                Err(e) => result == Err::<Dict, ReadError>(e) && *final(cursor) == *old(cursor),
            },
    {
        if *cursor < 0 {
            return Err(ReadError::CorruptContainer);
        }
        let start = *cursor as usize;
        let len = input.len();
        if len < 4 || start > len - 4 {
            return Err(ReadError::CorruptContainer);
        }
        let n = u32_from_vec(input, start);
        let mut pos: i32 = (start + 4) as i32;
        let mut pairs: Vec<(VoxString, VoxString)> = Vec::new();
        let mut i: u32 = 0;
        assert(pairs_view(pairs@) =~= Seq::empty());
        while i < n
            invariant
                i <= n,
                n == le_u32(input@.subrange(start as int, start + 4)),
                input@.len() <= i32::MAX,
                start + 4 + 8 * i <= pos <= input@.len(),
                parse_pairs(input@, start + 4, i as nat) == Ok::<
                    (Seq<(StringRecord, StringRecord)>, int),
                    ReadError,
                >((pairs_view(pairs@), pos as int)),
                *cursor == *old(cursor),
                start == *old(cursor),
            decreases n - i,
        {
            let ghost at = pos as int;
            proof {
                lemma_pairs_error_stays(input@, start + 4, (i + 1) as nat, n as nat);
                assert(parse_pairs(input@, start + 4, ((i + 1) as nat - 1) as nat) == parse_pairs(
                    input@,
                    start + 4,
                    i as nat,
                ));
                if parse_string(input@, at) is Ok {
                    lemma_string_parsed(input@, at);
                    let at1 = parse_string(input@, at)->Ok_0.1;
                    if parse_string(input@, at1) is Ok {
                        lemma_string_parsed(input@, at1);
                    }
                }
            }
            let key = match VoxString::read(input, &mut pos) {
                Ok(key) => key,
                Err(e) => {
                    return Err(e);
                },
            };
            let value = match VoxString::read(input, &mut pos) {
                Ok(value) => value,
                Err(e) => {
                    return Err(e);
                },
            };
            let ghost before = pairs@;
            pairs.push((key, value));
            assert(pairs_view(pairs@) =~= pairs_view(before).push((key@, value@)));
            i = i + 1;
        }
        *cursor = pos;
        Ok(Dict { num_of_pairs: n as i32, pairs })
    }

    /// Appends the record to `out`: the declared pair count, then every key
    /// and value in order.
    pub fn write(&self, out: &mut Vec<u8>)
        ensures
            final(out)@ == old(out)@ + encode_dict(self@),
    {
        let count_bytes = i32_to_array(self.num_of_pairs);
        write_slice(out, count_bytes.as_slice());
        let ghost head = out@;
        let ghost all = pairs_view(self.pairs@);
        let mut i: usize = 0;
        assert(head + encode_pairs(all.take(0)) =~= head);
        while i < self.pairs.len()
            invariant
                i <= self.pairs.len(),
                all == pairs_view(self.pairs@),
                head == old(out)@ + i32_le(self.num_of_pairs as int),
                out@ == head + encode_pairs(all.take(i as int)),
            decreases self.pairs.len() - i,
        {
            let ghost so_far = out@;
            assert(all.take(i + 1).drop_last() =~= all.take(i as int));
            assert(all.take(i + 1).last() == all[i as int]);
            self.pairs[i].0.write(out);
            self.pairs[i].1.write(out);
            assert(out@ =~= head + encode_pairs(all.take(i + 1))) by {
                assert(out@ == so_far + encode_string(all[i as int].0) + encode_string(
                    all[i as int].1,
                ));
            }
            i = i + 1;
        }
        assert(all.take(i as int) =~= all);
        assert(out@ =~= old(out)@ + encode_dict(self@));
    }

    /// The dictionary of the pairs given, which declares their number.
    pub fn from_pairs(pairs: Vec<(VoxString, VoxString)>) -> (dict: Dict)
        requires
            pairs@.len() <= i32::MAX,
        ensures
            dict.pairs == pairs,
            dict.num_of_pairs == pairs@.len(),
    {
        Dict { num_of_pairs: pairs.len() as i32, pairs }
    }

    /// Returns the size of the record in bytes as a wide number, which a
    /// dictionary of up to 2^28 pairs cannot overflow.
    pub fn wide_size(&self) -> (size: u64)
        requires
            self@.wf(),
            self.pairs@.len() <= 0x1000_0000,
        ensures
            size == dict_size(self@),
    {
        let ghost all = pairs_view(self.pairs@);
        let mut size: u64 = 4;
        let mut i: usize = 0;
        while i < self.pairs.len()
            invariant
                i <= self.pairs.len(),
                self.pairs@.len() <= 0x1000_0000,
                all == pairs_view(self.pairs@),
                self@.wf(),
                size == 4 + pairs_size(all.take(i as int)),
                size <= 4 + i * 0x1_0000_0006,
            decreases self.pairs.len() - i,
        {
            proof {
                assert(all.take(i + 1).drop_last() =~= all.take(i as int));
                assert(all.take(i + 1).last() == all[i as int]);
                assert(all[i as int].0.wf() && all[i as int].1.wf());
                assert(all[i as int].0 == self.pairs@[i as int].0@);
                assert(all[i as int].1 == self.pairs@[i as int].1@);
                lemma_string_len(all[i as int].0);
                lemma_string_len(all[i as int].1);
            }
            size = size + 8 + self.pairs[i].0.size as u64 + self.pairs[i].1.size as u64;
            i = i + 1;
        }
        assert(all.take(i as int) =~= all);
        size
    }

    /// The value of the first pair whose key is written as `key`.
    pub fn get(&self, key: &[u8]) -> (value: Option<&VoxString>)
        ensures
            match lookup(self@.pairs, key@) {
                Some(record) => value matches Some(v) && v@ == record,
                None => value is None,
            },
    {
        let ghost all = self@.pairs;
        let mut i: usize = 0;
        assert(all.skip(0) =~= all);
        while i < self.pairs.len()
            invariant
                i <= self.pairs.len(),
                all == pairs_view(self.pairs@),
                lookup(all, key@) == lookup(all.skip(i as int), key@),
            decreases self.pairs.len() - i,
        {
            let ghost rest = all.skip(i as int);
            assert(rest[0] == all[i as int]);
            assert(rest.drop_first() =~= all.skip(i + 1));
            if self.pairs[i].0.is_bytes(key) {
                return Some(&self.pairs[i].1);
            }
            i = i + 1;
        }
        None
    }

    /// Returns the size of the record in bytes, computed from what the
    /// dictionary holds now.
    pub fn get_size(&self) -> (size: i32)
        requires
            self@.wf(),
            dict_size(self@) <= i32::MAX,
        ensures
            size == dict_size(self@),
            size == encode_dict(self@).len(),
    {
        let ghost all = pairs_view(self.pairs@);
        let mut size: i32 = 4;
        let mut i: usize = 0;
        proof {
            lemma_dict_len(self@);
        }
        while i < self.pairs.len()
            invariant
                i <= self.pairs.len(),
                all == pairs_view(self.pairs@),
                self@.wf(),
                dict_size(self@) <= i32::MAX,
                size == 4 + pairs_size(all.take(i as int)),
            decreases self.pairs.len() - i,
        {
            proof {
                assert(all.take(i + 1).drop_last() =~= all.take(i as int));
                assert(all.take(i + 1).last() == all[i as int]);
                lemma_pairs_size_grows(all, i + 1);
                lemma_pairs_size_grows(all, i as int);
                assert(all[i as int].0.wf() && all[i as int].1.wf());
                assert(all[i as int].0 == self.pairs@[i as int].0@);
                assert(all[i as int].1 == self.pairs@[i as int].1@);
            }
            let key_size = self.pairs[i].0.get_size();
            let value_size = self.pairs[i].1.get_size();
            size = size + (key_size + value_size);
            i = i + 1;
        }
        assert(all.take(i as int) =~= all);
        size
    }
}

/// Reads the signed integer at `*pos` and moves `*pos` behind it. On
/// failure `*pos` stays where it was.
pub fn read_i32(input: &Vec<u8>, pos: &mut i32) -> (result: Result<i32, ReadError>)
    requires
        input@.len() <= i32::MAX,
    ensures
        match parse_i32(input@, *old(pos) as int) {
            Ok((value, next)) => result matches Ok(v) && v == value && *final(pos) == next,
            Err(e) => result == Err::<i32, ReadError>(e) && *final(pos) == *old(pos),
        },
{
    if *pos < 0 || input.len() < 4 || *pos as usize > input.len() - 4 {
        return Err(ReadError::CorruptContainer);
    }
    let value = i32_from_vec(input, pos);
    *pos = *pos + 4;
    Ok(value)
}

/// Appends the four little-endian bytes of `value` to `out`.
pub fn write_i32(out: &mut Vec<u8>, value: i32)
    ensures
        final(out)@ == old(out)@ + i32_le(value as int),
{
    let bytes = i32_to_array(value);
    write_slice(out, bytes.as_slice());
}

/// Moves `*pos` over a chunk header, which must lie inside the buffer.
fn skip_header(input: &Vec<u8>, pos: &mut i32) -> (result: Result<(), ReadError>)
    requires
        input@.len() <= i32::MAX,
    ensures
        if *old(pos) < 0 || *old(pos) + 12 > input@.len() {
            result == Err::<(), ReadError>(ReadError::CorruptContainer) && *final(pos) == *old(
                pos,
            )
        } else {
            result is Ok && *final(pos) == *old(pos) + 12
        },
{
    if *pos < 0 || input.len() < 12 || *pos as usize > input.len() - 12 {
        return Err(ReadError::CorruptContainer);
    }
    *pos = *pos + 12;
    Ok(())
}

/// A rotation stored in the bits of one byte: bits 0-1 give the index of
/// the non-zero entry in the first row of the rotation matrix, bits 2-3 that
/// of the second row, and bits 4, 5, 6 the signs of the three rows.
pub struct Rotation {
    value: u8,
}

/// Transform node chunk.
#[allow(non_camel_case_types)]
#[derive(Debug)]
pub struct nTRN {
    pub node_id: i32,
    pub node_attributes: Dict,
    pub child_node_id: i32,
    pub reserved_id: i32,
    pub layer_id: i32,
    pub num_of_frames: i32,
    pub frame_attributes: Dict,
}

impl View for nTRN {
    type V = TransformRecord;

    open spec fn view(&self) -> TransformRecord {
        TransformRecord {
            node_id: self.node_id as int,
            node_attributes: self.node_attributes@,
            child_node_id: self.child_node_id as int,
            reserved_id: self.reserved_id as int,
            layer_id: self.layer_id as int,
            num_of_frames: self.num_of_frames as int,
            frame_attributes: self.frame_attributes@,
        }
    }
}

impl nTRN {
    /// Reads the transform node chunk at `*cursor` and moves the cursor
    /// behind it. On failure the cursor stays where it was.
    pub fn read(input: &Vec<u8>, cursor: &mut i32) -> (result: Result<nTRN, ReadError>)
        requires
            input@.len() <= i32::MAX,
        ensures
            match parse_transform(input@, *old(cursor) as int) {
                Ok((record, next)) => result matches Ok(c) && c@ == record && *final(cursor)
                    == next,
                Err(e) => result == Err::<nTRN, ReadError>(e) && *final(cursor) == *old(cursor),
            },
    {
        let mut pos = *cursor;
        skip_header(input, &mut pos)?;
        let node_id = read_i32(input, &mut pos)?;
        let node_attributes = Dict::read(input, &mut pos)?;
        let child_node_id = read_i32(input, &mut pos)?;
        let reserved_id = read_i32(input, &mut pos)?;
        let layer_id = read_i32(input, &mut pos)?;
        let num_of_frames = read_i32(input, &mut pos)?;
        let frame_attributes = Dict::read(input, &mut pos)?;
        *cursor = pos;
        Ok(
            nTRN {
                node_id,
                node_attributes,
                child_node_id,
                reserved_id,
                layer_id,
                num_of_frames,
                frame_attributes,
            },
        )
    }

    /// Appends the chunk to `out`: its header, sized just now, then its
    /// content.
    pub fn write(&self, out: &mut Vec<u8>)
        requires
            self@.wf(),
        ensures
            final(out)@ == old(out)@ + encode_transform(self@),
    {
        proof {
            lemma_tag_names();
            lemma_transform_len(self@);
        }
        write_chunk("nTRN", self.get_size() as u32, 0, out);
        let ghost head = out@;
        write_i32(out, self.node_id);
        self.node_attributes.write(out);
        write_i32(out, self.child_node_id);
        write_i32(out, self.reserved_id);
        write_i32(out, self.layer_id);
        write_i32(out, self.num_of_frames);
        self.frame_attributes.write(out);
        assert(out@ =~= head + transform_body(self@));
        assert(head =~= old(out)@ + leaf_header(tag_ntrn(), self@.size()));
        assert(out@ =~= old(out)@ + encode_transform(self@));
    }

    /// Returns the size of the chunk's content in bytes, computed from
    /// what the chunk holds now.
    pub fn get_size(&self) -> (size: i32)
        requires
            self@.wf(),
        ensures
            size == self@.size(),
    {
        proof {
            lemma_dict_len(self.node_attributes@);
            lemma_dict_len(self.frame_attributes@);
        }
        20 + self.node_attributes.get_size() + self.frame_attributes.get_size()
    }
}

/// What a list of child identifiers says.
pub open spec fn ids_view(ids: Seq<i32>) -> Seq<int> {
    Seq::new(ids.len(), |i: int| ids[i] as int)
}

/// Group node chunk.
#[allow(non_camel_case_types)]
#[derive(Debug)]
pub struct nGRP {
    pub node_id: i32,
    pub node_attributes: Dict,
    pub num_of_children_nodes: i32,
    pub child_id: Vec<i32>,
}

impl View for nGRP {
    type V = GroupRecord;

    open spec fn view(&self) -> GroupRecord {
        GroupRecord {
            node_id: self.node_id as int,
            node_attributes: self.node_attributes@,
            num_of_children_nodes: self.num_of_children_nodes as int,
            child_id: ids_view(self.child_id@),
        }
    }
}

impl nGRP {
    /// Reads the group node chunk at `*cursor` and moves the cursor behind
    /// it. On failure the cursor stays where it was.
    #[verifier::loop_isolation(false)]
    pub fn read(input: &Vec<u8>, cursor: &mut i32) -> (result: Result<nGRP, ReadError>)
        requires
            input@.len() <= i32::MAX,
        ensures
            match parse_group(input@, *old(cursor) as int) {
                Ok((record, next)) => result matches Ok(c) && c@ == record && *final(cursor)
                    == next,
                Err(e) => result == Err::<nGRP, ReadError>(e) && *final(cursor) == *old(cursor),
            },
    {
        let mut pos = *cursor;
        skip_header(input, &mut pos)?;
        let node_id = read_i32(input, &mut pos)?;
        let node_attributes = Dict::read(input, &mut pos)?;
        if pos < 0 || input.len() < 4 || pos as usize > input.len() - 4 {
            return Err(ReadError::CorruptContainer);
        }
        let n = u32_from_vec(input, pos as usize);
        let ghost start = pos + 4;
        pos = pos + 4;
        let mut child_id: Vec<i32> = Vec::new();
        let mut i: u32 = 0;
        assert(ids_view(child_id@) =~= Seq::empty());
        while i < n
            invariant
                i <= n,
                input@.len() <= i32::MAX,
                start + 4 * i == pos,
                pos <= input@.len(),
                parse_ids(input@, start, i as nat) == Ok::<(Seq<int>, int), ReadError>(
                    (ids_view(child_id@), pos as int),
                ),
                *cursor == *old(cursor),
            decreases n - i,
        {
            proof {
                lemma_ids_error_stays(input@, start, (i + 1) as nat, n as nat);
                assert(parse_ids(input@, start, ((i + 1) as nat - 1) as nat) == parse_ids(
                    input@,
                    start,
                    i as nat,
                ));
            }
            let id = read_i32(input, &mut pos)?;
            let ghost before = child_id@;
            child_id.push(id);
            assert(ids_view(child_id@) =~= ids_view(before).push(id as int));
            i = i + 1;
        }
        *cursor = pos;
        Ok(nGRP { node_id, node_attributes, num_of_children_nodes: n as i32, child_id })
    }

    /// Appends the chunk to `out`: its header, sized just now, then its
    /// content.
    pub fn write(&self, out: &mut Vec<u8>)
        requires
            self@.wf(),
        ensures
            final(out)@ == old(out)@ + encode_group(self@),
    {
        proof {
            lemma_tag_names();
            lemma_group_len(self@);
        }
        write_chunk("nGRP", self.get_size() as u32, 0, out);
        let ghost head = out@;
        write_i32(out, self.node_id);
        self.node_attributes.write(out);
        write_i32(out, self.num_of_children_nodes);
        let ghost mid = out@;
        let ghost all = ids_view(self.child_id@);
        let mut i: usize = 0;
        assert(mid + encode_ids(all.take(0)) =~= mid);
        while i < self.child_id.len()
            invariant
                i <= self.child_id.len(),
                all == ids_view(self.child_id@),
                out@ == mid + encode_ids(all.take(i as int)),
            decreases self.child_id.len() - i,
        {
            assert(all.take(i + 1).drop_last() =~= all.take(i as int));
            assert(all.take(i + 1).last() == all[i as int]);
            write_i32(out, self.child_id[i]);
            assert(out@ =~= mid + encode_ids(all.take(i + 1)));
            i = i + 1;
        }
        assert(all.take(i as int) =~= all);
        assert(out@ =~= head + group_body(self@));
        assert(head =~= old(out)@ + leaf_header(tag_ngrp(), self@.size()));
        assert(out@ =~= old(out)@ + encode_group(self@));
    }

    /// Returns the size of the chunk's content in bytes, computed from
    /// what the chunk holds now.
    pub fn get_size(&self) -> (size: i32)
        requires
            self@.wf(),
        ensures
            size == self@.size(),
    {
        proof {
            lemma_dict_len(self.node_attributes@);
        }
        8 + self.node_attributes.get_size() + (self.child_id.len() as i32) * 4
    }
}

/// Shape node chunk.
#[allow(non_camel_case_types)]
#[derive(Debug)]
pub struct nSHP {
    pub node_id: i32,
    pub node_attributes: Dict,
    pub num_of_models: i32,
    pub model_id: i32,
    pub model_attributes: Dict,
}

impl View for nSHP {
    type V = ShapeRecord;

    open spec fn view(&self) -> ShapeRecord {
        ShapeRecord {
            node_id: self.node_id as int,
            node_attributes: self.node_attributes@,
            num_of_models: self.num_of_models as int,
            model_id: self.model_id as int,
            model_attributes: self.model_attributes@,
        }
    }
}

impl nSHP {
    /// Reads the shape node chunk at `*cursor` and moves the cursor behind
    /// it. On failure the cursor stays where it was.
    pub fn read(input: &Vec<u8>, cursor: &mut i32) -> (result: Result<nSHP, ReadError>)
        requires
            input@.len() <= i32::MAX,
        ensures
            match parse_shape(input@, *old(cursor) as int) {
                Ok((record, next)) => result matches Ok(c) && c@ == record && *final(cursor)
                    == next,
                Err(e) => result == Err::<nSHP, ReadError>(e) && *final(cursor) == *old(cursor),
            },
    {
        let mut pos = *cursor;
        skip_header(input, &mut pos)?;
        let node_id = read_i32(input, &mut pos)?;
        let node_attributes = Dict::read(input, &mut pos)?;
        let num_of_models = read_i32(input, &mut pos)?;
        let model_id = read_i32(input, &mut pos)?;
        let model_attributes = Dict::read(input, &mut pos)?;
        *cursor = pos;
        Ok(nSHP { node_id, node_attributes, num_of_models, model_id, model_attributes })
    }

    /// Appends the chunk to `out`: its header, sized just now, then its
    /// content.
    pub fn write(&self, out: &mut Vec<u8>)
        requires
            self@.wf(),
        ensures
            final(out)@ == old(out)@ + encode_shape(self@),
    {
        proof {
            lemma_tag_names();
            lemma_shape_len(self@);
        }
        write_chunk("nSHP", self.get_size() as u32, 0, out);
        let ghost head = out@;
        write_i32(out, self.node_id);
        self.node_attributes.write(out);
        write_i32(out, self.num_of_models);
        write_i32(out, self.model_id);
        self.model_attributes.write(out);
        assert(out@ =~= head + shape_body(self@));
        assert(head =~= old(out)@ + leaf_header(tag_nshp(), self@.size()));
        assert(out@ =~= old(out)@ + encode_shape(self@));
    }

    /// Returns the size of the chunk's content in bytes, computed from
    /// what the chunk holds now.
    pub fn get_size(&self) -> (size: i32)
        requires
            self@.wf(),
        ensures
            size == self@.size(),
    {
        proof {
            lemma_dict_len(self.node_attributes@);
            lemma_dict_len(self.model_attributes@);
        }
        12 + self.node_attributes.get_size() + self.model_attributes.get_size()
    }
}

/// Material chunk.
#[derive(Debug)]
pub struct MATL {
    pub material_id: i32,
    pub properties: Dict,
}

impl View for MATL {
    type V = MaterialRecord;

    open spec fn view(&self) -> MaterialRecord {
        MaterialRecord { material_id: self.material_id as int, properties: self.properties@ }
    }
}

impl MATL {
    /// Reads the material chunk at `*cursor` and moves the cursor behind
    /// it. On failure the cursor stays where it was.
    pub fn read(input: &Vec<u8>, cursor: &mut i32) -> (result: Result<MATL, ReadError>)
        requires
            input@.len() <= i32::MAX,
        ensures
            match parse_material(input@, *old(cursor) as int) {
                Ok((record, next)) => result matches Ok(c) && c@ == record && *final(cursor)
                    == next,
                Err(e) => result == Err::<MATL, ReadError>(e) && *final(cursor) == *old(cursor),
            },
    {
        let mut pos = *cursor;
        skip_header(input, &mut pos)?;
        let material_id = read_i32(input, &mut pos)?;
        let properties = Dict::read(input, &mut pos)?;
        *cursor = pos;
        Ok(MATL { material_id, properties })
    }

    /// Appends the chunk to `out`: its header, sized just now, then its
    /// content.
    pub fn write(&self, out: &mut Vec<u8>)
        requires
            self@.wf(),
        ensures
            final(out)@ == old(out)@ + encode_material(self@),
    {
        proof {
            lemma_tag_names();
            lemma_material_len(self@);
        }
        write_chunk("MATL", self.get_size() as u32, 0, out);
        let ghost head = out@;
        write_i32(out, self.material_id);
        self.properties.write(out);
        assert(out@ =~= head + material_body(self@));
        assert(head =~= old(out)@ + leaf_header(tag_matl(), self@.size()));
        assert(out@ =~= old(out)@ + encode_material(self@));
    }

    /// Returns the size of the chunk's content in bytes, computed from
    /// what the chunk holds now.
    pub fn get_size(&self) -> (size: i32)
        requires
            self@.wf(),
        ensures
            size == self@.size(),
    {
        proof {
            lemma_dict_len(self.properties@);
        }
        4 + self.properties.get_size()
    }
}

/// What reading the scene graph of a container gives: the tree whose root
/// is the first transform node chunk that the scan over the chunk headers
/// meets.
pub open spec fn scene_in(buf: Seq<u8>) -> Result<NodeModel, ReadError> {
    match scan_nth(buf, tag_ntrn(), FIRST_CHUNK as int, 1) {
        Err(e) => Err(e),
        Ok(pos) => match parse_tree(buf, pos) {
            Err(e) => Err(e),
            Ok((tree, _)) => Ok(tree),
        },
    }
}

/// Reads the scene graph of a container: finds the first transform node
/// chunk and reads the tree that starts there.
pub fn nodes_from_chunks(contents: &Vec<u8>) -> (result: Result<Node, ReadError>)
    requires
        contents@.len() <= i32::MAX,
    ensures
        match scene_in(contents@) {
            Ok(tree) => result matches Ok(node) && node@ == tree,
            Err(e) => result == Err::<Node, ReadError>(e),
        },
{
    proof {
        lemma_tag_names();
    }
    let pos = find_chunk(contents, String::from_str("nTRN"), 1)?;
    let mut cursor = pos as i32;
    Node::read(contents, &mut cursor)
}

} // verus!
