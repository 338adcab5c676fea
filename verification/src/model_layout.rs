//! The wire layout of a voxel grid: a `SIZE` chunk with the extents and an
//! `XYZI` chunk with the voxels.

use crate::convert::{
    le_u16, le_u32, lemma_u16_le_roundtrip, lemma_u32_le_roundtrip, u16_le, u32_le,
};
use crate::layout::{holds_at, leaf_header, lemma_ascii_bytes, lemma_holds_split};
use crate::riff::{tag_bytes, ReadError};
use crate::voxel::Voxel;
use vstd::prelude::*;

verus! {

/// The tag of the chunk that holds the extents, `SIZE`.
pub open spec fn tag_size() -> Seq<u8> {
    seq![83u8, 73u8, 90u8, 69u8]
}

/// The tag of the chunk that holds the voxels, `XYZI`.
pub open spec fn tag_xyzi() -> Seq<u8> {
    seq![88u8, 89u8, 90u8, 73u8]
}

/// One extent: sixteen bits, padded to four bytes.
pub open spec fn encode_extent(x: u16) -> Seq<u8> {
    u16_le(x as int) + seq![0u8, 0u8]
}

/// The four bytes of a voxel: position, then palette index.
pub open spec fn voxel_bytes(v: Voxel) -> Seq<u8> {
    seq![v.position.0, v.position.1, v.position.2, v.colorindex]
}

/// The bytes of a run of voxels, in order.
pub open spec fn encode_voxels(voxels: Seq<Voxel>) -> Seq<u8>
    decreases voxels.len(),
{
    if voxels.len() == 0 {
        Seq::empty()
    } else {
        encode_voxels(voxels.drop_last()) + voxel_bytes(voxels.last())
    }
}

/// The content size of the `XYZI` chunk of `n` voxels.
pub open spec fn xyzi_size(n: nat) -> int {
    4 + 4 * (n as int)
}

/// The content of the `SIZE` chunk.
pub open spec fn size_body(size: (u16, u16, u16)) -> Seq<u8> {
    encode_extent(size.0) + (encode_extent(size.1) + encode_extent(size.2))
}

/// The content of the `XYZI` chunk.
pub open spec fn xyzi_body(voxels: Seq<Voxel>) -> Seq<u8> {
    u32_le(voxels.len() as int) + encode_voxels(voxels)
}

/// The bytes of a model: the `SIZE` chunk, then the `XYZI` chunk.
pub open spec fn encode_model(size: (u16, u16, u16), voxels: Seq<Voxel>) -> Seq<u8> {
    (leaf_header(tag_size(), 12) + size_body(size)) + (leaf_header(
        tag_xyzi(),
        xyzi_size(voxels.len()),
    ) + xyzi_body(voxels))
}

/// The voxel whose four bytes stand at `pos`.
pub open spec fn voxel_at(buf: Seq<u8>, pos: int) -> Voxel {
    Voxel { position: (buf[pos], buf[pos + 1], buf[pos + 2]), colorindex: buf[pos + 3] }
}

/// The `n` voxels whose records start at `pos`.
pub open spec fn voxels_at(buf: Seq<u8>, pos: int, n: nat) -> Seq<Voxel> {
    Seq::new(n, |i: int| voxel_at(buf, pos + 4 * i))
}

/// What is read of a model: its extents and its voxels.
pub struct ModelRecord {
    pub size: (u16, u16, u16),
    pub voxels: Seq<Voxel>,
}

/// Reads the model whose `SIZE` chunk starts at `pos`: the extents, the
/// voxels, and the offset of the first voxel record, where reading stops.
/// Both headers are passed over unread. The model is corrupt where the
/// announced voxels reach past the buffer, and holds an invalid argument
/// where a voxel has palette index 0.
pub open spec fn parse_model(buf: Seq<u8>, pos: int) -> Result<(ModelRecord, int), ReadError> {
    if pos < 0 || pos + 40 > buf.len() {
        Err(ReadError::CorruptContainer)
    } else {
        let n = le_u32(buf.subrange(pos + 36, pos + 40));
        let voxels = voxels_at(buf, pos + 40, n);
        if pos + 40 + 4 * n > buf.len() {
            Err(ReadError::CorruptContainer)
        } else if exists|i: int| 0 <= i < n && (#[trigger] voxels[i]).colorindex == 0 {
            Err(ReadError::InvalidArgument)
        } else {
            Ok(
                (
                    ModelRecord {
                        size: (
                            le_u16(buf.subrange(pos + 12, pos + 14)) as u16,
                            le_u16(buf.subrange(pos + 16, pos + 18)) as u16,
                            le_u16(buf.subrange(pos + 20, pos + 22)) as u16,
                        ),
                        voxels,
                    },
                    pos + 40,
                ),
            )
        }
    }
}

/// A run of voxels takes four bytes for each.
pub proof fn lemma_voxels_len(voxels: Seq<Voxel>)
    ensures
        encode_voxels(voxels).len() == 4 * voxels.len(),
    decreases voxels.len(),
{
    if voxels.len() > 0 {
        lemma_voxels_len(voxels.drop_last());
    }
}

/// The voxels read from where a run of voxels stands are that run.
pub proof fn lemma_voxels_roundtrip(voxels: Seq<Voxel>, buf: Seq<u8>, pos: int)
    requires
        holds_at(buf, pos, encode_voxels(voxels)),
    ensures
        voxels_at(buf, pos, voxels.len()) == voxels,
    decreases voxels.len(),
{
    lemma_voxels_len(voxels);
    if voxels.len() > 0 {
        let init = voxels.drop_last();
        let last = voxels.last();
        lemma_voxels_len(init);
        lemma_holds_split(buf, pos, encode_voxels(init), voxel_bytes(last));
        lemma_voxels_roundtrip(init, buf, pos);
        let p = pos + 4 * init.len();
        let stored = buf.subrange(p, p + 4);
        assert(stored == voxel_bytes(last));
        assert(buf[p] == stored[0] && buf[p + 1] == stored[1] && buf[p + 2] == stored[2] && buf[p
            + 3] == stored[3]);
        assert(voxel_at(buf, p) == last);
        assert forall|i: int| 0 <= i < voxels.len() implies voxels_at(buf, pos, voxels.len())[i]
            == voxels[i] by {
            if i < init.len() {
                assert(voxels_at(buf, pos, init.len())[i] == init[i]);
            }
        }
    }
    assert(voxels_at(buf, pos, voxels.len()) =~= voxels);
}

/// A model takes forty bytes and four more for every voxel.
pub proof fn lemma_model_len(size: (u16, u16, u16), voxels: Seq<Voxel>)
    ensures
        encode_model(size, voxels).len() == 40 + 4 * voxels.len(),
        size_body(size).len() == 12,
        xyzi_body(voxels).len() == 4 + 4 * voxels.len(),
        leaf_header(tag_size(), 12).len() == 12,
        leaf_header(tag_xyzi(), xyzi_size(voxels.len())).len() == 12,
{
    lemma_voxels_len(voxels);
    lemma_u32_le_roundtrip(0, Seq::empty());
    lemma_u32_le_roundtrip(12, Seq::empty());
    lemma_u32_le_roundtrip(xyzi_size(voxels.len()), Seq::empty());
    lemma_u32_le_roundtrip(voxels.len() as int, Seq::empty());
    lemma_u16_le_roundtrip(size.0 as int, Seq::empty());
    lemma_u16_le_roundtrip(size.1 as int, Seq::empty());
    lemma_u16_le_roundtrip(size.2 as int, Seq::empty());
}

/// Reading an extent where its bytes stand gives it again.
pub proof fn lemma_extent_roundtrip(x: u16, buf: Seq<u8>, pos: int)
    requires
        holds_at(buf, pos, encode_extent(x)),
    ensures
        le_u16(buf.subrange(pos, pos + 2)) == x,
{
    lemma_u16_le_roundtrip(x as int, Seq::empty());
    lemma_holds_split(buf, pos, u16_le(x as int), seq![0u8, 0u8]);
}

/// Writing a model whose voxels all have a palette index and reading it
/// back gives its extents and voxels again; reading stops at the first
/// voxel record.
pub proof fn lemma_model_roundtrip(
    size: (u16, u16, u16),
    voxels: Seq<Voxel>,
    buf: Seq<u8>,
    pos: int,
)
    requires
        forall|i: int| 0 <= i < voxels.len() ==> (#[trigger] voxels[i]).colorindex != 0,
        4 + 4 * voxels.len() <= u32::MAX,
        holds_at(buf, pos, encode_model(size, voxels)),
    ensures
        parse_model(buf, pos) == Ok::<(ModelRecord, int), ReadError>(
            (ModelRecord { size, voxels }, pos + 40),
        ),
{
    lemma_model_len(size, voxels);
    lemma_voxels_len(voxels);
    lemma_u32_le_roundtrip(voxels.len() as int, Seq::empty());
    let size_chunk = leaf_header(tag_size(), 12) + size_body(size);
    let xyzi_chunk = leaf_header(tag_xyzi(), xyzi_size(voxels.len())) + xyzi_body(voxels);
    lemma_holds_split(buf, pos, size_chunk, xyzi_chunk);
    lemma_holds_split(buf, pos, leaf_header(tag_size(), 12), size_body(size));
    lemma_holds_split(
        buf,
        pos + 12,
        encode_extent(size.0),
        encode_extent(size.1) + encode_extent(size.2),
    );
    lemma_u16_le_roundtrip(size.0 as int, Seq::empty());
    lemma_u16_le_roundtrip(size.1 as int, Seq::empty());
    lemma_holds_split(buf, pos + 16, encode_extent(size.1), encode_extent(size.2));
    lemma_extent_roundtrip(size.0, buf, pos + 12);
    lemma_extent_roundtrip(size.1, buf, pos + 16);
    lemma_extent_roundtrip(size.2, buf, pos + 20);
    lemma_holds_split(
        buf,
        pos + 24,
        leaf_header(tag_xyzi(), xyzi_size(voxels.len())),
        xyzi_body(voxels),
    );
    lemma_holds_split(buf, pos + 36, u32_le(voxels.len() as int), encode_voxels(voxels));
    lemma_voxels_roundtrip(voxels, buf, pos + 40);
}

/// The names of the two chunks of a model are written as their tags.
pub proof fn lemma_model_tag_names()
    ensures
        tag_bytes("SIZE"@) == tag_size(),
        tag_bytes("XYZI"@) == tag_xyzi(),
{
    reveal_strlit("SIZE");
    reveal_strlit("XYZI");
    lemma_ascii_bytes("SIZE"@, tag_size());
    lemma_ascii_bytes("XYZI"@, tag_xyzi());
}

} // verus!
