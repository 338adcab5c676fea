//! The wire layout of a whole container: the outer header, the `MAIN`
//! chunk, and below it the models, the palette, the scene graph and the
//! layers.

use crate::color::Color;
use crate::convert::{i32_le, lemma_i32_le_roundtrip, lemma_u32_le_roundtrip, u32_le};
use crate::layout::{
    dict_size, encode_dict, holds_at, is_i32, leaf_header, lemma_ascii_bytes, lemma_dict_len,
    lemma_dict_roundtrip, lemma_header_stands, lemma_holds_between, lemma_holds_split,
    lemma_i32_roundtrip, parse_dict, parse_i32, tag_ngrp, tag_nshp, tag_ntrn, well_framed_leaf,
    DictRecord,
};
use crate::model::ModelData;
use crate::model_layout::{
    encode_model, lemma_model_len, lemma_model_roundtrip, parse_model, size_body, tag_size,
    tag_xyzi, xyzi_body, xyzi_size, ModelRecord,
};
use crate::node::{AttributesModel, NodeModel, NodeType, Transform};
use crate::riff::{
    declared_size, scan_count, scan_nth, scene_in, tag_at, tag_bytes, ReadError, FIRST_CHUNK,
};
use crate::scan_layout::{
    chunks_between, frame_at, lemma_chunks_join, lemma_chunks_one, lemma_chunks_widen,
    lemma_leaf_frame, lemma_scan_finds_tagged, lemma_tagged_none, tagged,
};
use crate::scene_layout::{
    encodable, encode_tree, lemma_tree_region, lemma_tree_roundtrip, lemma_tree_size, node_tags,
    tree_size,
};
use crate::scene_layout::{attributes_dict, attributes_of, lemma_attributes_roundtrip};
use vstd::prelude::*;

verus! {

/// The magic that opens a container, `VOX `.
pub open spec fn magic() -> Seq<u8> {
    seq![86u8, 79u8, 88u8, 32u8]
}

/// The format version that is written.
pub const VERSION: u32 = 150;

/// The tag of the chunk that holds everything else, `MAIN`.
pub open spec fn tag_main() -> Seq<u8> {
    seq![77u8, 65u8, 73u8, 78u8]
}

/// The tag of the palette chunk, `RGBA`.
pub open spec fn tag_rgba() -> Seq<u8> {
    seq![82u8, 71u8, 66u8, 65u8]
}

/// The tag of a layer chunk, `LAYR`.
pub open spec fn tag_layr() -> Seq<u8> {
    seq![76u8, 65u8, 89u8, 82u8]
}

/// The four bytes of a colour.
pub open spec fn color_bytes(c: Color) -> Seq<u8> {
    seq![c.r, c.g, c.b, c.a]
}

/// The bytes of a run of colours, in order.
pub open spec fn encode_colors(colors: Seq<Color>) -> Seq<u8>
    decreases colors.len(),
{
    if colors.len() == 0 {
        Seq::empty()
    } else {
        encode_colors(colors.drop_last()) + color_bytes(colors.last())
    }
}

/// The bytes of the palette chunk: header, then the colours.
pub open spec fn encode_palette(colors: Seq<Color>) -> Seq<u8> {
    leaf_header(tag_rgba(), 4 * (colors.len() as int)) + encode_colors(colors)
}

/// The colour whose four bytes stand at `pos`.
pub open spec fn color_at(buf: Seq<u8>, pos: int) -> Color {
    Color { r: buf[pos], g: buf[pos + 1], b: buf[pos + 2], a: buf[pos + 3] }
}

/// The `n` colours whose bytes start at `pos`.
pub open spec fn colors_at(buf: Seq<u8>, pos: int, n: nat) -> Seq<Color> {
    Seq::new(n, |i: int| color_at(buf, pos + 4 * i))
}

/// Reads the palette chunk at `pos`: 256 colours behind the header. The
/// chunk is corrupt where they reach past the buffer.
pub open spec fn parse_palette(buf: Seq<u8>, pos: int) -> Result<Seq<Color>, ReadError> {
    if pos < 0 || pos + 12 + 1024 > buf.len() {
        Err(ReadError::CorruptContainer)
    } else {
        Ok(colors_at(buf, pos + 12, 256))
    }
}

/// A run of colours takes four bytes for each.
pub proof fn lemma_colors_len(colors: Seq<Color>)
    ensures
        encode_colors(colors).len() == 4 * colors.len(),
    decreases colors.len(),
{
    if colors.len() > 0 {
        lemma_colors_len(colors.drop_last());
    }
}

/// The colours read from where a run of colours stands are that run.
pub proof fn lemma_colors_roundtrip(colors: Seq<Color>, buf: Seq<u8>, pos: int)
    requires
        holds_at(buf, pos, encode_colors(colors)),
    ensures
        colors_at(buf, pos, colors.len()) == colors,
    decreases colors.len(),
{
    lemma_colors_len(colors);
    if colors.len() > 0 {
        let init = colors.drop_last();
        let last = colors.last();
        lemma_colors_len(init);
        lemma_holds_split(buf, pos, encode_colors(init), color_bytes(last));
        lemma_colors_roundtrip(init, buf, pos);
        let p = pos + 4 * init.len();
        let stored = buf.subrange(p, p + 4);
        assert(stored == color_bytes(last));
        assert(buf[p] == stored[0] && buf[p + 1] == stored[1] && buf[p + 2] == stored[2] && buf[p
            + 3] == stored[3]);
        assert(color_at(buf, p) == last);
        assert forall|i: int| 0 <= i < colors.len() implies colors_at(buf, pos, colors.len())[i]
            == colors[i] by {
            if i < init.len() {
                assert(colors_at(buf, pos, init.len())[i] == init[i]);
            }
        }
    }
    assert(colors_at(buf, pos, colors.len()) =~= colors);
}

/// Reading a palette of 256 colours where its bytes stand gives the
/// colours again; its chunk stands whole there.
pub proof fn lemma_palette_roundtrip(colors: Seq<Color>, buf: Seq<u8>, pos: int)
    requires
        colors.len() == 256,
        holds_at(buf, pos, encode_palette(colors)),
    ensures
        parse_palette(buf, pos) == Ok::<Seq<Color>, ReadError>(colors),
        well_framed_leaf(buf, pos, tag_rgba(), 1024),
        encode_palette(colors).len() == 1036,
{
    lemma_colors_len(colors);
    lemma_u32_le_roundtrip(1024, Seq::empty());
    lemma_u32_le_roundtrip(0, Seq::empty());
    lemma_header_stands(buf, pos, tag_rgba(), 1024, encode_colors(colors));
    lemma_colors_roundtrip(colors, buf, pos + 12);
}

/// What a layer chunk says.
pub struct LayerRecord {
    pub layer_id: int,
    pub attributes: DictRecord,
    pub reserved_id: int,
}

impl LayerRecord {
    /// The number of bytes of the chunk's content.
    pub open spec fn size(self) -> int {
        8 + dict_size(self.attributes)
    }

    /// The record is consistent when its dictionary is, every number fits
    /// its field and the content size fits the header.
    pub open spec fn wf(self) -> bool {
        &&& self.attributes.wf()
        &&& is_i32(self.layer_id)
        &&& is_i32(self.reserved_id)
        &&& self.size() <= i32::MAX
    }
}

/// The content of a layer chunk.
pub open spec fn layer_body(r: LayerRecord) -> Seq<u8> {
    i32_le(r.layer_id) + (encode_dict(r.attributes) + i32_le(r.reserved_id))
}

/// The bytes of a layer chunk: header, then content.
pub open spec fn encode_layer_record(r: LayerRecord) -> Seq<u8> {
    leaf_header(tag_layr(), r.size()) + layer_body(r)
}

/// Reads the layer chunk at `pos`, passing over its header.
pub open spec fn parse_layer_record(buf: Seq<u8>, pos: int) -> Result<
    (LayerRecord, int),
    ReadError,
> {
    if pos < 0 || pos + 12 > buf.len() {
        Err(ReadError::CorruptContainer)
    } else {
        match parse_i32(buf, pos + 12) {
            Err(e) => Err(e),
            Ok((layer_id, at1)) => match parse_dict(buf, at1) {
                Err(e) => Err(e),
                Ok((attributes, at2)) => match parse_i32(buf, at2) {
                    Err(e) => Err(e),
                    Ok((reserved_id, at3)) => Ok(
                        (LayerRecord { layer_id, attributes, reserved_id }, at3),
                    ),
                },
            },
        }
    }
}

/// A consistent layer chunk takes twelve bytes more than its content
/// size.
pub proof fn lemma_layer_len(r: LayerRecord)
    requires
        r.wf(),
    ensures
        encode_layer_record(r).len() == 12 + r.size(),
        layer_body(r).len() == r.size(),
        r.size() >= 12,
{
    lemma_dict_len(r.attributes);
    lemma_u32_le_roundtrip(0, Seq::empty());
    lemma_u32_le_roundtrip(r.size(), Seq::empty());
    lemma_i32_le_roundtrip(r.layer_id, Seq::empty());
    lemma_i32_le_roundtrip(r.reserved_id, Seq::empty());
}

/// Reading a consistent layer chunk where its bytes stand gives the
/// record again, and the offset behind the chunk.
pub proof fn lemma_layer_record_roundtrip(r: LayerRecord, buf: Seq<u8>, pos: int)
    requires
        r.wf(),
        holds_at(buf, pos, encode_layer_record(r)),
    ensures
        parse_layer_record(buf, pos) == Ok::<(LayerRecord, int), ReadError>(
            (r, pos + 12 + r.size()),
        ),
        well_framed_leaf(buf, pos, tag_layr(), r.size()),
{
    lemma_layer_len(r);
    lemma_dict_len(r.attributes);
    lemma_i32_le_roundtrip(r.layer_id, Seq::empty());
    lemma_i32_le_roundtrip(r.reserved_id, Seq::empty());
    lemma_header_stands(buf, pos, tag_layr(), r.size(), layer_body(r));
    lemma_holds_split(
        buf,
        pos + 12,
        i32_le(r.layer_id),
        encode_dict(r.attributes) + i32_le(r.reserved_id),
    );
    lemma_holds_split(buf, pos + 16, encode_dict(r.attributes), i32_le(r.reserved_id));
    lemma_i32_roundtrip(r.layer_id, buf, pos + 12);
    lemma_dict_roundtrip(r.attributes, buf, pos + 16);
    lemma_i32_roundtrip(r.reserved_id, buf, pos + 16 + dict_size(r.attributes));
}

/// What a layer says: its identifier and its attributes.
pub struct LayerModel {
    pub id: i32,
    pub attributes: AttributesModel,
}

/// The chunk of a layer: the reserved field is -1.
pub open spec fn layer_record(l: LayerModel) -> LayerRecord {
    LayerRecord { layer_id: l.id as int, attributes: attributes_dict(l.attributes), reserved_id: -1 }
}

/// The layer that a layer chunk holds.
pub open spec fn layer_of(r: LayerRecord) -> LayerModel {
    LayerModel { id: r.layer_id as i32, attributes: attributes_of(r.attributes) }
}

/// The bytes of a layer.
pub open spec fn encode_layer(l: LayerModel) -> Seq<u8> {
    encode_layer_record(layer_record(l))
}

/// Reads the layer whose chunk starts at `pos`.
pub open spec fn parse_layer(buf: Seq<u8>, pos: int) -> Result<(LayerModel, int), ReadError> {
    match parse_layer_record(buf, pos) {
        Err(e) => Err(e),
        Ok((record, next)) => Ok((layer_of(record), next)),
    }
}

/// Whether a layer can be written: its name fits the length field of a
/// string and its chunk fits the size field of a header.
pub open spec fn layer_fits(l: LayerModel) -> bool {
    layer_record(l).wf()
}

/// Reading a layer that can be written where its bytes stand gives the
/// layer again.
pub proof fn lemma_layer_roundtrip(l: LayerModel, buf: Seq<u8>, pos: int)
    requires
        layer_fits(l),
        holds_at(buf, pos, encode_layer(l)),
    ensures
        parse_layer(buf, pos) == Ok::<(LayerModel, int), ReadError>(
            (l, pos + encode_layer(l).len()),
        ),
        well_framed_leaf(buf, pos, tag_layr(), layer_record(l).size()),
        encode_layer(l).len() == 12 + layer_record(l).size(),
{
    lemma_layer_record_roundtrip(layer_record(l), buf, pos);
    lemma_layer_len(layer_record(l));
    lemma_attributes_roundtrip(l.attributes);
}

/// The names of the chunks of a container are written as their tags, and
/// the magic as its four bytes.
pub proof fn lemma_container_tag_names()
    ensures
        tag_bytes("MAIN"@) == tag_main(),
        tag_bytes("RGBA"@) == tag_rgba(),
        tag_bytes("LAYR"@) == tag_layr(),
        tag_bytes("VOX "@) == magic(),
{
    reveal_strlit("MAIN");
    reveal_strlit("RGBA");
    reveal_strlit("LAYR");
    reveal_strlit("VOX ");
    lemma_ascii_bytes("MAIN"@, tag_main());
    lemma_ascii_bytes("RGBA"@, tag_rgba());
    lemma_ascii_bytes("LAYR"@, tag_layr());
    lemma_ascii_bytes("VOX "@, magic());
}

/// What a container says: its models, its palette, its scene graph and
/// its layers.
pub struct ContainerModel {
    pub models: Seq<ModelData>,
    pub palette: Seq<Color>,
    pub root: NodeModel,
    pub layers: Seq<LayerModel>,
}

/// The bytes of a run of models, in order.
pub open spec fn encode_models(models: Seq<ModelData>) -> Seq<u8>
    decreases models.len(),
{
    if models.len() == 0 {
        Seq::empty()
    } else {
        encode_models(models.drop_last()) + encode_model(models.last().size, models.last().voxels)
    }
}

/// The bytes of a run of layers, in order.
pub open spec fn encode_layers(layers: Seq<LayerModel>) -> Seq<u8>
    decreases layers.len(),
{
    if layers.len() == 0 {
        Seq::empty()
    } else {
        encode_layers(layers.drop_last()) + encode_layer(layers.last())
    }
}

/// What stands below the `MAIN` chunk: the models, the palette, the scene
/// graph with its nodes numbered from 0, and the layers.
pub open spec fn children_bytes(c: ContainerModel) -> Seq<u8> {
    encode_models(c.models) + (encode_palette(c.palette) + (encode_tree(
        c.root,
        0,
    ) + encode_layers(c.layers)))
}

/// The header of the `MAIN` chunk: no content, and `n` bytes of children.
pub open spec fn main_header(n: int) -> Seq<u8> {
    tag_main() + (u32_le(0) + u32_le(n))
}

/// The bytes of a container: magic, version, the `MAIN` header, and what
/// stands below it.
pub open spec fn encode_container(c: ContainerModel) -> Seq<u8> {
    (magic() + u32_le(VERSION as int)) + (main_header(children_bytes(c).len() as int)
        + children_bytes(c))
}

/// Whether a container can be written: it has 256 colours, the voxels of
/// every model and every layer fit their chunks, the scene graph can be
/// written with its nodes numbered from 0, and what stands below the `MAIN`
/// chunk fits that chunk's size field.
pub open spec fn writable(c: ContainerModel) -> bool {
    &&& c.palette.len() == 256
    &&& forall|i: int|
        0 <= i < c.models.len() ==> xyzi_size((#[trigger] c.models[i]).voxels.len()) <= i32::MAX
    &&& encodable(c.root, 0)
    &&& forall|i: int| 0 <= i < c.layers.len() ==> layer_fits(#[trigger] c.layers[i])
    &&& children_bytes(c).len() <= u32::MAX
}

/// Whether a buffer opens with the magic and has room for the version.
pub open spec fn has_magic(buf: Seq<u8>) -> bool {
    buf.len() >= 8 && buf.subrange(0, 4) == magic()
}

/// The model that a record read from a container stands for: unplaced,
/// unnamed, with the identifier given.
pub open spec fn unplaced(record: ModelRecord, id: i32) -> ModelData {
    ModelData {
        size: record.size,
        voxels: record.voxels,
        position: None,
        rotation: None,
        layer: None,
        name: None,
        id,
    }
}

/// The `i`-th model of a container, counting from 1: the model whose
/// `SIZE` chunk is the `i`-th that the scan meets. Its identifier is
/// `i - 1`.
pub open spec fn model_in(buf: Seq<u8>, i: int) -> Result<ModelData, ReadError> {
    match scan_nth(buf, tag_size(), FIRST_CHUNK as int, i) {
        Err(e) => Err(e),
        Ok(pos) => match parse_model(buf, pos) {
            Err(e) => Err(e),
            Ok((record, _)) => Ok(unplaced(record, (i - 1) as i32)),
        },
    }
}

/// The first `n` models of a container. The first that cannot be read
/// decides the error.
pub open spec fn models_in(buf: Seq<u8>, n: nat) -> Result<Seq<ModelData>, ReadError>
    decreases n,
{
    if n == 0 {
        Ok(Seq::empty())
    } else {
        match models_in(buf, (n - 1) as nat) {
            Err(e) => Err(e),
            Ok(init) => match model_in(buf, n as int) {
                Err(e) => Err(e),
                Ok(model) => Ok(init.push(model)),
            },
        }
    }
}

/// The colour that fills a palette which no chunk gives: opaque white.
pub open spec fn default_color() -> Color {
    Color { r: 255, g: 255, b: 255, a: 255 }
}

/// The palette of a container that holds no palette chunk.
pub open spec fn default_palette() -> Seq<Color> {
    Seq::new(256, |i: int| default_color())
}

/// The palette of a container: that of the first palette chunk the scan
/// meets, or the default palette where there is none.
pub open spec fn palette_in(buf: Seq<u8>) -> Result<Seq<Color>, ReadError> {
    match scan_nth(buf, tag_rgba(), FIRST_CHUNK as int, 1) {
        Err(ReadError::NotFound) => Ok(default_palette()),
        Err(e) => Err(e),
        Ok(pos) => parse_palette(buf, pos),
    }
}

/// The scene graph of a container that holds no transform node chunk: a
/// transform node with the identity placement and no child.
pub open spec fn default_root() -> NodeModel {
    NodeModel {
        node_type: NodeType::Transform(Transform::identity()),
        attributes: AttributesModel { name: None, hidden: None },
        children: Seq::empty(),
    }
}

/// The scene graph of a container: the tree at the first transform node
/// chunk the scan meets, or the default root where there is none.
pub open spec fn root_in(buf: Seq<u8>) -> Result<NodeModel, ReadError> {
    match scene_in(buf) {
        Err(ReadError::NotFound) => Ok(default_root()),
        Err(e) => Err(e),
        Ok(tree) => Ok(tree),
    }
}

/// The `i`-th layer of a container, counting from 1.
pub open spec fn layer_in(buf: Seq<u8>, i: int) -> Result<LayerModel, ReadError> {
    match scan_nth(buf, tag_layr(), FIRST_CHUNK as int, i) {
        Err(e) => Err(e),
        Ok(pos) => match parse_layer(buf, pos) {
            Err(e) => Err(e),
            Ok((layer, _)) => Ok(layer),
        },
    }
}

/// The first `n` layers of a container.
pub open spec fn layers_in(buf: Seq<u8>, n: nat) -> Result<Seq<LayerModel>, ReadError>
    decreases n,
{
    if n == 0 {
        Ok(Seq::empty())
    } else {
        match layers_in(buf, (n - 1) as nat) {
            Err(e) => Err(e),
            Ok(init) => match layer_in(buf, n as int) {
                Err(e) => Err(e),
                Ok(layer) => Ok(init.push(layer)),
            },
        }
    }
}

/// What is read from the bytes of a container, before the placements of
/// the scene graph are applied to the models: the models in the order of
/// their `SIZE` chunks, the palette, the scene graph, and the layers in the
/// order of their chunks. A buffer without the magic is corrupt.
pub open spec fn parse_container(buf: Seq<u8>) -> Result<ContainerModel, ReadError> {
    if !has_magic(buf) {
        Err(ReadError::CorruptContainer)
    } else {
        match scan_count(buf, tag_size(), FIRST_CHUNK as int) {
            Err(e) => Err(e),
            Ok(model_count) => match models_in(buf, model_count as nat) {
                Err(e) => Err(e),
                Ok(models) => match palette_in(buf) {
                    Err(e) => Err(e),
                    Ok(palette) => match root_in(buf) {
                        Err(e) => Err(e),
                        Ok(root) => match scan_count(buf, tag_layr(), FIRST_CHUNK as int) {
                            Err(e) => Err(e),
                            Ok(layer_count) => match layers_in(buf, layer_count as nat) {
                                Err(e) => Err(e),
                                Ok(layers) => Ok(ContainerModel { models, palette, root, layers }),
                            },
                        },
                    },
                },
            },
        }
    }
}

/// The tags that the chunks of a model carry.
pub open spec fn model_tags() -> Set<Seq<u8>> {
    set![tag_size(), tag_xyzi()]
}

/// The offsets at which the models of a run stand, where the run starts at
/// `pos`.
pub open spec fn model_offsets(models: Seq<ModelData>, pos: int) -> Seq<int>
    decreases models.len(),
{
    if models.len() == 0 {
        Seq::empty()
    } else {
        model_offsets(models.drop_last(), pos).push(pos + encode_models(models.drop_last()).len())
    }
}

/// The offsets at which the layers of a run stand, where the run starts at
/// `pos`.
pub open spec fn layer_offsets(layers: Seq<LayerModel>, pos: int) -> Seq<int>
    decreases layers.len(),
{
    if layers.len() == 0 {
        Seq::empty()
    } else {
        layer_offsets(layers.drop_last(), pos).push(pos + encode_layers(layers.drop_last()).len())
    }
}

/// The tags of a container's chunks differ from each other.
pub proof fn lemma_container_tags()
    ensures
        !model_tags().contains(tag_rgba()),
        !model_tags().contains(tag_layr()),
        !model_tags().contains(tag_ntrn()),
        !node_tags().contains(tag_size()),
        !node_tags().contains(tag_rgba()),
        !node_tags().contains(tag_layr()),
        tag_main() != tag_size(),
        tag_main() != tag_rgba(),
        tag_main() != tag_layr(),
        tag_main() != tag_ntrn(),
        tag_rgba() != tag_size(),
        tag_rgba() != tag_layr(),
        tag_rgba() != tag_ntrn(),
        tag_layr() != tag_size(),
        tag_layr() != tag_ntrn(),
        tag_xyzi() != tag_size(),
        tag_size().len() == 4,
        tag_xyzi().len() == 4,
        tag_main().len() == 4,
        tag_rgba().len() == 4,
        tag_layr().len() == 4,
{
    let ntrn = tag_ntrn();
    let ngrp = tag_ngrp();
    let nshp = tag_nshp();
    assert(tag_size()[0] == 83 && tag_xyzi()[0] == 88 && tag_main()[0] == 77 && tag_rgba()[0] == 82
        && tag_layr()[0] == 76 && ntrn[0] == 110 && ngrp[0] == 110 && nshp[0] == 110);
}

/// A model that stands in a buffer stands there as two whole chunks.
pub proof fn lemma_model_region(m: ModelData, buf: Seq<u8>, pos: int, tag: Seq<u8>)
    requires
        xyzi_size(m.voxels.len()) <= i32::MAX,
        holds_at(buf, pos, encode_model(m.size, m.voxels)),
    ensures
        chunks_between(buf, pos, pos + encode_model(m.size, m.voxels).len(), model_tags()),
        tagged(buf, tag, pos, pos + encode_model(m.size, m.voxels).len()) == if tag == tag_size() {
            seq![pos]
        } else if tag == tag_xyzi() {
            seq![pos + 24]
        } else {
            Seq::<int>::empty()
        },
{
    lemma_container_tags();
    lemma_model_len(m.size, m.voxels);
    let size_chunk = leaf_header(tag_size(), 12) + size_body(m.size);
    let xyzi_chunk = leaf_header(tag_xyzi(), xyzi_size(m.voxels.len())) + xyzi_body(m.voxels);
    lemma_holds_split(buf, pos, size_chunk, xyzi_chunk);
    lemma_header_stands(buf, pos, tag_size(), 12, size_body(m.size));
    lemma_header_stands(buf, pos + 24, tag_xyzi(), xyzi_size(m.voxels.len()), xyzi_body(m.voxels));
    lemma_leaf_frame(buf, pos, tag_size(), 12);
    lemma_leaf_frame(buf, pos + 24, tag_xyzi(), xyzi_size(m.voxels.len()));
    lemma_chunks_one(buf, tag, pos, tag_size(), 12);
    lemma_chunks_one(buf, tag, pos + 24, tag_xyzi(), xyzi_size(m.voxels.len()));
    let end = pos + encode_model(m.size, m.voxels).len();
    lemma_chunks_join(buf, tag, pos, pos + 24, end, set![tag_size()], set![tag_xyzi()]);
    lemma_chunks_widen(buf, pos, end, set![tag_size()].union(set![tag_xyzi()]), model_tags());
}

/// A run of models that stands in a buffer stands there as a run of whole
/// chunks; the chunks tagged `SIZE` are where the models start, and every
/// model stands at its offset.
pub proof fn lemma_models_region(models: Seq<ModelData>, buf: Seq<u8>, pos: int)
    requires
        forall|i: int|
            0 <= i < models.len() ==> xyzi_size((#[trigger] models[i]).voxels.len()) <= i32::MAX,
        holds_at(buf, pos, encode_models(models)),
    ensures
        chunks_between(buf, pos, pos + encode_models(models).len(), model_tags()),
        tagged(buf, tag_size(), pos, pos + encode_models(models).len()) == model_offsets(
            models,
            pos,
        ),
        model_offsets(models, pos).len() == models.len(),
        forall|i: int|
            0 <= i < models.len() ==> holds_at(
                buf,
                #[trigger] model_offsets(models, pos)[i],
                encode_model(models[i].size, models[i].voxels),
            ),
    decreases models.len(),
{
    if models.len() > 0 {
        let init = models.drop_last();
        let last = models.last();
        let mid = pos + encode_models(init).len();
        let end = pos + encode_models(models).len();
        assert(last == models[models.len() - 1]);
        assert forall|i: int| 0 <= i < init.len() implies xyzi_size(
            (#[trigger] init[i]).voxels.len(),
        ) <= i32::MAX by {
            assert(init[i] == models[i]);
        }
        lemma_holds_split(buf, pos, encode_models(init), encode_model(last.size, last.voxels));
        lemma_models_region(init, buf, pos);
        lemma_model_region(last, buf, mid, tag_size());
        lemma_chunks_join(buf, tag_size(), pos, mid, end, model_tags(), model_tags());
        lemma_chunks_widen(buf, pos, end, model_tags().union(model_tags()), model_tags());
        assert forall|i: int| 0 <= i < models.len() implies holds_at(
            buf,
            #[trigger] model_offsets(models, pos)[i],
            encode_model(models[i].size, models[i].voxels),
        ) by {
            if i < init.len() {
                assert(model_offsets(models, pos)[i] == model_offsets(init, pos)[i]);
                assert(init[i] == models[i]);
            }
        }
    } else {
        assert(tagged(buf, tag_size(), pos, pos) =~= Seq::<int>::empty());
    }
}

/// A run of layers that stands in a buffer stands there as a run of whole
/// chunks tagged `LAYR`, one for each layer, and every layer stands at its
/// offset.
pub proof fn lemma_layers_region(layers: Seq<LayerModel>, buf: Seq<u8>, pos: int)
    requires
        forall|i: int| 0 <= i < layers.len() ==> layer_fits(#[trigger] layers[i]),
        holds_at(buf, pos, encode_layers(layers)),
    ensures
        chunks_between(buf, pos, pos + encode_layers(layers).len(), set![tag_layr()]),
        tagged(buf, tag_layr(), pos, pos + encode_layers(layers).len()) == layer_offsets(
            layers,
            pos,
        ),
        layer_offsets(layers, pos).len() == layers.len(),
        forall|i: int|
            0 <= i < layers.len() ==> holds_at(
                buf,
                #[trigger] layer_offsets(layers, pos)[i],
                encode_layer(layers[i]),
            ),
    decreases layers.len(),
{
    if layers.len() > 0 {
        let init = layers.drop_last();
        let last = layers.last();
        let mid = pos + encode_layers(init).len();
        let end = pos + encode_layers(layers).len();
        assert(last == layers[layers.len() - 1]);
        assert forall|i: int| 0 <= i < init.len() implies layer_fits(#[trigger] init[i]) by {
            assert(init[i] == layers[i]);
        }
        lemma_holds_split(buf, pos, encode_layers(init), encode_layer(last));
        lemma_layers_region(init, buf, pos);
        lemma_layer_roundtrip(last, buf, mid);
        lemma_leaf_frame(buf, mid, tag_layr(), layer_record(last).size());
        lemma_chunks_one(buf, tag_layr(), mid, tag_layr(), layer_record(last).size());
        lemma_chunks_join(buf, tag_layr(), pos, mid, end, set![tag_layr()], set![tag_layr()]);
        lemma_chunks_widen(
            buf,
            pos,
            end,
            set![tag_layr()].union(set![tag_layr()]),
            set![tag_layr()],
        );
        assert forall|i: int| 0 <= i < layers.len() implies holds_at(
            buf,
            #[trigger] layer_offsets(layers, pos)[i],
            encode_layer(layers[i]),
        ) by {
            if i < init.len() {
                assert(layer_offsets(layers, pos)[i] == layer_offsets(init, pos)[i]);
                assert(init[i] == layers[i]);
            }
        }
    } else {
        assert(tagged(buf, tag_layr(), pos, pos) =~= Seq::<int>::empty());
    }
}

/// Where the models of a written container end.
pub open spec fn models_end(c: ContainerModel) -> int {
    20 + encode_models(c.models).len() as int
}

/// Where the palette of a written container ends.
pub open spec fn palette_end(c: ContainerModel) -> int {
    models_end(c) + encode_palette(c.palette).len()
}

/// Where the scene graph of a written container ends.
pub open spec fn tree_end(c: ContainerModel) -> int {
    palette_end(c) + encode_tree(c.root, 0).len()
}

/// Whether the parts of the container `c` stand in `buf` where a written
/// container has them.
pub open spec fn parts_stand(c: ContainerModel, buf: Seq<u8>) -> bool {
    &&& has_magic(buf)
    &&& frame_at(buf, 8, tag_main(), 0)
    &&& holds_at(buf, 20, encode_models(c.models))
    &&& holds_at(buf, models_end(c), encode_palette(c.palette))
    &&& holds_at(buf, palette_end(c), encode_tree(c.root, 0))
    &&& holds_at(buf, tree_end(c), encode_layers(c.layers))
    &&& buf.len() == tree_end(c) + encode_layers(c.layers).len()
}

/// In the bytes of a container its parts stand one behind the other.
pub proof fn lemma_container_parts(c: ContainerModel)
    requires
        children_bytes(c).len() <= u32::MAX,
    ensures
        parts_stand(c, encode_container(c)),
        encode_container(c).len() == 20 + children_bytes(c).len(),
{
    let buf = encode_container(c);
    let kids = children_bytes(c);
    lemma_u32_le_roundtrip(VERSION as int, Seq::empty());
    lemma_u32_le_roundtrip(0, Seq::empty());
    lemma_u32_le_roundtrip(kids.len() as int, Seq::empty());
    let outer = magic() + u32_le(VERSION as int);
    let rest = main_header(kids.len() as int) + kids;
    assert(buf.subrange(0, 4) =~= magic());
    lemma_holds_between(outer, rest, Seq::empty());
    assert(buf =~= outer + rest + Seq::<u8>::empty());
    lemma_holds_split(buf, 8, main_header(kids.len() as int), kids);
    lemma_holds_split(buf, 8, tag_main(), u32_le(0) + u32_le(kids.len() as int));
    lemma_holds_split(buf, 12, u32_le(0), u32_le(kids.len() as int));
    assert(tag_at(buf, 8) == tag_main());
    assert(declared_size(buf, 8) == 0);
    let tail1 = encode_palette(c.palette) + (encode_tree(c.root, 0) + encode_layers(c.layers));
    lemma_holds_split(buf, 20, encode_models(c.models), tail1);
    lemma_holds_split(
        buf,
        models_end(c),
        encode_palette(c.palette),
        encode_tree(c.root, 0) + encode_layers(c.layers),
    );
    lemma_holds_split(buf, palette_end(c), encode_tree(c.root, 0), encode_layers(c.layers));
}

/// The tags that the chunks of a written container carry.
pub open spec fn container_tags() -> Set<Seq<u8>> {
    set![tag_main()].union(model_tags()).union(set![tag_rgba()]).union(node_tags()).union(
        set![tag_layr()],
    )
}

/// Where the parts of a container that can be written stand in a buffer,
/// the buffer is a run of whole chunks from the `MAIN` chunk on, and what
/// is tagged in it is what is tagged in its parts, one behind the other.
pub proof fn lemma_container_tagged(c: ContainerModel, buf: Seq<u8>, tag: Seq<u8>)
    requires
        writable(c),
        parts_stand(c, buf),
    ensures
        chunks_between(buf, 8, buf.len() as int, container_tags()),
        tagged(buf, tag, 8, buf.len() as int) == tagged(buf, tag, 8, 20) + tagged(
            buf,
            tag,
            20,
            models_end(c),
        ) + tagged(buf, tag, models_end(c), palette_end(c)) + tagged(
            buf,
            tag,
            palette_end(c),
            tree_end(c),
        ) + tagged(buf, tag, tree_end(c), buf.len() as int),
        chunks_between(buf, 8, 20, set![tag_main()]),
        chunks_between(buf, 20, models_end(c), model_tags()),
        chunks_between(buf, models_end(c), palette_end(c), set![tag_rgba()]),
        chunks_between(buf, palette_end(c), tree_end(c), node_tags()),
        chunks_between(buf, tree_end(c), buf.len() as int, set![tag_layr()]),
{
    let end = buf.len() as int;
    lemma_chunks_one(buf, tag, 8, tag_main(), 0);
    lemma_models_region(c.models, buf, 20);
    lemma_palette_roundtrip(c.palette, buf, models_end(c));
    lemma_leaf_frame(buf, models_end(c), tag_rgba(), 1024);
    lemma_chunks_one(buf, tag, models_end(c), tag_rgba(), 1024);
    lemma_tree_region(c.root, 0, buf, palette_end(c));
    lemma_layers_region(c.layers, buf, tree_end(c));
    let s1 = set![tag_main()];
    let s2 = s1.union(model_tags());
    let s3 = s2.union(set![tag_rgba()]);
    let s4 = s3.union(node_tags());
    lemma_chunks_join(buf, tag, 8, 20, models_end(c), s1, model_tags());
    lemma_chunks_join(buf, tag, 8, models_end(c), palette_end(c), s2, set![tag_rgba()]);
    lemma_chunks_join(buf, tag, 8, palette_end(c), tree_end(c), s3, node_tags());
    lemma_chunks_join(buf, tag, 8, tree_end(c), end, s4, set![tag_layr()]);
}

/// In a written container the chunks tagged `SIZE` are where the models
/// start.
pub proof fn lemma_container_sizes(c: ContainerModel, buf: Seq<u8>)
    requires
        writable(c),
        parts_stand(c, buf),
    ensures
        chunks_between(buf, 8, buf.len() as int, container_tags()),
        tagged(buf, tag_size(), 8, buf.len() as int) == model_offsets(c.models, 20),
{
    lemma_container_tags();
    lemma_container_tagged(c, buf, tag_size());
    lemma_models_region(c.models, buf, 20);
    lemma_tagged_none(buf, tag_size(), 8, 20, set![tag_main()]);
    lemma_tagged_none(buf, tag_size(), models_end(c), palette_end(c), set![tag_rgba()]);
    lemma_tagged_none(buf, tag_size(), palette_end(c), tree_end(c), node_tags());
    lemma_tagged_none(buf, tag_size(), tree_end(c), buf.len() as int, set![tag_layr()]);
    assert(tagged(buf, tag_size(), 8, buf.len() as int) =~= model_offsets(c.models, 20));
}

/// In a written container the chunks tagged `LAYR` are where the layers
/// start.
pub proof fn lemma_container_layers(c: ContainerModel, buf: Seq<u8>)
    requires
        writable(c),
        parts_stand(c, buf),
    ensures
        tagged(buf, tag_layr(), 8, buf.len() as int) == layer_offsets(c.layers, tree_end(c)),
{
    lemma_container_tags();
    lemma_container_tagged(c, buf, tag_layr());
    lemma_layers_region(c.layers, buf, tree_end(c));
    lemma_tagged_none(buf, tag_layr(), 8, 20, set![tag_main()]);
    lemma_tagged_none(buf, tag_layr(), 20, models_end(c), model_tags());
    lemma_tagged_none(buf, tag_layr(), models_end(c), palette_end(c), set![tag_rgba()]);
    lemma_tagged_none(buf, tag_layr(), palette_end(c), tree_end(c), node_tags());
    assert(tagged(buf, tag_layr(), 8, buf.len() as int) =~= layer_offsets(
        c.layers,
        tree_end(c),
    ));
}

/// In a written container the one chunk tagged `RGBA` is the palette.
pub proof fn lemma_container_palette(c: ContainerModel, buf: Seq<u8>)
    requires
        writable(c),
        parts_stand(c, buf),
    ensures
        tagged(buf, tag_rgba(), 8, buf.len() as int) == seq![models_end(c)],
{
    lemma_container_tags();
    lemma_container_tagged(c, buf, tag_rgba());
    lemma_palette_roundtrip(c.palette, buf, models_end(c));
    lemma_leaf_frame(buf, models_end(c), tag_rgba(), 1024);
    lemma_chunks_one(buf, tag_rgba(), models_end(c), tag_rgba(), 1024);
    lemma_tagged_none(buf, tag_rgba(), 8, 20, set![tag_main()]);
    lemma_tagged_none(buf, tag_rgba(), 20, models_end(c), model_tags());
    lemma_tagged_none(buf, tag_rgba(), palette_end(c), tree_end(c), node_tags());
    lemma_tagged_none(buf, tag_rgba(), tree_end(c), buf.len() as int, set![tag_layr()]);
    assert(tagged(buf, tag_rgba(), 8, buf.len() as int) =~= seq![models_end(c)]);
}

/// In a written container whose root is a transform node the first chunk
/// tagged `nTRN` is the root's.
pub proof fn lemma_container_root(c: ContainerModel, buf: Seq<u8>)
    requires
        writable(c),
        parts_stand(c, buf),
        c.root.node_type is Transform,
    ensures
        tagged(buf, tag_ntrn(), 8, buf.len() as int).len() >= 1,
        tagged(buf, tag_ntrn(), 8, buf.len() as int)[0] == palette_end(c),
{
    let ntrn = tag_ntrn();
    lemma_container_tags();
    lemma_container_tagged(c, buf, ntrn);
    lemma_tree_region(c.root, 0, buf, palette_end(c));
    lemma_tagged_none(buf, ntrn, 8, 20, set![tag_main()]);
    lemma_tagged_none(buf, ntrn, 20, models_end(c), model_tags());
    lemma_tagged_none(buf, ntrn, models_end(c), palette_end(c), set![tag_rgba()]);
}

/// The models as they are read back from a written container: each
/// unplaced and unnamed, with its place in the list as identifier.
pub open spec fn stripped(models: Seq<ModelData>) -> Seq<ModelData> {
    Seq::new(
        models.len(),
        |i: int| unplaced(ModelRecord { size: models[i].size, voxels: models[i].voxels }, i as i32),
    )
}

/// Whether no voxel of the models has palette index 0.
pub open spec fn voxels_coloured(models: Seq<ModelData>) -> bool {
    forall|i: int, j: int|
        0 <= i < models.len() && 0 <= j < models[i].voxels.len() ==> (
        #[trigger] models[i].voxels[j]).colorindex != 0
}

/// A run of models takes at least forty bytes for each.
pub proof fn lemma_models_len(models: Seq<ModelData>)
    ensures
        encode_models(models).len() >= 40 * models.len(),
    decreases models.len(),
{
    if models.len() > 0 {
        lemma_models_len(models.drop_last());
        lemma_model_len(models.last().size, models.last().voxels);
    }
}

/// The first `n` models read from a written container are the first `n`
/// models written, unplaced and unnamed.
pub proof fn lemma_models_read_back(c: ContainerModel, buf: Seq<u8>, n: nat)
    requires
        writable(c),
        parts_stand(c, buf),
        voxels_coloured(c.models),
        n <= c.models.len(),
    ensures
        models_in(buf, n) == Ok::<Seq<ModelData>, ReadError>(stripped(c.models).take(n as int)),
    decreases n,
{
    if n > 0 {
        lemma_models_read_back(c, buf, (n - 1) as nat);
        lemma_container_sizes(c, buf);
        lemma_models_region(c.models, buf, 20);
        lemma_scan_finds_tagged(buf, tag_size(), 8, container_tags(), n as int);
        let m = c.models[n - 1];
        let pos = model_offsets(c.models, 20)[n - 1];
        assert forall|j: int| 0 <= j < m.voxels.len() implies (#[trigger] m.voxels[j]).colorindex
            != 0 by {
            assert(c.models[n - 1].voxels[j].colorindex != 0);
        }
        lemma_model_roundtrip(m.size, m.voxels, buf, pos);
        lemma_models_len(c.models);
        assert(stripped(c.models).take(n as int) =~= stripped(c.models).take(n - 1).push(
            stripped(c.models)[n - 1],
        ));
    } else {
        assert(stripped(c.models).take(0) =~= Seq::<ModelData>::empty());
    }
}

/// The first `n` layers read from a written container are the first `n`
/// layers written.
pub proof fn lemma_layers_read_back(c: ContainerModel, buf: Seq<u8>, n: nat)
    requires
        writable(c),
        parts_stand(c, buf),
        n <= c.layers.len(),
    ensures
        layers_in(buf, n) == Ok::<Seq<LayerModel>, ReadError>(c.layers.take(n as int)),
    decreases n,
{
    if n > 0 {
        lemma_layers_read_back(c, buf, (n - 1) as nat);
        lemma_container_layers(c, buf);
        lemma_container_tagged(c, buf, tag_layr());
        lemma_layers_region(c.layers, buf, tree_end(c));
        lemma_scan_finds_tagged(buf, tag_layr(), 8, container_tags(), n as int);
        let pos = layer_offsets(c.layers, tree_end(c))[n - 1];
        lemma_layer_roundtrip(c.layers[n - 1], buf, pos);
        assert(c.layers.take(n as int) =~= c.layers.take(n - 1).push(c.layers[n - 1]));
    } else {
        assert(c.layers.take(0) =~= Seq::<LayerModel>::empty());
    }
}

/// Reading undoes writing: from the bytes of a container that can be
/// written, whose scene graph has a transform node at its root and whose
/// voxels all have a palette index, the models are read back with their
/// extents and voxels, in order, and the palette, the scene graph and the
/// layers are read back as they were.
pub proof fn lemma_container_roundtrip(c: ContainerModel)
    requires
        writable(c),
        voxels_coloured(c.models),
        c.root.node_type is Transform,
    ensures
        parse_container(encode_container(c)) == Ok::<ContainerModel, ReadError>(
            ContainerModel {
                models: stripped(c.models),
                palette: c.palette,
                root: c.root,
                layers: c.layers,
            },
        ),
{
    let buf = encode_container(c);
    lemma_container_parts(c);
    lemma_container_sizes(c, buf);
    lemma_container_layers(c, buf);
    lemma_container_palette(c, buf);
    lemma_container_root(c, buf);
    lemma_models_region(c.models, buf, 20);
    lemma_layers_region(c.layers, buf, tree_end(c));
    lemma_scan_finds_tagged(buf, tag_size(), 8, container_tags(), 1);
    lemma_scan_finds_tagged(buf, tag_layr(), 8, container_tags(), 1);
    lemma_scan_finds_tagged(buf, tag_rgba(), 8, container_tags(), 1);
    lemma_scan_finds_tagged(buf, tag_ntrn(), 8, container_tags(), 1);
    lemma_models_read_back(c, buf, c.models.len());
    lemma_layers_read_back(c, buf, c.layers.len());
    lemma_palette_roundtrip(c.palette, buf, models_end(c));
    lemma_tree_roundtrip(c.root, 0, buf, palette_end(c));
    assert(stripped(c.models).take(c.models.len() as int) =~= stripped(c.models));
    assert(c.layers.take(c.layers.len() as int) =~= c.layers);
}

/// The number of bytes that a run of models takes: forty for each, and
/// four for each of its voxels.
pub open spec fn models_size(models: Seq<ModelData>) -> int
    decreases models.len(),
{
    if models.len() == 0 {
        0
    } else {
        models_size(models.drop_last()) + 40 + 4 * models.last().voxels.len()
    }
}

/// The number of bytes that a run of layers takes: for each its header
/// and the content of its chunk.
pub open spec fn layers_size(layers: Seq<LayerModel>) -> int
    decreases layers.len(),
{
    if layers.len() == 0 {
        0
    } else {
        layers_size(layers.drop_last()) + 12 + layer_record(layers.last()).size()
    }
}

/// The number of bytes that stand below the `MAIN` chunk, computed from
/// what the container holds: the sizes of its models, of the palette chunk,
/// of its scene graph and of its layers.
pub open spec fn children_size(c: ContainerModel) -> int {
    models_size(c.models) + 1036 + tree_size(c.root) + layers_size(c.layers)
}

/// The size of a run of models is never negative and grows with the run.
pub proof fn lemma_models_size_grows(models: Seq<ModelData>, i: int)
    requires
        0 <= i <= models.len(),
    ensures
        0 <= models_size(models.take(i)) <= models_size(models),
        encode_models(models).len() == models_size(models),
    decreases models.len(), models.len() - i,
{
    if models.len() > 0 {
        lemma_models_size_grows(models.drop_last(), 0);
        lemma_model_len(models.last().size, models.last().voxels);
    }
    if i == models.len() {
        assert(models.take(i) =~= models);
        if i > 0 {
            lemma_models_size_grows(models.drop_last(), i - 1);
        }
    } else {
        lemma_models_size_grows(models, i + 1);
        assert(models.take(i + 1).drop_last() =~= models.take(i));
        if i > 0 {
            lemma_models_size_grows(models.take(i), 0);
        }
    }
}

/// The size of a run of layers that can be written is never negative,
/// grows with the run, and is the number of bytes the run takes.
pub proof fn lemma_layers_size_grows(layers: Seq<LayerModel>, i: int)
    requires
        0 <= i <= layers.len(),
        forall|k: int| 0 <= k < layers.len() ==> layer_fits(#[trigger] layers[k]),
    ensures
        0 <= layers_size(layers.take(i)) <= layers_size(layers),
        encode_layers(layers).len() == layers_size(layers),
    decreases layers.len(), layers.len() - i,
{
    if layers.len() > 0 {
        let init = layers.drop_last();
        assert forall|k: int| 0 <= k < init.len() implies layer_fits(#[trigger] init[k]) by {
            assert(init[k] == layers[k]);
        }
        lemma_layers_size_grows(init, 0);
        assert(layers.last() == layers[layers.len() - 1]);
        lemma_layer_len(layer_record(layers.last()));
    }
    if i == layers.len() {
        assert(layers.take(i) =~= layers);
        if i > 0 {
            lemma_layers_size_grows(layers.drop_last(), i - 1);
        }
    } else {
        lemma_layers_size_grows(layers, i + 1);
        assert(layers.take(i + 1).drop_last() =~= layers.take(i));
        assert(layers.take(i + 1).last() == layers[i]);
        lemma_layer_len(layer_record(layers[i]));
        if i > 0 {
            assert forall|k: int| 0 <= k < layers.take(i).len() implies layer_fits(
                #[trigger] layers.take(i)[k],
            ) by {
                assert(layers.take(i)[k] == layers[k]);
            }
            lemma_layers_size_grows(layers.take(i), 0);
        }
    }
}

/// What stands below the `MAIN` chunk of a container that can be written
/// takes as many bytes as the sizes of its parts say.
pub proof fn lemma_children_size(c: ContainerModel)
    requires
        writable(c),
    ensures
        children_bytes(c).len() == children_size(c),
{
    lemma_models_size_grows(c.models, 0);
    lemma_layers_size_grows(c.layers, 0);
    lemma_colors_len(c.palette);
    lemma_u32_le_roundtrip(1024, Seq::empty());
    lemma_u32_le_roundtrip(0, Seq::empty());
    lemma_tree_size(c.root, 0);
}

} // verus!
