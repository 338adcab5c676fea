//! The wire layout of the scene graph: how the attributes and the placement
//! of a node stand in dictionaries, how a tree is laid out as a run of
//! chunks, and the proofs that reading undoes writing.

use crate::decimal::{
    decimal, lemma_decimal_roundtrip, lemma_triple_roundtrip, parse_decimal, parse_triple, triple,
};
use crate::layout::{
    dict_size, encode_group, encode_shape, encode_transform, holds_at, is_i32, lemma_ascii_bytes,
    lemma_group_len, lemma_group_progress, lemma_group_roundtrip, lemma_holds_split,
    lemma_pairs_len, lemma_shape_len, lemma_shape_progress, lemma_shape_roundtrip,
    lemma_transform_len, lemma_transform_progress, lemma_transform_roundtrip, pairs_size, pairs_wf,
    parse_group, parse_shape, parse_transform, tag_ngrp, tag_nshp, tag_ntrn, well_framed_leaf,
    DictRecord, GroupRecord, ShapeRecord, StringRecord, TransformRecord,
};
use crate::node::{forest_count, AttributesModel, NodeModel, NodeType, Transform};
use crate::riff::{tag_at, ReadError};
use crate::scan_layout::{
    chunks_between, lemma_chunks_join, lemma_chunks_one, lemma_chunks_widen, lemma_leaf_frame,
    tagged,
};
use vstd::prelude::*;
use vstd::utf8::*;

verus! {

/// The key of a node's display name, `_name`.
pub open spec fn key_name() -> Seq<u8> {
    seq![95u8, 110u8, 97u8, 109u8, 101u8]
}

/// The key of a node's hidden flag, `_hidden`.
pub open spec fn key_hidden() -> Seq<u8> {
    seq![95u8, 104u8, 105u8, 100u8, 100u8, 101u8, 110u8]
}

/// The key of a frame's rotation, `_r`.
pub open spec fn key_rotation() -> Seq<u8> {
    seq![95u8, 114u8]
}

/// The key of a frame's translation, `_t`.
pub open spec fn key_translation() -> Seq<u8> {
    seq![95u8, 116u8]
}

/// The text of a flag: `1` for true, `0` for false.
pub open spec fn flag_text(flag: bool) -> Seq<u8> {
    if flag {
        seq![49u8]
    } else {
        seq![48u8]
    }
}

impl StringRecord {
    /// The bytes of the content.
    pub open spec fn bytes(self) -> Seq<u8> {
        encode_utf8(self.content)
    }
}

/// The consistent record of a text.
pub open spec fn text_record(content: Seq<char>) -> StringRecord {
    StringRecord { size: encode_utf8(content).len() as int, content }
}

/// The consistent record of the text that `bytes` encode.
pub open spec fn bytes_record(bytes: Seq<u8>) -> StringRecord {
    text_record(decode_utf8(bytes))
}

/// Whether every byte is an ASCII character.
pub open spec fn is_ascii(bytes: Seq<u8>) -> bool {
    forall|i: int| 0 <= i < bytes.len() ==> #[trigger] bytes[i] < 128
}

/// ASCII bytes are UTF-8, and the record of their text holds exactly them.
pub proof fn lemma_ascii_record(bytes: Seq<u8>)
    requires
        is_ascii(bytes),
    ensures
        valid_utf8(bytes),
        bytes_record(bytes).bytes() == bytes,
        bytes_record(bytes).size == bytes.len(),
{
    let chars = Seq::new(bytes.len(), |i: int| bytes[i] as char);
    assert forall|i: int| 0 <= i < chars.len() implies '\0' <= (#[trigger] chars[i]) <= '\u{7f}'
        && chars[i] as u8 == bytes[i] by {
        assert(bytes[i] < 128);
    }
    lemma_ascii_bytes(chars, bytes);
    encode_utf8_valid_utf8(chars);
    encode_utf8_decode_utf8(chars);
}

/// The value of the first pair whose key is written as `key`.
pub open spec fn lookup(pairs: Seq<(StringRecord, StringRecord)>, key: Seq<u8>) -> Option<
    StringRecord,
>
    decreases pairs.len(),
{
    if pairs.len() == 0 {
        None
    } else if pairs[0].0.bytes() == key {
        Some(pairs[0].1)
    } else {
        lookup(pairs.drop_first(), key)
    }
}

/// A dictionary that declares the pairs it holds.
pub open spec fn dict_of(pairs: Seq<(StringRecord, StringRecord)>) -> DictRecord {
    DictRecord { num_of_pairs: pairs.len() as int, pairs }
}

/// The pairs that a display name takes in a dictionary.
pub open spec fn name_pairs(name: Option<Seq<char>>) -> Seq<(StringRecord, StringRecord)> {
    match name {
        Some(text) => seq![(bytes_record(key_name()), text_record(text))],
        None => Seq::empty(),
    }
}

/// The pairs that a hidden flag takes in a dictionary.
pub open spec fn hidden_pairs(hidden: Option<bool>) -> Seq<(StringRecord, StringRecord)> {
    match hidden {
        Some(flag) => seq![(bytes_record(key_hidden()), bytes_record(flag_text(flag)))],
        None => Seq::empty(),
    }
}

/// The dictionary that holds the attributes of a node: the name first,
/// then the hidden flag, each only where the node has it.
pub open spec fn attributes_dict(a: AttributesModel) -> DictRecord {
    dict_of(name_pairs(a.name) + hidden_pairs(a.hidden))
}

/// The attributes that a dictionary holds: the name under `_name`, and
/// under `_hidden` a flag that is set where the text is `1`.
pub open spec fn attributes_of(d: DictRecord) -> AttributesModel {
    AttributesModel {
        name: match lookup(d.pairs, key_name()) {
            Some(value) => Some(value.content),
            None => None,
        },
        hidden: match lookup(d.pairs, key_hidden()) {
            Some(value) => Some(value.bytes() == flag_text(true)),
            None => None,
        },
    }
}

/// The pairs that a rotation takes in a frame dictionary.
pub open spec fn rotation_pairs(rotation: Option<i32>) -> Seq<(StringRecord, StringRecord)> {
    match rotation {
        Some(r) => seq![(bytes_record(key_rotation()), bytes_record(decimal(r as int)))],
        None => Seq::empty(),
    }
}

/// The pairs that a translation takes in a frame dictionary.
pub open spec fn translation_pairs(translation: Option<(i32, i32, i32)>) -> Seq<
    (StringRecord, StringRecord),
> {
    match translation {
        Some((x, y, z)) => seq![
            (bytes_record(key_translation()), bytes_record(triple(x as int, y as int, z as int))),
        ],
        None => Seq::empty(),
    }
}

/// The frame dictionary of a placement: the rotation first, then the
/// translation, each only where the placement has it.
pub open spec fn frame_dict(t: Transform) -> DictRecord {
    dict_of(rotation_pairs(t.rotation) + translation_pairs(t.translation))
}

/// The rotation that a frame dictionary holds under `_r`. A text that is
/// no 32-bit decimal number makes the container corrupt.
pub open spec fn rotation_of(d: DictRecord) -> Result<Option<i32>, ReadError> {
    match lookup(d.pairs, key_rotation()) {
        None => Ok(None),
        Some(value) => match parse_decimal(value.bytes()) {
            Some(r) => Ok(Some(r as i32)),
            None => Err(ReadError::CorruptContainer),
        },
    }
}

/// The translation that a frame dictionary holds under `_t`. A text that
/// is not three 32-bit decimal numbers makes the container corrupt.
pub open spec fn translation_of(d: DictRecord) -> Result<Option<(i32, i32, i32)>, ReadError> {
    match lookup(d.pairs, key_translation()) {
        None => Ok(None),
        Some(value) => match parse_triple(value.bytes()) {
            Some((x, y, z)) => Ok(Some((x as i32, y as i32, z as i32))),
            None => Err(ReadError::CorruptContainer),
        },
    }
}

/// The placement that a transform chunk holds: the layer of its layer
/// field, and the rotation and the translation that its frame dictionary
/// holds.
pub open spec fn frame_of(layer: int, d: DictRecord) -> Result<Transform, ReadError> {
    match rotation_of(d) {
        Err(e) => Err(e),
        Ok(rotation) => match translation_of(d) {
            Err(e) => Err(e),
            Ok(translation) => Ok(Transform { layer: layer as i32, rotation, translation }),
        },
    }
}

/// The four keys are ASCII and differ from each other.
pub proof fn lemma_keys()
    ensures
        is_ascii(key_name()),
        is_ascii(key_hidden()),
        is_ascii(key_rotation()),
        is_ascii(key_translation()),
        is_ascii(flag_text(true)),
        is_ascii(flag_text(false)),
        key_name() != key_hidden(),
        key_rotation() != key_translation(),
        flag_text(true) != flag_text(false),
        bytes_record(key_name()).bytes() == key_name(),
        bytes_record(key_hidden()).bytes() == key_hidden(),
        bytes_record(key_rotation()).bytes() == key_rotation(),
        bytes_record(key_translation()).bytes() == key_translation(),
        bytes_record(flag_text(true)).bytes() == flag_text(true),
        bytes_record(flag_text(false)).bytes() == flag_text(false),
        bytes_record(key_name()).size == 5,
        bytes_record(key_hidden()).size == 7,
        bytes_record(key_rotation()).size == 2,
        bytes_record(key_translation()).size == 2,
        bytes_record(flag_text(true)).size == 1,
        bytes_record(flag_text(false)).size == 1,
{
    assert(key_name().len() != key_hidden().len());
    assert(key_rotation()[1] != key_translation()[1]);
    assert(flag_text(true)[0] != flag_text(false)[0]);
    lemma_ascii_record(key_name());
    lemma_ascii_record(key_hidden());
    lemma_ascii_record(key_rotation());
    lemma_ascii_record(key_translation());
    lemma_ascii_record(flag_text(true));
    lemma_ascii_record(flag_text(false));
}

/// The attributes read from the dictionary of a node's attributes are
/// those attributes.
pub proof fn lemma_attributes_roundtrip(a: AttributesModel)
    ensures
        attributes_of(attributes_dict(a)) == a,
{
    lemma_keys();
    reveal_with_fuel(lookup, 3);
    let pairs = attributes_dict(a).pairs;
    match a.name {
        Some(text) => {
            assert(pairs[0].0.bytes() == key_name());
            assert(pairs.drop_first() =~= hidden_pairs(a.hidden));
        },
        None => {
            assert(pairs =~= hidden_pairs(a.hidden));
        },
    }
    let rest = hidden_pairs(a.hidden);
    match a.hidden {
        Some(flag) => {
            assert(rest[0].0.bytes() == key_hidden());
            assert(rest.drop_first() =~= Seq::empty());
            assert(lookup(rest, key_hidden()) == Some(rest[0].1));
            assert(lookup(rest, key_name()) is None);
        },
        None => {
            assert(lookup(rest, key_hidden()) is None);
            assert(lookup(rest, key_name()) is None);
        },
    }
}

/// The placement read from the frame dictionary of a placement is that
/// placement.
pub proof fn lemma_frame_roundtrip(t: Transform)
    ensures
        frame_of(t.layer as int, frame_dict(t)) == Ok::<Transform, ReadError>(t),
{
    lemma_keys();
    reveal_with_fuel(lookup, 3);
    let pairs = frame_dict(t).pairs;
    let rest = translation_pairs(t.translation);
    match t.rotation {
        Some(r) => {
            lemma_decimal_roundtrip(r as int);
            lemma_ascii_record(decimal(r as int));
            assert(pairs[0].0.bytes() == key_rotation());
            assert(pairs.drop_first() =~= rest);
        },
        None => {
            assert(pairs =~= rest);
        },
    }
    match t.translation {
        Some((x, y, z)) => {
            lemma_triple_roundtrip(x as int, y as int, z as int);
            lemma_ascii_record(triple(x as int, y as int, z as int));
            assert(rest[0].0.bytes() == key_translation());
            assert(rest.drop_first() =~= Seq::empty());
            assert(lookup(rest, key_translation()) == Some(rest[0].1));
            assert(lookup(rest, key_rotation()) is None);
        },
        None => {
            assert(lookup(rest, key_translation()) is None);
            assert(lookup(rest, key_rotation()) is None);
        },
    }
}

/// The frame dictionary of a placement is consistent and small.
pub proof fn lemma_frame_dict_wf(t: Transform)
    ensures
        frame_dict(t).wf(),
        4 <= dict_size(frame_dict(t)) <= 100,
{
    lemma_keys();
    let pairs = frame_dict(t).pairs;
    match t.rotation {
        Some(r) => {
            lemma_decimal_roundtrip(r as int);
            lemma_ascii_record(decimal(r as int));
        },
        None => {},
    }
    match t.translation {
        Some((x, y, z)) => {
            lemma_triple_roundtrip(x as int, y as int, z as int);
            lemma_ascii_record(triple(x as int, y as int, z as int));
        },
        None => {},
    }
    reveal_with_fuel(pairs_size, 3);
    assert(pairs_wf(pairs));
    lemma_pairs_len(pairs);
    if pairs.len() == 2 {
        assert(pairs.drop_last().drop_last() =~= Seq::empty());
    } else if pairs.len() == 1 {
        assert(pairs.drop_last() =~= Seq::empty());
    }
}

/// The size of the dictionary of a node's attributes.
pub open spec fn attributes_size(a: AttributesModel) -> int {
    4 + (match a.name {
        Some(text) => 13 + encode_utf8(text).len(),
        None => 0,
    }) + (match a.hidden {
        Some(_) => 16int,
        None => 0,
    })
}

/// The dictionary of a node's attributes is consistent where the name
/// fits its length field, and has the size that the attributes give.
pub proof fn lemma_attributes_dict_wf(a: AttributesModel)
    ensures
        dict_size(attributes_dict(a)) == attributes_size(a),
        attributes_dict(a).wf() <==> (a.name matches Some(text) ==> encode_utf8(text).len()
            <= i32::MAX),
{
    lemma_keys();
    let pairs = attributes_dict(a).pairs;
    reveal_with_fuel(pairs_size, 3);
    if pairs.len() == 2 {
        assert(pairs.drop_last().drop_last() =~= Seq::empty());
        assert(pairs.drop_last().last() == pairs[0]);
        assert(pairs.last() == pairs[1]);
    } else if pairs.len() == 1 {
        assert(pairs.drop_last() =~= Seq::empty());
        assert(pairs.last() == pairs[0]);
    }
    if a.name matches Some(text) && encode_utf8(text).len() > i32::MAX {
        assert(!pairs[0].1.wf());
    } else {
        assert(pairs_wf(pairs));
    }
}

/// The identifiers of the children of a node whose first child has the
/// identifier `first`: nodes are numbered in the order in which they are
/// written, so every child comes behind the whole subtree of the child
/// before it.
pub open spec fn child_ids(nodes: Seq<NodeModel>, first: int) -> Seq<int>
    decreases nodes.len(),
{
    if nodes.len() == 0 {
        Seq::empty()
    } else {
        child_ids(nodes.drop_last(), first).push(first + forest_count(nodes.drop_last()))
    }
}

/// The chunk of a transform node with the identifier `id`: its child is
/// the next node, the reserved field is -1, and it has one frame.
pub open spec fn transform_record(n: NodeModel, t: Transform, id: int) -> TransformRecord {
    TransformRecord {
        node_id: id,
        node_attributes: attributes_dict(n.attributes),
        child_node_id: id + 1,
        reserved_id: -1,
        layer_id: t.layer as int,
        num_of_frames: 1,
        frame_attributes: frame_dict(t),
    }
}

/// The chunk of a group node with the identifier `id`.
pub open spec fn group_record(n: NodeModel, id: int) -> GroupRecord {
    GroupRecord {
        node_id: id,
        node_attributes: attributes_dict(n.attributes),
        num_of_children_nodes: n.children.len() as int,
        child_id: child_ids(n.children, id + 1),
    }
}

/// The chunk of a shape node with the identifier `id`: it holds one model
/// and no model attributes.
pub open spec fn shape_record(n: NodeModel, model_id: i32, id: int) -> ShapeRecord {
    ShapeRecord {
        node_id: id,
        node_attributes: attributes_dict(n.attributes),
        num_of_models: 1,
        model_id: model_id as int,
        model_attributes: dict_of(Seq::empty()),
    }
}

/// The chunk of a node alone, without its subtree.
pub open spec fn encode_node(n: NodeModel, id: int) -> Seq<u8> {
    match n.node_type {
        NodeType::Transform(t) => encode_transform(transform_record(n, t, id)),
        NodeType::Group => encode_group(group_record(n, id)),
        NodeType::Shape(model_id) => encode_shape(shape_record(n, model_id, id)),
    }
}

/// Whether the chunk of a node can be written: a transform has exactly
/// one child, a shape has none, and the chunk's record is consistent.
pub open spec fn node_fits(n: NodeModel, id: int) -> bool {
    match n.node_type {
        NodeType::Transform(t) => n.children.len() == 1 && transform_record(n, t, id).wf(),
        NodeType::Group => group_record(n, id).wf(),
        NodeType::Shape(model_id) => n.children.len() == 0 && shape_record(n, model_id, id).wf(),
    }
}

/// The bytes of a tree whose root has the identifier `id`: the chunk of
/// the root, then the subtrees of its children in order.
pub open spec fn encode_tree(n: NodeModel, id: int) -> Seq<u8>
    decreases n,
{
    encode_node(n, id) + encode_forest(n.children, id + 1)
}

/// The bytes of a run of subtrees, the first of which has the identifier
/// `first`.
pub open spec fn encode_forest(nodes: Seq<NodeModel>, first: int) -> Seq<u8>
    decreases nodes,
{
    if nodes.len() == 0 {
        Seq::empty()
    } else {
        encode_forest(nodes.drop_last(), first) + encode_tree(
            nodes.last(),
            first + forest_count(nodes.drop_last()),
        )
    }
}

/// Whether a tree can be written with the identifier `id` at its root:
/// the chunk of every node can.
pub open spec fn encodable(n: NodeModel, id: int) -> bool
    decreases n,
{
    node_fits(n, id) && forest_encodable(n.children, id + 1)
}

/// Whether a run of subtrees can be written, the first of them with the
/// identifier `first`.
pub open spec fn forest_encodable(nodes: Seq<NodeModel>, first: int) -> bool
    decreases nodes,
{
    nodes.len() == 0 || (forest_encodable(nodes.drop_last(), first) && encodable(
        nodes.last(),
        first + forest_count(nodes.drop_last()),
    ))
}

/// The room that is left in the buffer from `pos` on.
pub open spec fn room(buf: Seq<u8>, pos: int) -> nat {
    if pos <= buf.len() {
        (buf.len() - pos) as nat
    } else {
        0
    }
}

/// Reads the tree whose root chunk starts at `pos`, going by the tags: a
/// transform chunk is followed by its one child, a group chunk by as many
/// children as it declares, a shape chunk by nothing. Any other tag makes
/// the container corrupt. Gives the tree and the offset behind its last
/// chunk.
pub open spec fn parse_tree(buf: Seq<u8>, pos: int) -> Result<(NodeModel, int), ReadError>
    decreases room(buf, pos), 0nat,
{
    if pos < 0 || pos + 4 > buf.len() {
        Err(ReadError::CorruptContainer)
    } else if tag_at(buf, pos) == tag_ntrn() {
        match parse_transform(buf, pos) {
            Err(e) => Err(e),
            Ok((record, next)) => match frame_of(record.layer_id, record.frame_attributes) {
                Err(e) => Err(e),
                Ok(transform) => if next <= pos {
                    Err(ReadError::CorruptContainer)
                } else {
                    match parse_tree(buf, next) {
                        Err(e) => Err(e),
                        Ok((child, end)) => Ok(
                            (
                                NodeModel {
                                    node_type: NodeType::Transform(transform),
                                    attributes: attributes_of(record.node_attributes),
                                    children: seq![child],
                                },
                                end,
                            ),
                        ),
                    }
                },
            },
        }
    } else if tag_at(buf, pos) == tag_ngrp() {
        match parse_group(buf, pos) {
            Err(e) => Err(e),
            Ok((record, next)) => if next <= pos || record.num_of_children_nodes < 0 {
                Err(ReadError::CorruptContainer)
            } else {
                match parse_forest(buf, next, record.num_of_children_nodes as nat) {
                    Err(e) => Err(e),
                    Ok((children, end)) => Ok(
                        (
                            NodeModel {
                                node_type: NodeType::Group,
                                attributes: attributes_of(record.node_attributes),
                                children,
                            },
                            end,
                        ),
                    ),
                }
            },
        }
    } else if tag_at(buf, pos) == tag_nshp() {
        match parse_shape(buf, pos) {
            Err(e) => Err(e),
            Ok((record, next)) => Ok(
                (
                    NodeModel {
                        node_type: NodeType::Shape(record.model_id as i32),
                        attributes: attributes_of(record.node_attributes),
                        children: Seq::empty(),
                    },
                    next,
                ),
            ),
        }
    } else {
        Err(ReadError::CorruptContainer)
    }
}

/// Reads `n` trees one behind the other from `pos` on: the trees in order
/// and the offset behind the last.
pub open spec fn parse_forest(buf: Seq<u8>, pos: int, n: nat) -> Result<
    (Seq<NodeModel>, int),
    ReadError,
>
    decreases room(buf, pos), n,
{
    if n == 0 {
        Ok((Seq::empty(), pos))
    } else {
        match parse_forest(buf, pos, (n - 1) as nat) {
            Err(e) => Err(e),
            Ok((init, p)) => if p < pos {
                Err(ReadError::CorruptContainer)
            } else {
                match parse_tree(buf, p) {
                    Err(e) => Err(e),
                    Ok((node, end)) => Ok((init.push(node), end)),
                }
            },
        }
    }
}

/// The identifiers of the children of a node are as many as the children.
pub proof fn lemma_child_ids(nodes: Seq<NodeModel>, first: int)
    ensures
        child_ids(nodes, first).len() == nodes.len(),
        forall|i: int|
            0 <= i < nodes.len() ==> #[trigger] child_ids(nodes, first)[i] == first + forest_count(
                nodes.take(i),
            ),
    decreases nodes.len(),
{
    if nodes.len() > 0 {
        let init = nodes.drop_last();
        lemma_child_ids(init, first);
        assert forall|i: int| 0 <= i < nodes.len() implies #[trigger] child_ids(nodes, first)[i]
            == first + forest_count(nodes.take(i)) by {
            if i < init.len() {
                assert(init.take(i) =~= nodes.take(i));
            } else {
                assert(nodes.take(i) =~= init);
            }
        }
    }
}

/// The tags of the three kinds of node differ, and have four bytes.
pub proof fn lemma_node_tags()
    ensures
        tag_ntrn() != tag_ngrp(),
        tag_ntrn() != tag_nshp(),
        tag_ngrp() != tag_nshp(),
        tag_ntrn().len() == 4,
        tag_ngrp().len() == 4,
        tag_nshp().len() == 4,
{
    assert(tag_ntrn()[1] != tag_ngrp()[1]);
    assert(tag_ntrn()[1] != tag_nshp()[1]);
    assert(tag_ngrp()[1] != tag_nshp()[1]);
}

/// The chunk of a node that can be written has more than twelve bytes.
pub proof fn lemma_node_len(n: NodeModel, id: int)
    requires
        node_fits(n, id),
    ensures
        encode_node(n, id).len() > 12,
{
    match n.node_type {
        NodeType::Transform(t) => {
            lemma_transform_len(transform_record(n, t, id));
        },
        NodeType::Group => {
            lemma_group_len(group_record(n, id));
        },
        NodeType::Shape(model_id) => {
            lemma_shape_len(shape_record(n, model_id, id));
        },
    }
}

/// What the chunk of a transform node that can be written reads as, and
/// where its child stands.
pub proof fn lemma_transform_head(n: NodeModel, t: Transform, id: int, buf: Seq<u8>, pos: int)
    requires
        n.node_type == NodeType::Transform(t),
        encodable(n, id),
        holds_at(buf, pos, encode_tree(n, id)),
    ensures
        0 <= pos && pos + 4 <= buf.len(),
        tag_at(buf, pos) == tag_ntrn(),
        parse_transform(buf, pos) == Ok::<(TransformRecord, int), ReadError>(
            (transform_record(n, t, id), pos + encode_node(n, id).len()),
        ),
        encode_node(n, id).len() > 12,
        well_framed_leaf(buf, pos, tag_ntrn(), encode_node(n, id).len() - 12),
        n.children.len() == 1,
        encodable(n.children[0], id + 1),
        holds_at(buf, pos + encode_node(n, id).len(), encode_tree(n.children[0], id + 1)),
        encode_tree(n, id).len() == encode_node(n, id).len() + encode_tree(
            n.children[0],
            id + 1,
        ).len(),
{
    lemma_node_len(n, id);
    let head = encode_node(n, id);
    let tail = encode_forest(n.children, id + 1);
    lemma_holds_split(buf, pos, head, tail);
    let record = transform_record(n, t, id);
    lemma_transform_roundtrip(record, buf, pos);
    lemma_transform_len(record);
    let child = n.children[0];
    assert(n.children.drop_last() =~= Seq::empty());
    assert(n.children.last() == child);
    assert(forest_count(Seq::<NodeModel>::empty()) == 0);
    assert(encode_forest(Seq::<NodeModel>::empty(), id + 1) =~= Seq::<u8>::empty());
    assert(tail =~= encode_tree(child, id + 1));
    assert(forest_encodable(n.children, id + 1));
}

/// What the chunk of a group node that can be written reads as, and where
/// its children stand.
pub proof fn lemma_group_head(n: NodeModel, id: int, buf: Seq<u8>, pos: int)
    requires
        n.node_type == NodeType::Group,
        encodable(n, id),
        holds_at(buf, pos, encode_tree(n, id)),
    ensures
        0 <= pos && pos + 4 <= buf.len(),
        tag_at(buf, pos) == tag_ngrp(),
        parse_group(buf, pos) == Ok::<(GroupRecord, int), ReadError>(
            (group_record(n, id), pos + encode_node(n, id).len()),
        ),
        encode_node(n, id).len() > 12,
        well_framed_leaf(buf, pos, tag_ngrp(), encode_node(n, id).len() - 12),
        forest_encodable(n.children, id + 1),
        holds_at(buf, pos + encode_node(n, id).len(), encode_forest(n.children, id + 1)),
        encode_tree(n, id).len() == encode_node(n, id).len() + encode_forest(
            n.children,
            id + 1,
        ).len(),
{
    lemma_node_len(n, id);
    let head = encode_node(n, id);
    let tail = encode_forest(n.children, id + 1);
    lemma_holds_split(buf, pos, head, tail);
    let record = group_record(n, id);
    lemma_group_roundtrip(record, buf, pos);
    lemma_group_len(record);
}

/// What the chunk of a shape node that can be written reads as.
pub proof fn lemma_shape_head(n: NodeModel, model_id: i32, id: int, buf: Seq<u8>, pos: int)
    requires
        n.node_type == NodeType::Shape(model_id),
        encodable(n, id),
        holds_at(buf, pos, encode_tree(n, id)),
    ensures
        0 <= pos && pos + 4 <= buf.len(),
        tag_at(buf, pos) == tag_nshp(),
        parse_shape(buf, pos) == Ok::<(ShapeRecord, int), ReadError>(
            (shape_record(n, model_id, id), pos + encode_node(n, id).len()),
        ),
        n.children == Seq::<NodeModel>::empty(),
        encode_node(n, id).len() > 12,
        well_framed_leaf(buf, pos, tag_nshp(), encode_node(n, id).len() - 12),
        encode_tree(n, id).len() == encode_node(n, id).len(),
{
    lemma_node_len(n, id);
    let head = encode_node(n, id);
    let tail = encode_forest(n.children, id + 1);
    lemma_holds_split(buf, pos, head, tail);
    let record = shape_record(n, model_id, id);
    lemma_shape_roundtrip(record, buf, pos);
    lemma_shape_len(record);
    assert(n.children =~= Seq::empty());
    assert(tail =~= Seq::<u8>::empty());
}

/// Reading a tree that can be written where its bytes stand gives the
/// tree again, and the offset behind it.
pub proof fn lemma_tree_roundtrip(n: NodeModel, id: int, buf: Seq<u8>, pos: int)
    requires
        encodable(n, id),
        holds_at(buf, pos, encode_tree(n, id)),
    ensures
        parse_tree(buf, pos) == Ok::<(NodeModel, int), ReadError>(
            (n, pos + encode_tree(n, id).len()),
        ),
    decreases n, 1nat,
{
    lemma_node_tags();
    lemma_attributes_roundtrip(n.attributes);
    let next = pos + encode_node(n, id).len();
    match n.node_type {
        NodeType::Transform(t) => {
            lemma_transform_head(n, t, id, buf, pos);
            lemma_frame_roundtrip(t);
            let child = n.children[0];
            lemma_tree_roundtrip(child, id + 1, buf, next);
            assert(n.children =~= seq![child]);
        },
        NodeType::Group => {
            lemma_group_head(n, id, buf, pos);
            lemma_forest_roundtrip(n.children, id + 1, buf, next);
        },
        NodeType::Shape(model_id) => {
            lemma_shape_head(n, model_id, id, buf, pos);
        },
    }
}

/// Reading a run of trees that can be written where their bytes stand
/// gives the trees again, and the offset behind them.
pub proof fn lemma_forest_roundtrip(nodes: Seq<NodeModel>, first: int, buf: Seq<u8>, pos: int)
    requires
        forest_encodable(nodes, first),
        holds_at(buf, pos, encode_forest(nodes, first)),
    ensures
        parse_forest(buf, pos, nodes.len()) == Ok::<(Seq<NodeModel>, int), ReadError>(
            (nodes, pos + encode_forest(nodes, first).len()),
        ),
    decreases nodes, 0nat,
{
    if nodes.len() > 0 {
        let init = nodes.drop_last();
        let last = nodes.last();
        let id = first + forest_count(init);
        lemma_holds_split(buf, pos, encode_forest(init, first), encode_tree(last, id));
        lemma_forest_roundtrip(init, first, buf, pos);
        lemma_tree_roundtrip(last, id, buf, pos + encode_forest(init, first).len());
        assert(init.push(last) =~= nodes);
        assert((nodes.len() - 1) as nat == init.len());
    } else {
        assert(nodes =~= Seq::empty());
    }
}

/// A tree that was read ends inside the buffer, behind where it starts.
pub proof fn lemma_tree_progress(buf: Seq<u8>, pos: int)
    requires
        parse_tree(buf, pos) is Ok,
    ensures
        pos + 12 < parse_tree(buf, pos)->Ok_0.1 <= buf.len(),
    decreases room(buf, pos), 0nat,
{
    if tag_at(buf, pos) == tag_ntrn() {
        lemma_transform_progress(buf, pos);
        lemma_tree_progress(buf, parse_transform(buf, pos)->Ok_0.1);
    } else if tag_at(buf, pos) == tag_ngrp() {
        lemma_group_progress(buf, pos);
        let (record, next) = parse_group(buf, pos)->Ok_0;
        lemma_forest_progress(buf, next, record.num_of_children_nodes as nat);
    } else {
        lemma_shape_progress(buf, pos);
    }
}

/// A run of trees that was read ends inside the buffer, not before where
/// it starts, and holds as many trees as were asked for.
pub proof fn lemma_forest_progress(buf: Seq<u8>, pos: int, n: nat)
    requires
        parse_forest(buf, pos, n) is Ok,
        0 <= pos <= buf.len(),
    ensures
        pos <= parse_forest(buf, pos, n)->Ok_0.1 <= buf.len(),
        parse_forest(buf, pos, n)->Ok_0.0.len() == n,
    decreases room(buf, pos), n,
{
    if n > 0 {
        lemma_forest_progress(buf, pos, (n - 1) as nat);
        let p = parse_forest(buf, pos, (n - 1) as nat)->Ok_0.1;
        lemma_tree_progress(buf, p);
    }
}

/// Once a tree of a run cannot be read, no longer run can.
pub proof fn lemma_forest_error_stays(buf: Seq<u8>, pos: int, i: nat, n: nat)
    requires
        i <= n,
    ensures
        parse_forest(buf, pos, i) matches Err(e) ==> parse_forest(buf, pos, n) == Err::<
            (Seq<NodeModel>, int),
            ReadError,
        >(e),
    decreases n,
{
    if i < n {
        lemma_forest_error_stays(buf, pos, i, (n - 1) as nat);
    }
}

/// Where a run of subtrees can be written, so can every shorter run of
/// them.
pub proof fn lemma_forest_encodable_take(nodes: Seq<NodeModel>, first: int, i: int)
    requires
        forest_encodable(nodes, first),
        0 <= i <= nodes.len(),
    ensures
        forest_encodable(nodes.take(i), first),
    decreases nodes.len() - i,
{
    if i == nodes.len() {
        assert(nodes.take(i) =~= nodes);
    } else {
        lemma_forest_encodable_take(nodes, first, i + 1);
        assert(nodes.take(i + 1).drop_last() =~= nodes.take(i));
    }
}

/// In a tree that can be written every identifier fits its field: the
/// root's does, and so does the last one used.
pub proof fn lemma_encodable_ids(n: NodeModel, id: int)
    requires
        encodable(n, id),
    ensures
        is_i32(id),
        id + n.count() <= i32::MAX + 1,
    decreases n, 1nat,
{
    lemma_forest_encodable_ids(n.children, id + 1);
}

/// In a run of subtrees that can be written the last identifier used fits
/// its field.
pub proof fn lemma_forest_encodable_ids(nodes: Seq<NodeModel>, first: int)
    requires
        forest_encodable(nodes, first),
    ensures
        nodes.len() > 0 ==> first + forest_count(nodes) <= i32::MAX + 1,
        forest_count(nodes) >= nodes.len(),
    decreases nodes, 0nat,
{
    if nodes.len() > 0 {
        lemma_forest_encodable_ids(nodes.drop_last(), first);
        lemma_encodable_ids(nodes.last(), first + forest_count(nodes.drop_last()));
    }
}

/// The tags that the chunks of a scene graph carry.
pub open spec fn node_tags() -> Set<Seq<u8>> {
    set![tag_ntrn(), tag_ngrp(), tag_nshp()]
}

/// The bytes of a tree that can be written are a run of node chunks, and
/// where its root is a transform node, the first chunk tagged as one is
/// the root's.
pub proof fn lemma_tree_region(n: NodeModel, id: int, buf: Seq<u8>, pos: int)
    requires
        encodable(n, id),
        holds_at(buf, pos, encode_tree(n, id)),
    ensures
        chunks_between(buf, pos, pos + encode_tree(n, id).len(), node_tags()),
        n.node_type is Transform ==> tagged(
            buf,
            tag_ntrn(),
            pos,
            pos + encode_tree(n, id).len(),
        ).len() >= 1 && tagged(buf, tag_ntrn(), pos, pos + encode_tree(n, id).len())[0] == pos,
    decreases n, 1nat,
{
    let head = encode_node(n, id).len() as int;
    let end = pos + encode_tree(n, id).len();
    let next = pos + head;
    match n.node_type {
        NodeType::Transform(t) => {
            lemma_transform_head(n, t, id, buf, pos);
            lemma_leaf_frame(buf, pos, tag_ntrn(), head - 12);
            lemma_chunks_one(buf, tag_ntrn(), pos, tag_ntrn(), head - 12);
            lemma_tree_region(n.children[0], id + 1, buf, next);
            lemma_chunks_join(buf, tag_ntrn(), pos, next, end, set![tag_ntrn()], node_tags());
            lemma_chunks_widen(
                buf,
                pos,
                end,
                set![tag_ntrn()].union(node_tags()),
                node_tags(),
            );
        },
        NodeType::Group => {
            lemma_group_head(n, id, buf, pos);
            lemma_leaf_frame(buf, pos, tag_ngrp(), head - 12);
            lemma_chunks_one(buf, tag_ntrn(), pos, tag_ngrp(), head - 12);
            lemma_forest_region(n.children, id + 1, buf, next);
            lemma_chunks_join(buf, tag_ntrn(), pos, next, end, set![tag_ngrp()], node_tags());
            lemma_chunks_widen(
                buf,
                pos,
                end,
                set![tag_ngrp()].union(node_tags()),
                node_tags(),
            );
        },
        NodeType::Shape(model_id) => {
            lemma_shape_head(n, model_id, id, buf, pos);
            lemma_leaf_frame(buf, pos, tag_nshp(), head - 12);
            lemma_chunks_one(buf, tag_ntrn(), pos, tag_nshp(), head - 12);
            lemma_chunks_widen(buf, pos, end, set![tag_nshp()], node_tags());
        },
    }
}

/// The bytes of a run of subtrees that can be written are a run of node
/// chunks.
pub proof fn lemma_forest_region(nodes: Seq<NodeModel>, first: int, buf: Seq<u8>, pos: int)
    requires
        forest_encodable(nodes, first),
        holds_at(buf, pos, encode_forest(nodes, first)),
    ensures
        chunks_between(buf, pos, pos + encode_forest(nodes, first).len(), node_tags()),
    decreases nodes, 0nat,
{
    if nodes.len() > 0 {
        let init = nodes.drop_last();
        let last = nodes.last();
        let id = first + forest_count(init);
        let mid = pos + encode_forest(init, first).len();
        let end = pos + encode_forest(nodes, first).len();
        lemma_holds_split(buf, pos, encode_forest(init, first), encode_tree(last, id));
        lemma_forest_region(init, first, buf, pos);
        lemma_tree_region(last, id, buf, mid);
        lemma_chunks_join(buf, tag_ntrn(), pos, mid, end, node_tags(), node_tags());
        lemma_chunks_widen(buf, pos, end, node_tags().union(node_tags()), node_tags());
    }
}

/// The size of the content of a node's chunk, computed from what the node
/// holds: the dictionary of its attributes, and for a transform its fixed
/// fields and its frame dictionary, for a group its fixed fields and four
/// bytes for every child, for a shape its fixed fields and an empty
/// dictionary.
pub open spec fn node_size(n: NodeModel) -> int {
    attributes_size(n.attributes) + match n.node_type {
        NodeType::Transform(t) => 20 + dict_size(frame_dict(t)),
        NodeType::Group => 8 + 4 * (n.children.len() as int),
        NodeType::Shape(_) => 16int,
    }
}

/// The number of bytes that a tree takes: for every node its header and
/// the content of its chunk.
pub open spec fn tree_size(n: NodeModel) -> int
    decreases n,
{
    12 + node_size(n) + forest_size(n.children)
}

/// The number of bytes that a run of subtrees takes.
pub open spec fn forest_size(nodes: Seq<NodeModel>) -> int
    decreases nodes,
{
    if nodes.len() == 0 {
        0
    } else {
        forest_size(nodes.drop_last()) + tree_size(nodes.last())
    }
}

/// Whether the name of every node of a tree fits the length field of a
/// string.
pub open spec fn names_fit(n: NodeModel) -> bool
    decreases n,
{
    attributes_dict(n.attributes).wf() && forest_names_fit(n.children)
}

/// Whether the name of every node of a run of subtrees fits the length
/// field of a string.
pub open spec fn forest_names_fit(nodes: Seq<NodeModel>) -> bool
    decreases nodes,
{
    nodes.len() == 0 || (forest_names_fit(nodes.drop_last()) && names_fit(nodes.last()))
}

/// The size of a node's chunk is at least twelve, and is the size that the
/// chunk's record has whatever the identifier of the node.
pub proof fn lemma_node_size(n: NodeModel, id: int)
    ensures
        node_size(n) >= 12,
        node_size(n) == match n.node_type {
            NodeType::Transform(t) => transform_record(n, t, id).size(),
            NodeType::Group => group_record(n, id).size(),
            NodeType::Shape(model_id) => shape_record(n, model_id, id).size(),
        },
{
    lemma_attributes_dict_wf(n.attributes);
    lemma_child_ids(n.children, id + 1);
    match n.node_type {
        NodeType::Transform(t) => {
            lemma_frame_dict_wf(t);
        },
        NodeType::Group => {},
        NodeType::Shape(model_id) => {
            assert(pairs_size(Seq::<(StringRecord, StringRecord)>::empty()) == 0);
        },
    }
}

/// A tree takes at least twenty-four bytes.
pub proof fn lemma_tree_size_positive(n: NodeModel)
    ensures
        tree_size(n) >= 24,
    decreases n, 1nat,
{
    lemma_node_size(n, 0);
    lemma_forest_size_nonneg(n.children);
}

/// The size of a run of subtrees is never negative.
pub proof fn lemma_forest_size_nonneg(nodes: Seq<NodeModel>)
    ensures
        forest_size(nodes) >= 0,
    decreases nodes, 0nat,
{
    if nodes.len() > 0 {
        lemma_forest_size_nonneg(nodes.drop_last());
        lemma_tree_size_positive(nodes.last());
    }
}

/// The size of a run of subtrees grows with the run.
pub proof fn lemma_forest_size_grows(nodes: Seq<NodeModel>, i: int)
    requires
        0 <= i <= nodes.len(),
    ensures
        0 <= forest_size(nodes.take(i)) <= forest_size(nodes),
    decreases nodes.len() - i,
{
    lemma_forest_size_nonneg(nodes.take(i));
    if i == nodes.len() {
        assert(nodes.take(i) =~= nodes);
    } else {
        lemma_forest_size_grows(nodes, i + 1);
        assert(nodes.take(i + 1).drop_last() =~= nodes.take(i));
        assert(nodes.take(i + 1).last() == nodes[i]);
        lemma_tree_size_positive(nodes[i]);
    }
}

/// A tree that can be written takes as many bytes as its size says, and
/// the names of its nodes fit.
pub proof fn lemma_tree_size(n: NodeModel, id: int)
    requires
        encodable(n, id),
    ensures
        encode_tree(n, id).len() == tree_size(n),
        names_fit(n),
    decreases n, 1nat,
{
    lemma_node_size(n, id);
    match n.node_type {
        NodeType::Transform(t) => {
            lemma_transform_len(transform_record(n, t, id));
        },
        NodeType::Group => {
            lemma_group_len(group_record(n, id));
        },
        NodeType::Shape(model_id) => {
            lemma_shape_len(shape_record(n, model_id, id));
        },
    }
    lemma_forest_tree_size(n.children, id + 1);
}

/// A run of subtrees that can be written takes as many bytes as its size
/// says, and the names of its nodes fit.
pub proof fn lemma_forest_tree_size(nodes: Seq<NodeModel>, first: int)
    requires
        forest_encodable(nodes, first),
    ensures
        encode_forest(nodes, first).len() == forest_size(nodes),
        forest_names_fit(nodes),
    decreases nodes, 0nat,
{
    if nodes.len() > 0 {
        lemma_forest_tree_size(nodes.drop_last(), first);
        lemma_tree_size(nodes.last(), first + forest_count(nodes.drop_last()));
    }
}

/// Where the names of a run of subtrees fit, so do those of every shorter
/// run and of every subtree.
pub proof fn lemma_forest_names_fit(nodes: Seq<NodeModel>, i: int)
    requires
        forest_names_fit(nodes),
        0 <= i < nodes.len(),
    ensures
        names_fit(nodes[i]),
    decreases nodes.len(),
{
    if i < nodes.len() - 1 {
        lemma_forest_names_fit(nodes.drop_last(), i);
    }
}

/// Whether every transform node of a tree has exactly one child and every
/// shape node is a leaf.
pub open spec fn well_shaped(n: NodeModel) -> bool
    decreases n,
{
    &&& n.node_type is Transform ==> n.children.len() == 1
    &&& n.node_type is Shape ==> n.children.len() == 0
    &&& forest_well_shaped(n.children)
}

/// Whether every tree of a run is well shaped.
pub open spec fn forest_well_shaped(nodes: Seq<NodeModel>) -> bool
    decreases nodes,
{
    nodes.len() == 0 || (forest_well_shaped(nodes.drop_last()) && well_shaped(nodes.last()))
}

/// A tree that was read is well shaped.
pub proof fn lemma_parsed_tree_shaped(buf: Seq<u8>, pos: int)
    requires
        parse_tree(buf, pos) is Ok,
    ensures
        well_shaped(parse_tree(buf, pos)->Ok_0.0),
    decreases room(buf, pos), 0nat,
{
    if tag_at(buf, pos) == tag_ntrn() {
        let next = parse_transform(buf, pos)->Ok_0.1;
        lemma_parsed_tree_shaped(buf, next);
        let node = parse_tree(buf, pos)->Ok_0.0;
        assert(node.children.drop_last() =~= Seq::<NodeModel>::empty());
        assert(forest_well_shaped(Seq::<NodeModel>::empty()));
    } else if tag_at(buf, pos) == tag_ngrp() {
        let (record, next) = parse_group(buf, pos)->Ok_0;
        lemma_parsed_forest_shaped(buf, next, record.num_of_children_nodes as nat);
    } else {
        assert(forest_well_shaped(Seq::<NodeModel>::empty()));
    }
}

/// Every tree of a run that was read is well shaped.
pub proof fn lemma_parsed_forest_shaped(buf: Seq<u8>, pos: int, n: nat)
    requires
        parse_forest(buf, pos, n) is Ok,
    ensures
        forest_well_shaped(parse_forest(buf, pos, n)->Ok_0.0),
    decreases room(buf, pos), n,
{
    if n > 0 {
        lemma_parsed_forest_shaped(buf, pos, (n - 1) as nat);
        let (init, at) = parse_forest(buf, pos, (n - 1) as nat)->Ok_0;
        lemma_parsed_tree_shaped(buf, at);
        let node = parse_tree(buf, at)->Ok_0.0;
        assert(init.push(node).drop_last() =~= init);
    }
}

/// A tree that can be written is well shaped.
pub proof fn lemma_encodable_shaped(n: NodeModel, id: int)
    requires
        encodable(n, id),
    ensures
        well_shaped(n),
    decreases n, 1nat,
{
    lemma_forest_encodable_shaped(n.children, id + 1);
}

/// Every tree of a run that can be written is well shaped.
pub proof fn lemma_forest_encodable_shaped(nodes: Seq<NodeModel>, first: int)
    requires
        forest_encodable(nodes, first),
    ensures
        forest_well_shaped(nodes),
    decreases nodes, 0nat,
{
    if nodes.len() > 0 {
        lemma_forest_encodable_shaped(nodes.drop_last(), first);
        lemma_encodable_shaped(nodes.last(), first + forest_count(nodes.drop_last()));
    }
}

} // verus!
