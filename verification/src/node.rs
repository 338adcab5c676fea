//! The scene graph: transform, group and shape nodes in a tree that owns
//! its children.

use crate::decimal::{
    decimal, lemma_decimal_roundtrip, lemma_triple_roundtrip, push_decimal, push_triple,
    read_decimal, read_triple, triple,
};
use crate::layout::{
    dict_size, ids_wf, is_i32, lemma_dict_len, lemma_group_progress, lemma_tag_names,
    lemma_transform_progress, pairs_size,
};
use crate::riff::{ids_view, nGRP, nSHP, nTRN, pairs_view, tag_matches, Dict, ReadError, VoxString};
use crate::scene_layout::{
    forest_names_fit, forest_size, lemma_forest_names_fit, lemma_forest_size_grows,
    lemma_node_size, names_fit, node_size, tree_size,
    attributes_dict, attributes_of, child_ids, encodable, encode_forest, encode_node, encode_tree,
    flag_text, forest_encodable, frame_dict, frame_of, group_record, hidden_pairs, key_hidden,
    key_name, key_rotation, key_translation, lemma_attributes_dict_wf, lemma_child_ids,
    lemma_encodable_ids, lemma_forest_encodable_take, lemma_forest_error_stays, lemma_frame_dict_wf,
    lemma_keys, lemma_node_tags, lemma_tree_progress, name_pairs, node_fits, parse_forest,
    parse_tree, room, rotation_pairs, shape_record, transform_record, translation_pairs,
};
use vstd::prelude::*;
use vstd::string::*;
use vstd::utf8::*;

verus! {

/// Where a transform node puts what hangs below it.
#[derive(Clone, Copy, Debug)]
pub struct Transform {
    pub layer: i32,
    pub rotation: Option<i32>,
    pub translation: Option<(i32, i32, i32)>,
}

impl Default for Transform {
    /// The identity placement: layer 0, no rotation, no translation.
    fn default() -> (transform: Transform)
        ensures
            transform == Transform::identity(),
    {
        Transform { layer: 0, rotation: None, translation: None }
    }
}

impl Transform {
    /// The identity placement: layer 0, no rotation, no translation.
    pub open spec fn identity() -> Transform {
        Transform { layer: 0, rotation: None, translation: None }
    }
}

/// The three kinds of node. A shape carries the identifier of its model.
#[derive(Clone, Copy, Debug)]
pub enum NodeType {
    Transform(Transform),
    Group,
    Shape(i32),
}

/// What every node may carry besides its kind: a display name and a
/// hidden flag.
#[derive(Debug)]
pub struct NodeAttributes {
    pub name: Option<String>,
    pub hidden: Option<bool>,
}

/// What the attributes of a node say.
pub struct AttributesModel {
    pub name: Option<Seq<char>>,
    pub hidden: Option<bool>,
}

/// What an optional text says.
pub open spec fn text_view(text: Option<String>) -> Option<Seq<char>> {
    match text {
        Some(s) => Some(s@),
        None => None,
    }
}

impl View for NodeAttributes {
    type V = AttributesModel;

    open spec fn view(&self) -> AttributesModel {
        AttributesModel { name: text_view(self.name), hidden: self.hidden }
    }
}

impl NodeAttributes {
    /// Attributes without name and hidden flag.
    pub fn new() -> (attributes: NodeAttributes)
        ensures
            attributes.name is None,
            attributes.hidden is None,
    {
        NodeAttributes { name: None, hidden: None }
    }
}

/// A node of the scene graph together with the subtree it owns.
#[derive(Debug)]
pub struct Node {
    pub node_type: NodeType,
    pub attributes: NodeAttributes,
    pub children: Vec<Node>,
}

/// What a node and its subtree say.
pub struct NodeModel {
    pub node_type: NodeType,
    pub attributes: AttributesModel,
    pub children: Seq<NodeModel>,
}

impl Node {
    /// What the node and its subtree say.
    pub open spec fn model(&self) -> NodeModel
        decreases self,
    {
        NodeModel {
            node_type: self.node_type,
            attributes: self.attributes@,
            children: Seq::new(
                self.children@.len(),
                |i: int|
                    if 0 <= i < self.children@.len() {
                        self.children@[i].model()
                    } else {
                        arbitrary()
                    },
            ),
        }
    }
}

impl View for Node {
    type V = NodeModel;

    open spec fn view(&self) -> NodeModel {
        self.model()
    }
}

/// What a list of nodes says.
pub open spec fn nodes_view(nodes: Seq<Node>) -> Seq<NodeModel> {
    Seq::new(nodes.len(), |i: int| nodes[i]@)
}

impl NodeModel {
    /// The number of nodes in the subtree, the node itself included.
    pub open spec fn count(self) -> nat
        decreases self,
    {
        1 + forest_count(self.children)
    }

    /// Whether the node has exactly one child and that child is a shape.
    pub open spec fn has_child_shape(self) -> bool {
        self.children.len() == 1 && self.children[0].node_type is Shape
    }
}

/// The number of nodes in a list of subtrees.
pub open spec fn forest_count(nodes: Seq<NodeModel>) -> nat
    decreases nodes,
{
    if nodes.len() == 0 {
        0
    } else {
        forest_count(nodes.drop_last()) + nodes.last().count()
    }
}

impl Node {
    /// A node of the kind and with the attributes given, without children.
    pub fn new(node_type: NodeType, attributes: NodeAttributes) -> (node: Node)
        ensures
            node.node_type == node_type,
            node.attributes == attributes,
            node.children@ == Seq::<Node>::empty(),
    {
        Node { node_type, attributes, children: Vec::new() }
    }

    /// Makes `child` the last child of the node.
    pub fn add_child(&mut self, child: Node)
        ensures
            final(self).node_type == old(self).node_type,
            final(self).attributes == old(self).attributes,
            final(self).children@ == old(self).children@.push(child),
    {
        self.children.push(child);
    }

    /// Whether the node has exactly one child and that child is a shape.
    pub fn has_child_shape(&self) -> (answer: bool)
        ensures
            answer == (self.children@.len() == 1 && self.children@[0].node_type is Shape),
    {
        if self.children.len() != 1 {
            return false;
        }
        match self.children[0].node_type {
            NodeType::Shape(_) => true,
            _ => false,
        }
    }
}

/// The view of a node lists the views of its children.
pub proof fn lemma_node_view(node: Node)
    ensures
        node@.children == nodes_view(node.children@),
        node@.node_type == node.node_type,
        node@.attributes == node.attributes@,
{
    assert(node@.children =~= nodes_view(node.children@));
}

/// Where a model goes: the identifier of the model, its translation and
/// its layer.
pub type Placement = (i32, Option<(i32, i32, i32)>, Option<i32>);

impl NodeModel {
    /// The placement that the node gives a model: a transform node with
    /// exactly one child, a shape, places the model of that shape. Any other
    /// node places nothing.
    pub open spec fn placement(self) -> Option<Placement> {
        match self.node_type {
            NodeType::Transform(transform) => if self.has_child_shape() {
                Some(
                    (
                        self.children[0].node_type->Shape_0,
                        transform.translation,
                        Some(transform.layer),
                    ),
                )
            } else {
                None
            },
            _ => None,
        }
    }

    /// The placements that the subtree gives, the node's own first, then
    /// those of its children in order.
    pub open spec fn placements(self) -> Seq<Placement>
        decreases self,
    {
        (match self.placement() {
            Some(p) => seq![p],
            None => Seq::empty(),
        }) + forest_placements(self.children)
    }
}

/// The placements that a list of subtrees gives, in order.
pub open spec fn forest_placements(nodes: Seq<NodeModel>) -> Seq<Placement>
    decreases nodes,
{
    if nodes.len() == 0 {
        Seq::empty()
    } else {
        forest_placements(nodes.drop_last()) + nodes.last().placements()
    }
}

impl Node {
    /// The placement that the node gives a model, if it gives one.
    pub fn placement(&self) -> (result: Option<Placement>)
        ensures
            result == self@.placement(),
    {
        proof {
            lemma_node_view(*self);
        }
        match self.node_type {
            NodeType::Transform(transform) => {
                if self.children.len() != 1 {
                    return None;
                }
                match self.children[0].node_type {
                    NodeType::Shape(id) => Some((id, transform.translation, Some(transform.layer))),
                    _ => None,
                }
            },
            _ => None,
        }
    }

    /// Appends to `out` the placements that the subtree gives, the node's
    /// own first, then those of its children in order.
    pub fn collect_placements(&self, out: &mut Vec<Placement>)
        ensures
            final(out)@ == old(out)@ + self@.placements(),
        decreases self,
    {
        proof {
            lemma_node_view(*self);
        }
        match self.placement() {
            Some(p) => {
                out.push(p);
            },
            None => {},
        }
        let ghost head = out@;
        let ghost kids = self@.children;
        assert(head =~= old(out)@ + (match self@.placement() {
            Some(p) => seq![p],
            None => Seq::empty(),
        }));
        let mut i: usize = 0;
        assert(head + forest_placements(kids.take(0)) =~= head);
        while i < self.children.len()
            invariant
                i <= self.children.len(),
                kids == nodes_view(self.children@),
                out@ == head + forest_placements(kids.take(i as int)),
            decreases self.children.len() - i,
        {
            assert(kids.take(i + 1).drop_last() =~= kids.take(i as int));
            assert(kids.take(i + 1).last() == self.children@[i as int]@);
            self.children[i].collect_placements(out);
            assert(out@ =~= head + forest_placements(kids.take(i + 1)));
            i = i + 1;
        }
        assert(kids.take(i as int) =~= kids);
        assert(out@ =~= old(out)@ + self@.placements());
    }

    /// The number of nodes below this one, at any depth; the largest
    /// number there is where they are more than that.
    pub fn num_children(&self) -> (count: usize)
        ensures
            count == saturated(self@.count() - 1),
        decreases self,
    {
        proof {
            lemma_node_view(*self);
        }
        let ghost kids = self@.children;
        let mut count: usize = 0;
        let mut i: usize = 0;
        assert(kids.take(0) =~= Seq::empty());
        while i < self.children.len()
            invariant
                i <= self.children.len(),
                kids == nodes_view(self.children@),
                count == saturated(forest_count(kids.take(i as int)) as int),
            decreases self.children.len() - i,
        {
            assert(kids.take(i + 1).drop_last() =~= kids.take(i as int));
            assert(kids.take(i + 1).last() == self.children@[i as int]@);
            let below = self.children[i].num_children();
            if below == usize::MAX || count >= usize::MAX - below {
                count = usize::MAX;
            } else {
                count = count + 1 + below;
            }
            i = i + 1;
        }
        assert(kids.take(i as int) =~= kids);
        count
    }
}

/// A count as far as a machine word can hold it.
pub open spec fn saturated(n: int) -> int {
    if n <= usize::MAX {
        n
    } else {
        usize::MAX as int
    }
}

/// The bytes of the key `_name`.
fn name_key() -> (key: Vec<u8>)
    ensures
        key@ == key_name(),
{
    let mut key: Vec<u8> = Vec::new();
    key.push(95);
    key.push(110);
    key.push(97);
    key.push(109);
    key.push(101);
    assert(key@ =~= key_name());
    key
}

/// The bytes of the key `_hidden`.
fn hidden_key() -> (key: Vec<u8>)
    ensures
        key@ == key_hidden(),
{
    let mut key: Vec<u8> = Vec::new();
    key.push(95);
    key.push(104);
    key.push(105);
    key.push(100);
    key.push(100);
    key.push(101);
    key.push(110);
    assert(key@ =~= key_hidden());
    key
}

/// The bytes of the key `_r`.
fn rotation_key() -> (key: Vec<u8>)
    ensures
        key@ == key_rotation(),
{
    let mut key: Vec<u8> = Vec::new();
    key.push(95);
    key.push(114);
    assert(key@ =~= key_rotation());
    key
}

/// The bytes of the key `_t`.
fn translation_key() -> (key: Vec<u8>)
    ensures
        key@ == key_translation(),
{
    let mut key: Vec<u8> = Vec::new();
    key.push(95);
    key.push(116);
    assert(key@ =~= key_translation());
    key
}

/// The bytes of the text of a flag.
fn flag_bytes(flag: bool) -> (text: Vec<u8>)
    ensures
        text@ == flag_text(flag),
{
    let mut text: Vec<u8> = Vec::new();
    text.push(if flag {
        49
    } else {
        48
    });
    assert(text@ =~= flag_text(flag));
    text
}

impl NodeAttributes {
    /// The dictionary that holds the attributes, or nothing where the name
    /// is too long for the length field of a string.
    pub fn to_dict(&self) -> (result: Option<Dict>)
        ensures
            result is Some <==> attributes_dict(self@).wf(),
            result matches Some(dict) ==> dict@ == attributes_dict(self@),
    {
        proof {
            lemma_keys();
            lemma_attributes_dict_wf(self@);
        }
        let mut pairs: Vec<(VoxString, VoxString)> = Vec::new();
        match &self.name {
            Some(name) => {
                let value = match VoxString::from_text(name.clone()) {
                    Some(value) => value,
                    None => {
                        return None;
                    },
                };
                pairs.push((VoxString::from_ascii(name_key()), value));
            },
            None => {},
        }
        assert(pairs_view(pairs@) =~= name_pairs(self@.name));
        match self.hidden {
            Some(flag) => {
                pairs.push(
                    (VoxString::from_ascii(hidden_key()), VoxString::from_ascii(flag_bytes(flag))),
                );
            },
            None => {},
        }
        assert(pairs_view(pairs@) =~= name_pairs(self@.name) + hidden_pairs(self@.hidden));
        Some(Dict::from_pairs(pairs))
    }

    /// The attributes that a dictionary holds.
    pub fn from_dict(dict: &Dict) -> (attributes: NodeAttributes)
        ensures
            attributes@ == attributes_of(dict@),
    {
        let name = match dict.get(name_key().as_slice()) {
            Some(value) => Some(value.content.clone()),
            None => None,
        };
        let hidden = match dict.get(hidden_key().as_slice()) {
            Some(value) => Some(value.is_bytes(flag_bytes(true).as_slice())),
            None => None,
        };
        NodeAttributes { name, hidden }
    }
}

impl Transform {
    /// The frame dictionary that holds the rotation and the translation.
    pub fn to_frame(&self) -> (dict: Dict)
        ensures
            dict@ == frame_dict(*self),
            dict@.wf(),
    {
        proof {
            lemma_keys();
            lemma_frame_dict_wf(*self);
        }
        let mut pairs: Vec<(VoxString, VoxString)> = Vec::new();
        match self.rotation {
            Some(rotation) => {
                let mut text: Vec<u8> = Vec::new();
                push_decimal(&mut text, rotation);
                proof {
                    lemma_decimal_roundtrip(rotation as int);
                    assert(text@ =~= decimal(rotation as int));
                }
                pairs.push((VoxString::from_ascii(rotation_key()), VoxString::from_ascii(text)));
            },
            None => {},
        }
        assert(pairs_view(pairs@) =~= rotation_pairs(self.rotation));
        match self.translation {
            Some((x, y, z)) => {
                let mut text: Vec<u8> = Vec::new();
                push_triple(&mut text, x, y, z);
                proof {
                    lemma_triple_roundtrip(x as int, y as int, z as int);
                    assert(text@ =~= triple(x as int, y as int, z as int));
                }
                pairs.push(
                    (VoxString::from_ascii(translation_key()), VoxString::from_ascii(text)),
                );
            },
            None => {},
        }
        assert(pairs_view(pairs@) =~= rotation_pairs(self.rotation) + translation_pairs(
            self.translation,
        ));
        Dict::from_pairs(pairs)
    }

    /// The placement that a transform chunk holds: the layer given, and
    /// the rotation and the translation that the frame dictionary holds.
    pub fn from_frame(layer: i32, dict: &Dict) -> (result: Result<Transform, ReadError>)
        ensures
            result == frame_of(layer as int, dict@),
    {
        let rotation = match dict.get(rotation_key().as_slice()) {
            None => None,
            Some(value) => {
                let text = value.content.as_str().as_bytes();
                assert(text@.subrange(0, text@.len() as int) =~= text@);
                match read_decimal(text, 0, text.len()) {
                    Some(rotation) => Some(rotation),
                    None => {
                        return Err(ReadError::CorruptContainer);
                    },
                }
            },
        };
        let translation = match dict.get(translation_key().as_slice()) {
            None => None,
            Some(value) => {
                match read_triple(value.content.as_str().as_bytes()) {
                    Some(translation) => Some(translation),
                    None => {
                        return Err(ReadError::CorruptContainer);
                    },
                }
            },
        };
        Ok(Transform { layer, rotation, translation })
    }
}

impl Node {
    /// Reads the tree whose root chunk starts at `*cursor`, going by the
    /// tags, and moves the cursor behind its last chunk. On failure the
    /// cursor stays where it was.
    #[verifier::loop_isolation(false)]
    pub fn read(input: &Vec<u8>, cursor: &mut i32) -> (result: Result<Node, ReadError>)
        requires
            input@.len() <= i32::MAX,
        ensures
            match parse_tree(input@, *old(cursor) as int) {
                Ok((tree, end)) => result matches Ok(node) && node@ == tree && *final(cursor)
                    == end,
                Err(e) => result == Err::<Node, ReadError>(e) && *final(cursor) == *old(cursor),
            },
        decreases room(input@, *old(cursor) as int),
    {
        let start = *cursor;
        if start < 0 || input.len() < 4 || start as usize > input.len() - 4 {
            return Err(ReadError::CorruptContainer);
        }
        let at = start as usize;
        let mut pos = start;
        proof {
            lemma_tag_names();
            lemma_node_tags();
        }
        if tag_matches(input, at, "nTRN".as_bytes()) {
            let record = nTRN::read(input, &mut pos)?;
            proof {
                lemma_transform_progress(input@, start as int);
            }
            let transform = Transform::from_frame(record.layer_id, &record.frame_attributes)?;
            let child = Node::read(input, &mut pos)?;
            let attributes = NodeAttributes::from_dict(&record.node_attributes);
            let mut children: Vec<Node> = Vec::new();
            children.push(child);
            *cursor = pos;
            let node = Node { node_type: NodeType::Transform(transform), attributes, children };
            proof {
                lemma_node_view(node);
                assert(node@.children =~= seq![child@]);
            }
            Ok(node)
        } else if tag_matches(input, at, "nGRP".as_bytes()) {
            let record = nGRP::read(input, &mut pos)?;
            proof {
                lemma_group_progress(input@, start as int);
            }
            let ghost next = pos as int;
            let count = record.num_of_children_nodes;
            let mut children: Vec<Node> = Vec::new();
            let mut i: i32 = 0;
            assert(nodes_view(children@) =~= Seq::empty());
            while i < count
                invariant
                    0 <= i <= count,
                    start < next <= pos <= input@.len(),
                    parse_forest(input@, next, i as nat) == Ok::<
                        (Seq<NodeModel>, int),
                        ReadError,
                    >((nodes_view(children@), pos as int)),
                decreases count - i,
            {
                proof {
                    lemma_forest_error_stays(input@, next, (i + 1) as nat, count as nat);
                    assert(parse_forest(input@, next, ((i + 1) as nat - 1) as nat) == parse_forest(
                        input@,
                        next,
                        i as nat,
                    ));
                    if parse_tree(input@, pos as int) is Ok {
                        lemma_tree_progress(input@, pos as int);
                    }
                }
                let child = Node::read(input, &mut pos)?;
                let ghost before = children@;
                children.push(child);
                assert(nodes_view(children@) =~= nodes_view(before).push(child@));
                i = i + 1;
            }
            let attributes = NodeAttributes::from_dict(&record.node_attributes);
            *cursor = pos;
            let node = Node { node_type: NodeType::Group, attributes, children };
            proof {
                lemma_node_view(node);
            }
            Ok(node)
        } else if tag_matches(input, at, "nSHP".as_bytes()) {
            let record = nSHP::read(input, &mut pos)?;
            let attributes = NodeAttributes::from_dict(&record.node_attributes);
            *cursor = pos;
            let node = Node {
                node_type: NodeType::Shape(record.model_id),
                attributes,
                children: Vec::new(),
            };
            proof {
                lemma_node_view(node);
                assert(node@.children =~= Seq::empty());
            }
            Ok(node)
        } else {
            Err(ReadError::CorruptContainer)
        }
    }
}

/// The largest number of nodes that is counted exactly.
pub const NODE_CAP: u64 = 0x1_0000_0000;

/// A count, cut off just above the cap.
pub open spec fn capped(n: nat) -> nat {
    if n <= NODE_CAP {
        n
    } else {
        (NODE_CAP + 1) as nat
    }
}

/// Whether `after` starts with `before`.
pub open spec fn extends(before: Seq<u8>, after: Seq<u8>) -> bool {
    before.len() <= after.len() && after.subrange(0, before.len() as int) == before
}

impl Node {
    /// The number of nodes in the subtree, the node itself included, cut
    /// off just above the cap.
    fn count_capped(&self) -> (count: u64)
        ensures
            count == capped(self@.count()),
        decreases self,
    {
        proof {
            lemma_node_view(*self);
        }
        let ghost kids = self@.children;
        let mut count: u64 = 1;
        let mut i: usize = 0;
        while i < self.children.len()
            invariant
                i <= self.children.len(),
                kids == nodes_view(self.children@),
                count == capped(1 + forest_count(kids.take(i as int))),
            decreases self.children.len() - i,
        {
            assert(kids.take(i + 1).drop_last() =~= kids.take(i as int));
            assert(kids.take(i + 1).last() == self.children@[i as int]@);
            let below = self.children[i].count_capped();
            count = count + below;
            if count > NODE_CAP {
                count = NODE_CAP + 1;
            }
            i = i + 1;
        }
        assert(kids.take(i as int) =~= kids);
        count
    }

    /// Appends the tree to `out` with the identifier `id` at its root: the
    /// chunk of the node, then the subtrees of its children in order, every
    /// node numbered as it is written. Nothing is written where the tree
    /// cannot be written with that identifier.
    pub fn write(&self, out: &mut Vec<u8>, id: i32) -> (written: bool)
        ensures
            written == encodable(self@, id as int),
            written ==> final(out)@ == old(out)@ + encode_tree(self@, id as int),
            !written ==> final(out)@ == old(out)@,
    {
        let len = out.len();
        match self.write_subtree(out, id as i64) {
            Some(_) => true,
            None => {
                out.truncate(len);
                assert(out@ =~= old(out)@);
                false
            },
        }
    }

    /// Appends the chunk of the node alone, where it can be written, with
    /// the identifiers given for the node and its children.
    fn write_node(&self, out: &mut Vec<u8>, id: i64) -> (written: bool)
        ensures
            written == node_fits(self@, id as int),
            written ==> final(out)@ == old(out)@ + encode_node(self@, id as int),
            !written ==> final(out)@ == old(out)@,
    {
        proof {
            lemma_node_view(*self);
            lemma_attributes_dict_wf(self@.attributes);
        }
        if id < i32::MIN as i64 || id > i32::MAX as i64 {
            return false;
        }
        let node_attributes = match self.attributes.to_dict() {
            Some(dict) => dict,
            None => {
                return false;
            },
        };
        proof {
            lemma_dict_len(node_attributes@);
        }
        let attributes_size = node_attributes.wide_size();
        match self.node_type {
            NodeType::Transform(transform) => {
                if self.children.len() != 1 || id == i32::MAX as i64 {
                    return false;
                }
                let frame_attributes = transform.to_frame();
                proof {
                    lemma_frame_dict_wf(transform);
                    lemma_dict_len(frame_attributes@);
                }
                if 20 + attributes_size + frame_attributes.wide_size() > i32::MAX as u64 {
                    return false;
                }
                let record = nTRN {
                    node_id: id as i32,
                    node_attributes,
                    child_node_id: (id + 1) as i32,
                    reserved_id: -1,
                    layer_id: transform.layer,
                    num_of_frames: 1,
                    frame_attributes,
                };
                assert(record@ == transform_record(self@, transform, id as int));
                record.write(out);
                true
            },
            NodeType::Group => {
                let count = self.children.len();
                if count > 0x1fff_ffff {
                    proof {
                        lemma_child_ids(self@.children, id + 1);
                    }
                    return false;
                }
                if 8 + attributes_size + 4 * (count as u64) > i32::MAX as u64 {
                    proof {
                        lemma_child_ids(self@.children, id + 1);
                    }
                    return false;
                }
                let child_id = match self.child_ids(id + 1) {
                    Some(child_id) => child_id,
                    None => {
                        return false;
                    },
                };
                let record = nGRP {
                    node_id: id as i32,
                    node_attributes,
                    num_of_children_nodes: count as i32,
                    child_id,
                };
                proof {
                    lemma_child_ids(self@.children, id + 1);
                    assert(record@.child_id == child_ids(self@.children, id + 1));
                    assert(record@ == group_record(self@, id as int));
                    assert(record@.size() == 8 + dict_size(record@.node_attributes) + 4 * count);
                    assert(record@.wf());
                }
                record.write(out);
                true
            },
            NodeType::Shape(model_id) => {
                if self.children.len() != 0 {
                    return false;
                }
                if 16 + attributes_size > i32::MAX as u64 {
                    return false;
                }
                let model_attributes = Dict::from_pairs(Vec::new());
                assert(model_attributes@.pairs =~= Seq::empty());
                assert(pairs_size(model_attributes@.pairs) == 0);
                let record = nSHP {
                    node_id: id as i32,
                    node_attributes,
                    num_of_models: 1,
                    model_id,
                    model_attributes,
                };
                assert(record@ == shape_record(self@, model_id, id as int));
                record.write(out);
                true
            },
        }
    }

    /// The identifiers of the children where the first child has the
    /// identifier `first`, or nothing where one of them does not fit its
    /// field.
    fn child_ids(&self, first: i64) -> (result: Option<Vec<i32>>)
        requires
            i32::MIN <= first <= i32::MAX + 1,
        ensures
            result is Some <==> ids_wf(child_ids(self@.children, first as int)),
            result matches Some(ids) ==> ids_view(ids@) == child_ids(self@.children, first as int),
    {
        proof {
            lemma_node_view(*self);
            lemma_child_ids(self@.children, first as int);
        }
        let ghost kids = self@.children;
        let ghost wanted = child_ids(kids, first as int);
        let mut ids: Vec<i32> = Vec::new();
        let mut next: i64 = first;
        let mut i: usize = 0;
        assert(kids.take(0) =~= Seq::empty());
        while i < self.children.len()
            invariant
                i <= self.children.len(),
                kids == nodes_view(self.children@),
                kids == self@.children,
                wanted == child_ids(kids, first as int),
                wanted.len() == kids.len(),
                forall|k: int|
                    0 <= k < kids.len() ==> #[trigger] wanted[k] == first + forest_count(
                        kids.take(k),
                    ),
                ids@.len() == i,
                forall|k: int| 0 <= k < i ==> (#[trigger] ids@[k]) as int == wanted[k],
                i32::MIN <= first <= i32::MAX + 1,
                first <= next <= 0x1_8000_0001,
                next == first + forest_count(kids.take(i as int)) || (next > i32::MAX && first
                    + forest_count(kids.take(i as int)) > i32::MAX),
            decreases self.children.len() - i,
        {
            if next > i32::MAX as i64 {
                proof {
                    assert(!is_i32(wanted[i as int]));
                }
                return None;
            }
            ids.push(next as i32);
            assert(kids.take(i + 1).drop_last() =~= kids.take(i as int));
            assert(kids.take(i + 1).last() == self.children@[i as int]@);
            let below = self.children[i].count_capped();
            next = next + below as i64;
            i = i + 1;
        }
        assert(ids_view(ids@) =~= wanted);
        Some(ids)
    }

    /// Appends the tree to `out` with the identifier `id` at its root and
    /// gives the identifier behind the last one used, or nothing where
    /// the tree cannot be written with that identifier; `out` then holds what
    /// it held, and behind that what was written before the fault was met.
    fn write_subtree(&self, out: &mut Vec<u8>, id: i64) -> (next: Option<i64>)
        requires
            i32::MIN <= id <= i32::MAX + 1,
        ensures
            extends(old(out)@, final(out)@),
            next is Some <==> encodable(self@, id as int),
            next matches Some(n) ==> final(out)@ == old(out)@ + encode_tree(self@, id as int) && n
                == id + self@.count(),
        decreases self,
    {
        proof {
            lemma_node_view(*self);
        }
        if !self.write_node(out, id) {
            assert(out@.subrange(0, old(out)@.len() as int) =~= old(out)@);
            return None;
        }
        let ghost head = out@;
        let ghost kids = self@.children;
        let mut next: i64 = id + 1;
        let mut i: usize = 0;
        assert(kids.take(0) =~= Seq::empty());
        assert(head + encode_forest(kids.take(0), id + 1) =~= head);
        assert(head.subrange(0, old(out)@.len() as int) =~= old(out)@);
        while i < self.children.len()
            invariant
                i <= self.children.len(),
                kids == nodes_view(self.children@),
                kids == self@.children,
                node_fits(self@, id as int),
                i32::MIN <= id <= i32::MAX,
                head == old(out)@ + encode_node(self@, id as int),
                out@ == head + encode_forest(kids.take(i as int), id + 1),
                forest_encodable(kids.take(i as int), id + 1),
                next == id + 1 + forest_count(kids.take(i as int)),
                next <= i32::MAX + 1,
                extends(old(out)@, out@),
            decreases self.children.len() - i,
        {
            let ghost so_far = out@;
            assert(kids.take(i + 1).drop_last() =~= kids.take(i as int));
            assert(kids.take(i + 1).last() == self.children@[i as int]@);
            match self.children[i].write_subtree(out, next) {
                None => {
                    proof {
                        if forest_encodable(kids, id + 1) {
                            lemma_forest_encodable_take(kids, id + 1, i + 1);
                        }
                        assert(out@.subrange(0, old(out)@.len() as int) =~= so_far.subrange(
                            0,
                            old(out)@.len() as int,
                        ));
                    }
                    return None;
                },
                Some(n) => {
                    proof {
                        lemma_encodable_ids(self.children@[i as int]@, next as int);
                        assert(out@ =~= head + encode_forest(kids.take(i + 1), id + 1));
                        assert(out@.subrange(0, old(out)@.len() as int) =~= so_far.subrange(
                            0,
                            old(out)@.len() as int,
                        ));
                    }
                    next = n;
                },
            }
            i = i + 1;
        }
        assert(kids.take(i as int) =~= kids);
        assert(out@ =~= old(out)@ + encode_tree(self@, id as int));
        Some(next)
    }
}

impl Node {
    /// Returns the size in bytes of the content of the node's chunk,
    /// computed from what the node holds now.
    pub fn get_size(&self) -> (size: i32)
        requires
            attributes_dict(self@.attributes).wf(),
            node_size(self@) <= i32::MAX,
        ensures
            size == node_size(self@),
    {
        proof {
            lemma_node_view(*self);
            lemma_attributes_dict_wf(self@.attributes);
        }
        let own: i32 = match self.node_type {
            NodeType::Transform(transform) => {
                proof {
                    lemma_frame_dict_wf(transform);
                }
                20 + transform.to_frame().get_size()
            },
            NodeType::Group => 8 + 4 * (self.children.len() as i32),
            NodeType::Shape(_) => 16,
        };
        match self.attributes.to_dict() {
            Some(dict) => own + dict.get_size(),
            None => own,
        }
    }

    /// Returns the number of bytes that the tree takes when written: for
    /// every node its header and the content of its chunk, each computed
    /// from what the node holds now.
    pub fn get_all_size(&self) -> (size: i32)
        requires
            names_fit(self@),
            tree_size(self@) <= i32::MAX,
        ensures
            size == tree_size(self@),
        decreases self,
    {
        proof {
            lemma_node_view(*self);
            lemma_node_size(self@, 0);
            lemma_forest_size_grows(self@.children, 0);
        }
        let ghost kids = self@.children;
        let mut size: i32 = 12 + self.get_size();
        let mut i: usize = 0;
        assert(kids.take(0) =~= Seq::empty());
        while i < self.children.len()
            invariant
                i <= self.children.len(),
                kids == nodes_view(self.children@),
                kids == self@.children,
                forest_names_fit(kids),
                12 + node_size(self@) + forest_size(kids) <= i32::MAX,
                size == 12 + node_size(self@) + forest_size(kids.take(i as int)),
            decreases self.children.len() - i,
        {
            proof {
                assert(kids.take(i + 1).drop_last() =~= kids.take(i as int));
                assert(kids.take(i + 1).last() == self.children@[i as int]@);
                lemma_forest_size_grows(kids, i + 1);
                lemma_forest_size_grows(kids, i as int);
                lemma_forest_names_fit(kids, i as int);
                lemma_node_size(self@, 0);
            }
            size = size + self.children[i].get_all_size();
            i = i + 1;
        }
        assert(kids.take(i as int) =~= kids);
        size
    }
}

} // verus!
