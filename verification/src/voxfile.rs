//! The container: palette, models, layers and the scene graph that places
//! the models.

use crate::color::Color;
use crate::container_layout::{
    children_bytes, children_size, color_at, colors_at, default_palette, encode_colors,
    encode_container, encode_layers, encode_models, encode_palette, layer_fits, layer_record,
    layers_in, layers_size, lemma_children_size, lemma_container_roundtrip,
    lemma_container_tag_names, lemma_layer_len, lemma_layers_size_grows, lemma_models_size_grows,
    magic, models_in, models_size, palette_in, parse_container, parse_palette, root_in, stripped,
    tag_layr, tag_rgba, voxels_coloured, writable, ContainerModel, LayerModel, VERSION,
};
use crate::convert::u32_to_array;
use crate::layer::{layers_view, Layer};
use crate::layout::{is_i32, leaf_header, pairs_size};
use crate::model::{models_view, Model, ModelData, MAX_EXTENT};
use crate::model_layout::{lemma_model_tag_names, tag_size, xyzi_size};
use crate::node::{
    forest_count, forest_placements, lemma_node_view, nodes_view, AttributesModel, Node,
    NodeAttributes, NodeModel, NodeType, Placement, Transform,
};
use crate::riff::{
    find_chunk, nodes_from_chunks, num_of_chunks, tag_bytes, tag_matches, write_chunk, write_slice,
    ReadError,
};
use crate::scene_layout::{
    child_ids, dict_of, encodable, forest_encodable, lemma_attributes_dict_wf, lemma_child_ids,
    lemma_frame_dict_wf, lemma_node_size, lemma_tree_size, lemma_tree_size_positive, node_fits,
};
use crate::voxel::Voxel;
use vstd::prelude::*;
use vstd::string::*;
use vstd::utf8::encode_utf8;

verus! {

/// A model with the translation and layer of `p`, where `p` names it, and
/// the model itself where it does not.
pub open spec fn placed(m: ModelData, p: Placement) -> ModelData {
    if m.id == p.0 {
        ModelData { position: p.1, layer: p.2, ..m }
    } else {
        m
    }
}

/// The models after one placement: every model that the placement names
/// gets its translation and layer, the others stay as they are.
pub open spec fn with_placement(models: Seq<ModelData>, p: Placement) -> Seq<ModelData> {
    Seq::new(models.len(), |i: int| placed(models[i], p))
}

/// The models after a run of placements, applied in order.
pub open spec fn with_placements(models: Seq<ModelData>, ps: Seq<Placement>) -> Seq<ModelData>
    decreases ps.len(),
{
    if ps.len() == 0 {
        models
    } else {
        with_placement(with_placements(models, ps.drop_last()), ps.last())
    }
}

/// The models after reconciliation with a tree: every placement that the
/// tree gives is applied, in the order in which the tree is walked.
pub open spec fn reconciled(models: Seq<ModelData>, tree: NodeModel) -> Seq<ModelData> {
    with_placements(models, tree.placements())
}

/// The scene that places the models given: a root transform with the
/// identity placement, below it one group, and below that one subtree for
/// each model, in the order of the list.
pub open spec fn scene_of(models: Seq<ModelData>) -> NodeModel {
    NodeModel {
        node_type: NodeType::Transform(Transform::identity()),
        attributes: AttributesModel { name: None, hidden: None },
        children: seq![
            NodeModel {
                node_type: NodeType::Group,
                attributes: AttributesModel { name: None, hidden: None },
                children: Seq::new(models.len(), |i: int| models[i].to_node()),
            },
        ],
    }
}

/// A voxel scene: its palette of 256 colours, its models, its layers and
/// the tree that places the models.
pub struct VoxFile {
    pub models: Vec<Model>,
    pub palette: [Color; 256],
    pub root_node: Node,
    pub layers: Vec<Layer>,
}

impl View for VoxFile {
    type V = ContainerModel;

    open spec fn view(&self) -> ContainerModel {
        ContainerModel {
            models: models_view(self.models@),
            palette: self.palette@,
            root: self.root_node@,
            layers: layers_view(self.layers@),
        }
    }
}

impl VoxFile {
    /// A container with one empty model of the extents given, none of
    /// which may exceed 256, a palette of opaque white, no layers, and the
    /// scene graph that places the model.
    pub fn new(size_x: u16, size_y: u16, size_z: u16) -> (file: VoxFile)
        requires
            size_x <= MAX_EXTENT,
            size_y <= MAX_EXTENT,
            size_z <= MAX_EXTENT,
        ensures
            file.models@.len() == 1,
            file.models@[0].size == (size_x, size_y, size_z),
            file.models@[0].voxels@ == Seq::<Voxel>::empty(),
            file.models@[0].id == 0,
            file.models@[0].wf(),
            file.palette@ == default_palette(),
            file.layers@ == Seq::<Layer>::empty(),
            file.root_node@ == scene_of(models_view(file.models@)),
            numbered(models_view(file.models@)),
    {
        let mut models: Vec<Model> = Vec::new();
        models.push(Model::new(size_x, size_y, size_z));
        let palette = [Color { r: 255, g: 255, b: 255, a: 255 };256];
        assert(palette@ =~= default_palette());
        let mut file = VoxFile {
            models,
            palette,
            root_node: Node::new(NodeType::Group, NodeAttributes::new()),
            layers: Vec::new(),
        };
        file.make_nodes();
        file
    }

    /// Adopts a model as the last of the container and gives it the next
    /// identifier, which is its place in the list. A container that already
    /// holds as many models as identifiers exist refuses, and stays as it
    /// was.
    pub fn add_model(&mut self, model: Model) -> (added: bool)
        ensures
            added == (old(self).models@.len() <= i32::MAX),
            added ==> final(self).models@.len() == old(self).models@.len() + 1
                && final(self).models@.subrange(0, old(self).models@.len() as int) == old(
                self,
            ).models@ && final(self).models@.last()@ == (ModelData {
                id: old(self).models@.len() as i32,
                ..model@
            }),
            !added ==> final(self).models == old(self).models,
            numbered(models_view(old(self).models@)) ==> numbered(models_view(final(self).models@)),
            final(self).root_node == old(self).root_node,
            final(self).palette == old(self).palette,
            final(self).layers == old(self).layers,
    {
        if self.models.len() > i32::MAX as usize {
            return false;
        }
        let mut model = model;
        model.id = self.models.len() as i32;
        self.models.push(model);
        assert(self.models@.subrange(0, old(self).models@.len() as int) =~= old(self).models@);
        assert forall|i: int| 0 <= i < old(self).models@.len() implies models_view(
            self.models@,
        )[i] == models_view(old(self).models@)[i] by {
            assert(self.models@[i] == self.models@.subrange(0, old(self).models@.len() as int)[i]);
        }
        true
    }

    /// The palette entry with the index given, counting from 1: index 0
    /// means "empty" and names no entry.
    pub fn get_palette_color(&self, index: u8) -> (color: Color)
        requires
            index != 0,
        ensures
            color == self.palette@[index - 1],
    {
        self.palette[(index - 1) as usize]
    }

    /// Replaces the palette entry with the index given, counting from 1.
    pub fn change_palette_color(&mut self, index: u8, r: u8, g: u8, b: u8, a: u8)
        requires
            index != 0,
        ensures
            final(self).palette@ == old(self).palette@.update(index - 1, Color { r, g, b, a }),
            final(self).models == old(self).models,
            final(self).root_node == old(self).root_node,
            final(self).layers == old(self).layers,
    {
        self.palette[(index - 1) as usize] = Color { r, g, b, a };
    }

    /// Appends the palette chunk to `out`.
    fn write_palette(&self, out: &mut Vec<u8>)
        ensures
            final(out)@ == old(out)@ + encode_palette(self.palette@),
    {
        proof {
            lemma_container_tag_names();
        }
        write_chunk("RGBA", 1024, 0, out);
        let ghost head = out@;
        let mut i: usize = 0;
        assert(head + encode_colors(self.palette@.take(0)) =~= head);
        while i < 256
            invariant
                i <= 256,
                self.palette@.len() == 256,
                out@ == head + encode_colors(self.palette@.take(i as int)),
            decreases 256 - i,
        {
            let c = self.palette[i];
            assert(self.palette@.take(i + 1).drop_last() =~= self.palette@.take(i as int));
            assert(self.palette@.take(i + 1).last() == c);
            out.push(c.r);
            out.push(c.g);
            out.push(c.b);
            out.push(c.a);
            assert(out@ =~= head + encode_colors(self.palette@.take(i + 1)));
            i = i + 1;
        }
        assert(self.palette@.take(256) =~= self.palette@);
        assert(head =~= old(out)@ + leaf_header(tag_rgba(), 1024));
        assert(out@ =~= old(out)@ + encode_palette(self.palette@));
    }

    /// Lays out what stands below the `MAIN` chunk, or nothing where a
    /// model, the scene graph or a layer cannot be written.
    fn children(&self) -> (result: Option<Vec<u8>>)
        ensures
            result is Some <==> {
                &&& forall|i: int|
                    0 <= i < self@.models.len() ==> xyzi_size(
                        (#[trigger] self@.models[i]).voxels.len(),
                    ) <= i32::MAX
                &&& encodable(self@.root, 0)
                &&& forall|i: int| 0 <= i < self@.layers.len() ==> layer_fits(#[trigger] self@.layers[i])
            },
            result matches Some(bytes) ==> bytes@ == children_bytes(self@),
    {
        let mut out: Vec<u8> = Vec::new();
        let ghost models = models_view(self.models@);
        let mut i: usize = 0;
        assert(encode_models(models.take(0)) =~= Seq::<u8>::empty());
        while i < self.models.len()
            invariant
                i <= self.models.len(),
                models == models_view(self.models@),
                out@ == encode_models(models.take(i as int)),
                forall|k: int|
                    0 <= k < i ==> xyzi_size((#[trigger] models[k]).voxels.len()) <= i32::MAX,
            decreases self.models.len() - i,
        {
            assert(models.take(i + 1).drop_last() =~= models.take(i as int));
            assert(models.take(i + 1).last() == self.models@[i as int]@);
            if self.models[i].voxels.len() > 0x1fff_fffe {
                assert(xyzi_size(self@.models[i as int].voxels.len()) > i32::MAX);
                return None;
            }
            self.models[i].write(&mut out);
            i = i + 1;
        }
        assert(models.take(i as int) =~= models);
        self.write_palette(&mut out);
        if !self.root_node.write(&mut out, 0) {
            return None;
        }
        let ghost head = out@;
        let ghost layers = layers_view(self.layers@);
        let mut j: usize = 0;
        assert(head + encode_layers(layers.take(0)) =~= head);
        while j < self.layers.len()
            invariant
                j <= self.layers.len(),
                layers == layers_view(self.layers@),
                out@ == head + encode_layers(layers.take(j as int)),
                forall|k: int| 0 <= k < j ==> layer_fits(#[trigger] layers[k]),
            decreases self.layers.len() - j,
        {
            assert(layers.take(j + 1).drop_last() =~= layers.take(j as int));
            assert(layers.take(j + 1).last() == self.layers@[j as int]@);
            if !self.layers[j].write(&mut out) {
                assert(!layer_fits(self@.layers[j as int]));
                return None;
            }
            assert(out@ =~= head + encode_layers(layers.take(j + 1)));
            j = j + 1;
        }
        assert(layers.take(j as int) =~= layers);
        assert(out@ =~= children_bytes(self@));
        Some(out)
    }

    /// Lays out the container as bytes: magic, version, the `MAIN` chunk,
    /// and below it the models, the palette, the scene graph as it stands,
    /// and the layers. Gives nothing where the container cannot be written.
    pub fn to_bytes(&self) -> (result: Option<Vec<u8>>)
        ensures
            result is Some <==> writable(self@),
            result matches Some(bytes) ==> bytes@ == encode_container(self@),
    {
        let body = match self.children() {
            Some(body) => body,
            None => {
                return None;
            },
        };
        if body.len() > u32::MAX as usize {
            return None;
        }
        proof {
            lemma_container_tag_names();
        }
        let mut out: Vec<u8> = Vec::new();
        write_slice(&mut out, "VOX ".as_bytes());
        let version = u32_to_array(VERSION);
        write_slice(&mut out, version.as_slice());
        write_chunk("MAIN", 0, body.len() as u32, &mut out);
        write_slice(&mut out, body.as_slice());
        assert(out@ =~= encode_container(self@));
        Some(out)
    }

    /// Returns the number of bytes that stand below the `MAIN` chunk when
    /// the container is written, computed bottom-up from what the container
    /// holds now: the sizes of its models, of the palette chunk, of its scene
    /// graph and of its layers.
    pub fn get_size(&self) -> (size: i32)
        requires
            writable(self@),
            children_bytes(self@).len() <= i32::MAX,
        ensures
            size == children_bytes(self@).len(),
            size == children_size(self@),
    {
        proof {
            lemma_children_size(self@);
            lemma_tree_size(self@.root, 0);
            lemma_tree_size_positive(self@.root);
            lemma_models_size_grows(self@.models, 0);
            lemma_layers_size_grows(self@.layers, 0);
        }
        let ghost models = models_view(self.models@);
        let ghost layers = layers_view(self.layers@);
        let mut size: i32 = 1036;
        let mut i: usize = 0;
        assert(models.take(0) =~= Seq::<ModelData>::empty());
        while i < self.models.len()
            invariant
                i <= self.models.len(),
                models == models_view(self.models@),
                models_size(models) + 1036 <= i32::MAX,
                size == 1036 + models_size(models.take(i as int)),
            decreases self.models.len() - i,
        {
            proof {
                assert(models.take(i + 1).drop_last() =~= models.take(i as int));
                assert(models.take(i + 1).last() == self.models@[i as int]@);
                lemma_models_size_grows(models, i + 1);
                lemma_models_size_grows(models, i as int);
            }
            size = size + 36 + self.models[i].get_size();
            i = i + 1;
        }
        assert(models.take(i as int) =~= models);
        size = size + self.root_node.get_all_size();
        let ghost head = size;
        let mut j: usize = 0;
        assert(layers.take(0) =~= Seq::<LayerModel>::empty());
        while j < self.layers.len()
            invariant
                j <= self.layers.len(),
                layers == layers_view(self.layers@),
                forall|k: int| 0 <= k < layers.len() ==> layer_fits(#[trigger] layers[k]),
                head + layers_size(layers) <= i32::MAX,
                size == head + layers_size(layers.take(j as int)),
            decreases self.layers.len() - j,
        {
            proof {
                assert(layers.take(j + 1).drop_last() =~= layers.take(j as int));
                assert(layers.take(j + 1).last() == self.layers@[j as int]@);
                lemma_layers_size_grows(layers, j + 1);
                lemma_layers_size_grows(layers, j as int);
                assert(layer_fits(layers[j as int]));
                lemma_layer_len(
                    layer_record(layers[j as int]),
                );
            }
            size = size + 12 + self.layers[j].get_size();
            j = j + 1;
        }
        assert(layers.take(j as int) =~= layers);
        size
    }

    /// Builds the scene graph from the models, then lays out the container
    /// as bytes.
    pub fn write(&mut self) -> (result: Option<Vec<u8>>)
        ensures
            final(self).root_node@ == scene_of(models_view(old(self).models@)),
            final(self).models == old(self).models,
            final(self).palette == old(self).palette,
            final(self).layers == old(self).layers,
            result is Some <==> writable(final(self)@),
            result matches Some(bytes) ==> bytes@ == encode_container(final(self)@),
    {
        self.make_nodes();
        self.to_bytes()
    }

    /// Reads the palette chunk at `pos`.
    fn read_palette(contents: &Vec<u8>, pos: usize) -> (result: Result<[Color; 256], ReadError>)
        requires
            pos < contents@.len(),
        ensures
            match parse_palette(contents@, pos as int) {
                Ok(colors) => result matches Ok(palette) && palette@ == colors,
                Err(e) => result == Err::<[Color; 256], ReadError>(e),
            },
    {
        if contents.len() - pos < 12 + 1024 {
            return Err(ReadError::CorruptContainer);
        }
        let ghost wanted = colors_at(contents@, pos + 12, 256);
        let mut palette = [Color { r: 255, g: 255, b: 255, a: 255 };256];
        let mut i: usize = 0;
        while i < 256
            invariant
                i <= 256,
                pos + 12 + 1024 <= contents.len(),
                wanted == colors_at(contents@, pos + 12, 256),
                palette@.len() == 256,
                forall|k: int| 0 <= k < i ==> palette@[k] == wanted[k],
            decreases 256 - i,
        {
            let at = pos + 12 + 4 * i;
            let color = Color {
                r: contents[at],
                g: contents[at + 1],
                b: contents[at + 2],
                a: contents[at + 3],
            };
            assert(color == color_at(contents@, pos + 12 + 4 * i));
            palette[i] = color;
            i = i + 1;
        }
        assert(palette@ =~= wanted);
        Ok(palette)
    }

    /// Reads the first `count` models of a container, numbered from 0.
    fn read_models(contents: &Vec<u8>, count: i32) -> (result: Result<Vec<Model>, ReadError>)
        requires
            contents@.len() <= i32::MAX,
            0 <= count,
        ensures
            match models_in(contents@, count as nat) {
                Ok(wanted) => result matches Ok(models) && models_view(models@) == wanted,
                Err(e) => result == Err::<Vec<Model>, ReadError>(e),
            },
    {
        proof {
            lemma_model_tag_names();
        }
        let mut models: Vec<Model> = Vec::new();
        let mut i: i32 = 0;
        assert(models_view(models@) =~= Seq::<ModelData>::empty());
        while i < count
            invariant
                0 <= i <= count,
                contents@.len() <= i32::MAX,
                tag_bytes("SIZE"@) == tag_size(),
                models_in(contents@, i as nat) == Ok::<Seq<ModelData>, ReadError>(
                    models_view(models@),
                ),
            decreases count - i,
        {
            proof {
                lemma_models_error_stays(contents@, (i + 1) as nat, count as nat);
                assert(models_in(contents@, ((i + 1) as nat - 1) as nat) == models_in(
                    contents@,
                    i as nat,
                ));
            }
            let pos = find_chunk(contents, String::from_str("SIZE"), i + 1)?;
            let mut cursor = pos as i32;
            let model = Model::read(contents, &mut cursor, i)?;
            let ghost before = models@;
            models.push(model);
            assert(models_view(models@) =~= models_view(before).push(model@));
            i = i + 1;
        }
        Ok(models)
    }

    /// Reads the first `count` layers of a container.
    fn read_layers(contents: &Vec<u8>, count: i32) -> (result: Result<Vec<Layer>, ReadError>)
        requires
            contents@.len() <= i32::MAX,
            0 <= count,
        ensures
            match layers_in(contents@, count as nat) {
                Ok(wanted) => result matches Ok(layers) && layers_view(layers@) == wanted,
                Err(e) => result == Err::<Vec<Layer>, ReadError>(e),
            },
    {
        proof {
            lemma_container_tag_names();
        }
        let mut layers: Vec<Layer> = Vec::new();
        let mut j: i32 = 0;
        assert(layers_view(layers@) =~= Seq::<LayerModel>::empty());
        while j < count
            invariant
                0 <= j <= count,
                contents@.len() <= i32::MAX,
                tag_bytes("LAYR"@) == tag_layr(),
                layers_in(contents@, j as nat) == Ok::<Seq<LayerModel>, ReadError>(
                    layers_view(layers@),
                ),
            decreases count - j,
        {
            proof {
                lemma_layers_error_stays(contents@, (j + 1) as nat, count as nat);
                assert(layers_in(contents@, ((j + 1) as nat - 1) as nat) == layers_in(
                    contents@,
                    j as nat,
                ));
            }
            let pos = find_chunk(contents, String::from_str("LAYR"), j + 1)?;
            let mut cursor = pos as i32;
            let layer = Layer::read(contents, &mut cursor)?;
            let ghost before = layers@;
            layers.push(layer);
            assert(layers_view(layers@) =~= layers_view(before).push(layer@));
            j = j + 1;
        }
        Ok(layers)
    }

    /// Reads the palette of a container, or gives the default palette
    /// where the container holds none.
    fn find_palette(contents: &Vec<u8>) -> (result: Result<[Color; 256], ReadError>)
        ensures
            match palette_in(contents@) {
                Ok(colors) => result matches Ok(palette) && palette@ == colors,
                Err(e) => result == Err::<[Color; 256], ReadError>(e),
            },
    {
        proof {
            lemma_container_tag_names();
        }
        match find_chunk(contents, String::from_str("RGBA"), 1) {
            Ok(pos) => Self::read_palette(contents, pos),
            Err(ReadError::NotFound) => {
                let palette = [Color { r: 255, g: 255, b: 255, a: 255 };256];
                assert(palette@ =~= default_palette());
                Ok(palette)
            },
            Err(e) => Err(e),
        }
    }

    /// Reads the scene graph of a container, or gives the default root
    /// where the container holds none.
    fn find_root(contents: &Vec<u8>) -> (result: Result<Node, ReadError>)
        requires
            contents@.len() <= i32::MAX,
        ensures
            match root_in(contents@) {
                Ok(tree) => result matches Ok(node) && node@ == tree,
                Err(e) => result == Err::<Node, ReadError>(e),
            },
    {
        match nodes_from_chunks(contents) {
            Ok(node) => Ok(node),
            Err(ReadError::NotFound) => {
                let node = Node::new(
                    NodeType::Transform(Transform::default()),
                    NodeAttributes::new(),
                );
                proof {
                    lemma_node_view(node);
                    assert(node@.children =~= Seq::<NodeModel>::empty());
                }
                Ok(node)
            },
            Err(e) => Err(e),
        }
    }

    /// Reads a container from its bytes, without applying the placements
    /// of the scene graph to the models: the models in the order of their
    /// `SIZE` chunks, numbered from 0, the first palette, the tree at the
    /// first transform node chunk, and the layers in the order of their
    /// chunks.
    pub fn from_bytes(contents: &Vec<u8>) -> (result: Result<VoxFile, ReadError>)
        requires
            contents@.len() <= i32::MAX,
        ensures
            match parse_container(contents@) {
                Ok(container) => result matches Ok(file) && file@ == container,
                Err(e) => result == Err::<VoxFile, ReadError>(e),
            },
    {
        proof {
            lemma_container_tag_names();
            lemma_model_tag_names();
        }
        if contents.len() < 8 || !tag_matches(contents, 0, "VOX ".as_bytes()) {
            return Err(ReadError::CorruptContainer);
        }
        let model_count = num_of_chunks(contents, String::from_str("SIZE"))?;
        let models = Self::read_models(contents, model_count)?;
        let palette = Self::find_palette(contents)?;
        let root_node = Self::find_root(contents)?;
        let layer_count = num_of_chunks(contents, String::from_str("LAYR"))?;
        let layers = Self::read_layers(contents, layer_count)?;
        Ok(VoxFile { models, palette, root_node, layers })
    }

    /// Reads a container from its bytes and applies the placements of its
    /// scene graph to its models.
    pub fn read(contents: &Vec<u8>) -> (result: Result<VoxFile, ReadError>)
        requires
            contents@.len() <= i32::MAX,
        ensures
            match parse_container(contents@) {
                Ok(container) => result matches Ok(file) && file@ == (ContainerModel {
                    models: reconciled(container.models, container.root),
                    ..container
                }),
                Err(e) => result == Err::<VoxFile, ReadError>(e),
            },
    {
        let mut file = Self::from_bytes(contents)?;
        file.get_node_data();
        Ok(file)
    }

    /// Builds the scene graph from the models, replacing the tree the
    /// container had.
    pub fn make_nodes(&mut self)
        ensures
            final(self).root_node@ == scene_of(models_view(old(self).models@)),
            final(self).models == old(self).models,
            final(self).palette == old(self).palette,
            final(self).layers == old(self).layers,
    {
        let mut root_node = Node::new(
            NodeType::Transform(Transform::default()),
            NodeAttributes::new(),
        );
        let mut group_node = Node::new(NodeType::Group, NodeAttributes::new());
        let ghost models = models_view(self.models@);
        let ghost wanted = scene_of(models).children[0].children;
        let mut i: usize = 0;
        while i < self.models.len()
            invariant
                i <= self.models.len(),
                models == models_view(self.models@),
                wanted == scene_of(models).children[0].children,
                group_node.node_type == NodeType::Group,
                group_node.attributes.name is None,
                group_node.attributes.hidden is None,
                nodes_view(group_node.children@) == wanted.take(i as int),
                self.models == old(self).models,
                self.palette == old(self).palette,
                self.layers == old(self).layers,
            decreases self.models.len() - i,
        {
            let ghost before = group_node.children@;
            let child = self.models[i].to_node();
            group_node.add_child(child);
            assert(nodes_view(group_node.children@) =~= nodes_view(before).push(child@));
            assert(wanted.take(i + 1) =~= wanted.take(i as int).push(wanted[i as int]));
            i = i + 1;
        }
        assert(wanted.take(i as int) =~= wanted);
        proof {
            lemma_node_view(group_node);
        }
        root_node.add_child(group_node);
        proof {
            lemma_node_view(root_node);
            assert(root_node@.children =~= scene_of(models).children);
        }
        self.root_node = root_node;
    }

    /// Takes the placements from the scene graph and applies them to the
    /// models.
    pub fn get_node_data(&mut self)
        ensures
            models_view(final(self).models@) == reconciled(
                models_view(old(self).models@),
                old(self).root_node@,
            ),
            final(self).root_node == old(self).root_node,
            final(self).palette == old(self).palette,
            final(self).layers == old(self).layers,
    {
        let mut placements: Vec<Placement> = Vec::new();
        self.root_node.collect_placements(&mut placements);
        assert(placements@ =~= self.root_node@.placements());
        let ghost before = models_view(self.models@);
        let mut i: usize = 0;
        while i < placements.len()
            invariant
                i <= placements.len(),
                before == models_view(old(self).models@),
                models_view(self.models@) == with_placements(before, placements@.take(i as int)),
                self.root_node == old(self).root_node,
                self.palette == old(self).palette,
                self.layers == old(self).layers,
            decreases placements.len() - i,
        {
            let p = placements[i];
            assert(placements@.take(i + 1).drop_last() =~= placements@.take(i as int));
            assert(placements@.take(i + 1).last() == p);
            self.change_model_data(p.0, p.1, p.2);
            i = i + 1;
        }
        assert(placements@.take(i as int) =~= placements@);
    }

    /// The placement that a transform node gives: the identifier of the
    /// model, its translation and its layer. A node that is no transform, or
    /// whose children are not exactly one shape, gives none.
    pub fn check_transform(transform_node: &Node) -> (result: Option<Placement>)
        ensures
            result == transform_node@.placement(),
    {
        transform_node.placement()
    }

    /// Finds the models with the identifier `id` and gives them the
    /// translation and layer given.
    pub fn change_model_data(
        &mut self,
        id: i32,
        pos: Option<(i32, i32, i32)>,
        layer: Option<i32>,
    )
        ensures
            models_view(final(self).models@) == with_placement(
                models_view(old(self).models@),
                (id, pos, layer),
            ),
            final(self).root_node == old(self).root_node,
            final(self).palette == old(self).palette,
            final(self).layers == old(self).layers,
    {
        let ghost before = models_view(self.models@);
        let ghost after = with_placement(before, (id, pos, layer));
        let mut i: usize = 0;
        while i < self.models.len()
            invariant
                i <= self.models.len(),
                self.models@.len() == before.len(),
                after == with_placement(before, (id, pos, layer)),
                forall|j: int| 0 <= j < i ==> (#[trigger] self.models@[j])@ == after[j],
                forall|j: int| i <= j < before.len() ==> (#[trigger] self.models@[j])@ == before[j],
                self.root_node == old(self).root_node,
                self.palette == old(self).palette,
                self.layers == old(self).layers,
            decreases self.models.len() - i,
        {
            if self.models[i].id == id {
                self.models[i].position = pos;
                self.models[i].layer = layer;
            }
            i = i + 1;
        }
        assert(models_view(self.models@) =~= after);
    }
}

/// After a run of placements every model still has its identifier and
/// everything else that no placement touches.
pub proof fn lemma_placements_keep(models: Seq<ModelData>, ps: Seq<Placement>)
    ensures
        with_placements(models, ps).len() == models.len(),
        forall|i: int|
            0 <= i < models.len() ==> {
                let a = models[i];
                let b = #[trigger] with_placements(models, ps)[i];
                b == (ModelData { position: b.position, layer: b.layer, ..a })
            },
    decreases ps.len(),
{
    if ps.len() > 0 {
        lemma_placements_keep(models, ps.drop_last());
    }
}

/// Two lists of models that differ at most in translation and layer are
/// the same after a run of placements, in every model that one of the
/// placements names; a model that none names stays as it was.
pub proof fn lemma_placements_decide(a: Seq<ModelData>, b: Seq<ModelData>, ps: Seq<Placement>)
    requires
        a.len() == b.len(),
        forall|i: int|
            0 <= i < a.len() ==> (#[trigger] b[i]) == (ModelData {
                position: b[i].position,
                layer: b[i].layer,
                ..a[i]
            }),
    ensures
        forall|i: int|
            0 <= i < a.len() ==> {
                let x = #[trigger] with_placements(a, ps)[i];
                let y = with_placements(b, ps)[i];
                if exists|k: int| 0 <= k < ps.len() && (#[trigger] ps[k]).0 == a[i].id {
                    x == y
                } else {
                    x == a[i] && y == b[i]
                }
            },
    decreases ps.len(),
{
    lemma_placements_keep(a, ps);
    lemma_placements_keep(b, ps);
    if ps.len() > 0 {
        let init = ps.drop_last();
        lemma_placements_decide(a, b, init);
        lemma_placements_keep(a, init);
        lemma_placements_keep(b, init);
        assert forall|i: int| 0 <= i < a.len() implies {
            let x = #[trigger] with_placements(a, ps)[i];
            let y = with_placements(b, ps)[i];
            if exists|k: int| 0 <= k < ps.len() && (#[trigger] ps[k]).0 == a[i].id {
                x == y
            } else {
                x == a[i] && y == b[i]
            }
        } by {
            let xi = with_placements(a, init)[i];
            let yi = with_placements(b, init)[i];
            if ps.last().0 == a[i].id {
                assert(ps[ps.len() - 1].0 == a[i].id);
            } else if exists|k: int| 0 <= k < init.len() && (#[trigger] init[k]).0 == a[i].id {
                let k = choose|k: int| 0 <= k < init.len() && (#[trigger] init[k]).0 == a[i].id;
                assert(ps[k].0 == a[i].id);
            } else {
                if exists|k: int| 0 <= k < ps.len() && (#[trigger] ps[k]).0 == a[i].id {
                    let k = choose|k: int| 0 <= k < ps.len() && (#[trigger] ps[k]).0 == a[i].id;
                    assert(init[k].0 == a[i].id);
                }
            }
        }
    }
}

/// Reconciliation is idempotent: taking the placements from a tree a
/// second time changes no model.
pub proof fn lemma_reconciliation_idempotent(models: Seq<ModelData>, tree: NodeModel)
    ensures
        reconciled(reconciled(models, tree), tree) == reconciled(models, tree),
{
    let ps = tree.placements();
    let once = with_placements(models, ps);
    let twice = with_placements(once, ps);
    lemma_placements_keep(models, ps);
    lemma_placements_keep(once, ps);
    lemma_placements_decide(models, once, ps);
    assert(twice =~= once);
}

/// Once a model of a container cannot be read, no longer run of its
/// models can.
pub proof fn lemma_models_error_stays(buf: Seq<u8>, i: nat, n: nat)
    requires
        i <= n,
    ensures
        models_in(buf, i) matches Err(e) ==> models_in(buf, n) == Err::<
            Seq<ModelData>,
            ReadError,
        >(e),
    decreases n,
{
    if i < n {
        lemma_models_error_stays(buf, i, (n - 1) as nat);
    }
}

/// Once a layer of a container cannot be read, no longer run of its
/// layers can.
pub proof fn lemma_layers_error_stays(buf: Seq<u8>, i: nat, n: nat)
    requires
        i <= n,
    ensures
        layers_in(buf, i) matches Err(e) ==> layers_in(buf, n) == Err::<
            Seq<LayerModel>,
            ReadError,
        >(e),
    decreases n,
{
    if i < n {
        lemma_layers_error_stays(buf, i, (n - 1) as nat);
    }
}

/// The placement that the scene graph built from the models gives a
/// model: its translation, and its layer, or layer 0 where it has none.
pub open spec fn model_placement(m: ModelData) -> Placement {
    (
        m.id,
        m.position,
        Some(
            match m.layer {
                Some(layer) => layer,
                None => 0,
            },
        ),
    )
}

/// A model as it comes back from writing and reading: with its extents,
/// voxels, translation and identifier, on the layer it was on or on layer
/// 0 where it was on none, and without rotation and name.
pub open spec fn restored(m: ModelData) -> ModelData {
    ModelData {
        size: m.size,
        voxels: m.voxels,
        position: m.position,
        rotation: None,
        layer: model_placement(m).2,
        name: None,
        id: m.id,
    }
}

/// Whether every model has its place in the list as identifier.
pub open spec fn numbered(models: Seq<ModelData>) -> bool {
    forall|i: int| 0 <= i < models.len() ==> (#[trigger] models[i]).id == i
}

/// The scene graph built from the models gives one placement for each
/// model, in the order of the list.
pub proof fn lemma_scene_placements(models: Seq<ModelData>)
    ensures
        scene_of(models).placements() == Seq::new(
            models.len(),
            |i: int| model_placement(models[i]),
        ),
{
    let root = scene_of(models);
    let group = root.children[0];
    let kids = group.children;
    let wanted = Seq::new(models.len(), |i: int| model_placement(models[i]));
    lemma_kids_placements(models, models.len() as int);
    assert(kids.take(models.len() as int) =~= kids);
    assert(wanted.take(models.len() as int) =~= wanted);
    assert(group.placement() is None);
    assert(group.placements() =~= forest_placements(kids));
    assert(root.children.drop_last() =~= Seq::<NodeModel>::empty());
    assert(root.children.last() == group);
    assert(forest_placements(Seq::<NodeModel>::empty()) =~= Seq::<Placement>::empty());
    assert(forest_placements(root.children) =~= group.placements());
    assert(!root.has_child_shape());
    assert(root.placement() is None);
    assert(root.placements() =~= wanted);
}

/// The subtrees of the first `k` models give the placements of those
/// models.
pub proof fn lemma_kids_placements(models: Seq<ModelData>, k: int)
    requires
        0 <= k <= models.len(),
    ensures
        forest_placements(scene_of(models).children[0].children.take(k)) == Seq::new(
            models.len(),
            |i: int| model_placement(models[i]),
        ).take(k),
    decreases k,
{
    let kids = scene_of(models).children[0].children;
    let wanted = Seq::new(models.len(), |i: int| model_placement(models[i]));
    if k > 0 {
        lemma_kids_placements(models, k - 1);
        let node = kids[k - 1];
        assert(node == models[k - 1].to_node());
        assert(kids.take(k).drop_last() =~= kids.take(k - 1));
        assert(kids.take(k).last() == node);
        let shape = node.children[0];
        assert(shape.children =~= Seq::<NodeModel>::empty());
        assert(forest_placements(Seq::<NodeModel>::empty()) =~= Seq::<Placement>::empty());
        assert(shape.placement() is None);
        assert(shape.placements() =~= Seq::<Placement>::empty());
        assert(node.children.drop_last() =~= Seq::<NodeModel>::empty());
        assert(node.children.last() == shape);
        assert(forest_placements(node.children) =~= Seq::<Placement>::empty());
        assert(node.has_child_shape());
        assert(node.placement() == Some(model_placement(models[k - 1])));
        assert(node.placements() =~= seq![model_placement(models[k - 1])]);
        assert(wanted.take(k) =~= wanted.take(k - 1).push(wanted[k - 1]));
        assert(forest_placements(kids.take(k)) =~= wanted.take(k));
    } else {
        assert(kids.take(0) =~= Seq::<NodeModel>::empty());
        assert(forest_placements(kids.take(0)) =~= wanted.take(0));
    }
}

/// The placements of the first `k` models restore those models, and leave
/// the others as they were read.
pub proof fn lemma_placements_restore(models: Seq<ModelData>, k: int)
    requires
        numbered(models),
        0 <= k <= models.len(),
    ensures
        with_placements(
            stripped(models),
            Seq::new(models.len(), |i: int| model_placement(models[i])).take(k),
        ) == Seq::new(
            models.len(),
            |i: int|
                if i < k {
                    restored(models[i])
                } else {
                    stripped(models)[i]
                },
        ),
    decreases k,
{
    let ps = Seq::new(models.len(), |i: int| model_placement(models[i]));
    let wanted = Seq::new(
        models.len(),
        |i: int|
            if i < k {
                restored(models[i])
            } else {
                stripped(models)[i]
            },
    );
    if k > 0 {
        lemma_placements_restore(models, k - 1);
        assert(ps.take(k).drop_last() =~= ps.take(k - 1));
        assert(ps.take(k).last() == model_placement(models[k - 1]));
        let before = with_placements(stripped(models), ps.take(k - 1));
        assert forall|i: int| 0 <= i < models.len() implies with_placement(
            before,
            ps[k - 1],
        )[i] == wanted[i] by {
            assert(models[i].id == i);
            assert(models[k - 1].id == k - 1);
        }
        assert(with_placements(stripped(models), ps.take(k)) =~= wanted);
    } else {
        assert(ps.take(0) =~= Seq::<Placement>::empty());
        assert(with_placements(stripped(models), ps.take(0)) =~= wanted);
    }
}

/// The scene graph built from numbered models restores them: applied to
/// the models as they are read back, its placements give every model its
/// translation and its layer again.
pub proof fn lemma_scene_reconciles(models: Seq<ModelData>)
    requires
        numbered(models),
    ensures
        reconciled(stripped(models), scene_of(models)) == Seq::new(
            models.len(),
            |i: int| restored(models[i]),
        ),
{
    lemma_scene_placements(models);
    lemma_placements_restore(models, models.len() as int);
    let ps = Seq::new(models.len(), |i: int| model_placement(models[i]));
    assert(ps.take(models.len() as int) =~= ps);
    assert(reconciled(stripped(models), scene_of(models)) =~= Seq::new(
        models.len(),
        |i: int| restored(models[i]),
    ));
}

/// Writing and then reading gives the container back. Let a container of
/// numbered models whose voxels all have a palette index be written with
/// the scene graph built from its models. Reading those bytes, and
/// applying the placements of the scene graph that was read, gives the same
/// models in the same order, each with its extents, its voxels in
/// insertion order, its translation and its layer (layer 0 where it had
/// none), and gives the same palette and layers. Rotation and name are not
/// brought back.
pub proof fn lemma_write_then_read(
    models: Seq<ModelData>,
    palette: Seq<Color>,
    layers: Seq<LayerModel>,
)
    requires
        numbered(models),
        voxels_coloured(models),
        writable(ContainerModel { models, palette, root: scene_of(models), layers }),
    ensures
        ({
            let written = ContainerModel { models, palette, root: scene_of(models), layers };
            let read = parse_container(encode_container(written));
            &&& read is Ok
            &&& reconciled(read->Ok_0.models, read->Ok_0.root) == Seq::new(
                models.len(),
                |i: int| restored(models[i]),
            )
            &&& read->Ok_0.palette == palette
            &&& read->Ok_0.layers == layers
            &&& read->Ok_0.root == scene_of(models)
        }),
{
    let written = ContainerModel { models, palette, root: scene_of(models), layers };
    lemma_container_roundtrip(written);
    lemma_scene_reconciles(models);
}

/// The number of bytes that the name of a model takes.
pub open spec fn name_len(m: ModelData) -> nat {
    match m.name {
        Some(text) => encode_utf8(text).len(),
        None => 0,
    }
}

/// Whether the models are few enough, and their names short enough, for
/// the chunks of the scene graph built from them.
pub open spec fn scene_fits(models: Seq<ModelData>) -> bool {
    &&& models.len() <= 0x1000_0000
    &&& forall|i: int| 0 <= i < models.len() ==> name_len(#[trigger] models[i]) <= 0x7000_0000
}

/// The subtree that places a model can be written under every identifier
/// that leaves room for its two nodes, where the model's name is short
/// enough.
pub proof fn lemma_model_node_encodable(m: ModelData, id: int)
    requires
        name_len(m) <= 0x7000_0000,
        0 <= id <= 0x4000_0000,
    ensures
        encodable(m.to_node(), id),
        m.to_node().count() == 2,
{
    let node = m.to_node();
    let shape = node.children[0];
    let t = m.transform_data();
    lemma_attributes_dict_wf(node.attributes);
    lemma_attributes_dict_wf(shape.attributes);
    lemma_frame_dict_wf(t);
    lemma_node_size(node, id);
    lemma_node_size(shape, id + 1);
    assert(shape.children =~= Seq::<NodeModel>::empty());
    assert(forest_count(Seq::<NodeModel>::empty()) == 0);
    assert(forest_encodable(shape.children, id + 2));
    assert(pairs_size(Seq::empty()) == 0);
    assert(dict_of(Seq::empty()).wf());
    assert(node_fits(shape, id + 1));
    assert(encodable(shape, id + 1));
    assert(node.children.drop_last() =~= Seq::<NodeModel>::empty());
    assert(node.children.last() == shape);
    assert(forest_encodable(Seq::<NodeModel>::empty(), id + 1));
    assert(forest_count(node.children.drop_last()) == 0);
    assert(forest_encodable(node.children, id + 1));
    assert(shape.count() == 1);
    assert(forest_count(node.children) == 1);
    assert(node_fits(node, id));
}

/// The subtrees of the first `k` models can be written one behind the
/// other, and hold two nodes each.
pub proof fn lemma_kids_encodable(models: Seq<ModelData>, k: int)
    requires
        scene_fits(models),
        0 <= k <= models.len(),
    ensures
        forest_encodable(scene_of(models).children[0].children.take(k), 2),
        forest_count(scene_of(models).children[0].children.take(k)) == 2 * k,
    decreases k,
{
    let kids = scene_of(models).children[0].children;
    if k > 0 {
        lemma_kids_encodable(models, k - 1);
        assert(kids.take(k).drop_last() =~= kids.take(k - 1));
        assert(kids.take(k).last() == models[k - 1].to_node());
        lemma_model_node_encodable(models[k - 1], 2 + 2 * (k - 1));
    } else {
        assert(kids.take(0) =~= Seq::<NodeModel>::empty());
    }
}

/// The scene graph built from models that are few enough and whose names
/// are short enough can be written with its nodes numbered from 0.
pub proof fn lemma_scene_encodable(models: Seq<ModelData>)
    requires
        scene_fits(models),
    ensures
        encodable(scene_of(models), 0),
{
    let root = scene_of(models);
    let group = root.children[0];
    let kids = group.children;
    lemma_kids_encodable(models, models.len() as int);
    assert(kids.take(models.len() as int) =~= kids);
    lemma_attributes_dict_wf(root.attributes);
    lemma_frame_dict_wf(Transform::identity());
    lemma_node_size(root, 0);
    lemma_node_size(group, 1);
    lemma_child_ids(kids, 2);
    assert forall|i: int| 0 <= i < kids.len() implies is_i32(
        #[trigger] child_ids(kids, 2)[i],
    ) by {
        lemma_kids_encodable(models, i);
    }
    assert(node_fits(group, 1));
    assert(encodable(group, 1));
    assert(root.children.drop_last() =~= Seq::<NodeModel>::empty());
    assert(root.children.last() == group);
    assert(forest_count(Seq::<NodeModel>::empty()) == 0);
    assert(forest_encodable(Seq::<NodeModel>::empty(), 1));
    assert(forest_encodable(root.children, 1));
    assert(node_fits(root, 0));
}

/// The models that are read from a container are numbered: each has its
/// place in the list as identifier.
pub proof fn lemma_read_models_numbered(buf: Seq<u8>, n: nat)
    requires
        models_in(buf, n) is Ok,
        n <= i32::MAX,
    ensures
        models_in(buf, n)->Ok_0.len() == n,
        numbered(models_in(buf, n)->Ok_0),
    decreases n,
{
    if n > 0 {
        lemma_read_models_numbered(buf, (n - 1) as nat);
    }
}

/// Placements leave the models numbered as they were.
pub proof fn lemma_placements_keep_numbered(models: Seq<ModelData>, ps: Seq<Placement>)
    requires
        numbered(models),
    ensures
        numbered(with_placements(models, ps)),
{
    lemma_placements_keep(models, ps);
}

} // verus!
