//! A voxel grid: bounded extents plus an ordered list of voxels.

use crate::convert::{le_u16, u16_to_array, u32_from_vec, u32_to_array};
use crate::layout::leaf_header;
use crate::model_layout::{
    encode_extent, encode_model, encode_voxels, lemma_model_tag_names, parse_model, size_body,
    tag_size, tag_xyzi, voxel_at, voxels_at, xyzi_body, xyzi_size,
};
use crate::node::{text_view, AttributesModel, Node, NodeAttributes, NodeModel, NodeType, Transform};
use crate::riff::{write_chunk, write_slice, ReadError};
use crate::voxel::Voxel;
use vstd::prelude::*;

verus! {

/// Largest extent a grid may have on one axis.
pub const MAX_EXTENT: u16 = 256;

/// Whether a voxel lies inside a grid of the given extents.
pub open spec fn fits(v: Voxel, size: (u16, u16, u16)) -> bool {
    v.position.0 < size.0 && v.position.1 < size.1 && v.position.2 < size.2
}

/// Coordinate of a voxel on axis `k` (0, 1 or 2).
pub open spec fn axis(v: Voxel, k: int) -> int {
    if k == 0 {
        v.position.0 as int
    } else if k == 1 {
        v.position.1 as int
    } else {
        v.position.2 as int
    }
}

/// Smallest coordinate on axis `k` among `s`; 255 when `s` is empty.
pub open spec fn lowest(s: Seq<Voxel>, k: int) -> int
    decreases s.len(),
{
    if s.len() == 0 {
        255
    } else {
        let m = lowest(s.drop_last(), k);
        if axis(s.last(), k) < m {
            axis(s.last(), k)
        } else {
            m
        }
    }
}

/// Largest coordinate on axis `k` among `s`; 0 when `s` is empty.
pub open spec fn highest(s: Seq<Voxel>, k: int) -> int
    decreases s.len(),
{
    if s.len() == 0 {
        0
    } else {
        let m = highest(s.drop_last(), k);
        if axis(s.last(), k) > m {
            axis(s.last(), k)
        } else {
            m
        }
    }
}

/// A voxel moved towards the origin by `(dx, dy, dz)`.
pub open spec fn shifted(v: Voxel, dx: int, dy: int, dz: int) -> Voxel {
    Voxel {
        position: (
            (v.position.0 - dx) as u8,
            (v.position.1 - dy) as u8,
            (v.position.2 - dz) as u8,
        ),
        colorindex: v.colorindex,
    }
}

/// The voxels of `s` moved so that the smallest coordinate on every axis
/// becomes 0, in the order they had.
pub open spec fn shrunk_voxels(s: Seq<Voxel>) -> Seq<Voxel> {
    Seq::new(s.len(), |i: int| shifted(s[i], lowest(s, 0), lowest(s, 1), lowest(s, 2)))
}

/// The extents of the smallest grid that holds `s` once it is flush against
/// the origin: one more than the coordinate span on each axis, and 1 on each
/// axis for an empty list.
pub open spec fn shrunk_size(s: Seq<Voxel>) -> (u16, u16, u16) {
    (
        (highest(shrunk_voxels(s), 0) + 1) as u16,
        (highest(shrunk_voxels(s), 1) + 1) as u16,
        (highest(shrunk_voxels(s), 2) + 1) as u16,
    )
}

/// `lowest` is a lower bound of every coordinate and, for a non-empty list,
/// is attained by some voxel.
pub proof fn lemma_lowest(s: Seq<Voxel>, k: int)
    ensures
        0 <= lowest(s, k) <= 255,
        forall|i: int| 0 <= i < s.len() ==> lowest(s, k) <= axis(#[trigger] s[i], k),
        s.len() > 0 ==> exists|i: int| 0 <= i < s.len() && axis(#[trigger] s[i], k) == lowest(s, k),
    decreases s.len(),
{
    if s.len() > 0 {
        let t = s.drop_last();
        lemma_lowest(t, k);
        assert forall|i: int| 0 <= i < s.len() implies lowest(s, k) <= axis(#[trigger] s[i], k) by {
            if i < t.len() {
                assert(s[i] == t[i]);
            }
        }
        if axis(s.last(), k) < lowest(t, k) || t.len() == 0 {
            assert(axis(s[s.len() - 1], k) == lowest(s, k));
        } else {
            let i = choose|i: int| 0 <= i < t.len() && axis(#[trigger] t[i], k) == lowest(t, k);
            assert(s[i] == t[i]);
        }
    }
}

/// `highest` is an upper bound of every coordinate and, for a non-empty
/// list, is attained by some voxel.
pub proof fn lemma_highest(s: Seq<Voxel>, k: int)
    ensures
        0 <= highest(s, k) <= 255,
        forall|i: int| 0 <= i < s.len() ==> axis(#[trigger] s[i], k) <= highest(s, k),
        s.len() > 0 ==> exists|i: int| 0 <= i < s.len() && axis(#[trigger] s[i], k) == highest(s, k),
    decreases s.len(),
{
    if s.len() > 0 {
        let t = s.drop_last();
        lemma_highest(t, k);
        assert forall|i: int| 0 <= i < s.len() implies axis(#[trigger] s[i], k) <= highest(s, k) by {
            if i < t.len() {
                assert(s[i] == t[i]);
            }
        }
        if axis(s.last(), k) > highest(t, k) || t.len() == 0 {
            assert(axis(s[s.len() - 1], k) == highest(s, k));
        } else {
            let i = choose|i: int| 0 <= i < t.len() && axis(#[trigger] t[i], k) == highest(t, k);
            assert(s[i] == t[i]);
        }
    }
}

/// A bound that every coordinate respects and some voxel attains is the
/// smallest coordinate.
pub proof fn lemma_lowest_unique(s: Seq<Voxel>, k: int, m: int)
    requires
        s.len() > 0,
        forall|i: int| 0 <= i < s.len() ==> m <= axis(#[trigger] s[i], k),
        exists|i: int| 0 <= i < s.len() && axis(#[trigger] s[i], k) == m,
    ensures
        lowest(s, k) == m,
{
    lemma_lowest(s, k);
    let i = choose|i: int| 0 <= i < s.len() && axis(#[trigger] s[i], k) == m;
    let j = choose|j: int| 0 <= j < s.len() && axis(#[trigger] s[j], k) == lowest(s, k);
    assert(lowest(s, k) <= axis(s[i], k));
    assert(m <= axis(s[j], k));
}

/// After shrinking, the smallest coordinate on every axis of a non-empty
/// list is 0.
pub proof fn lemma_shrunk_lowest(s: Seq<Voxel>, k: int)
    requires
        s.len() > 0,
        0 <= k <= 2,
    ensures
        lowest(shrunk_voxels(s), k) == 0,
{
    lemma_lowest(s, 0);
    lemma_lowest(s, 1);
    lemma_lowest(s, 2);
    let t = shrunk_voxels(s);
    let i = choose|i: int| 0 <= i < s.len() && axis(#[trigger] s[i], k) == lowest(s, k);
    assert(axis(t[i], k) == 0);
    assert forall|j: int| 0 <= j < t.len() implies 0 <= axis(#[trigger] t[j], k) by {}
    lemma_lowest_unique(t, k, 0);
}

/// Shrinking to fit is idempotent: shrinking a list that was already shrunk
/// changes neither the voxels nor the extents.
pub proof fn lemma_auto_size_idempotent(s: Seq<Voxel>)
    ensures
        shrunk_voxels(shrunk_voxels(s)) == shrunk_voxels(s),
        shrunk_size(shrunk_voxels(s)) == shrunk_size(s),
{
    let t = shrunk_voxels(s);
    if s.len() > 0 {
        lemma_shrunk_lowest(s, 0);
        lemma_shrunk_lowest(s, 1);
        lemma_shrunk_lowest(s, 2);
    }
    assert(shrunk_voxels(t) =~= t);
}

/// Every voxel of a shrunk list lies inside the shrunk extents.
pub proof fn lemma_shrunk_fits(s: Seq<Voxel>)
    ensures
        forall|i: int| 0 <= i < s.len() ==> fits(#[trigger] shrunk_voxels(s)[i], shrunk_size(s)),
        1 <= shrunk_size(s).0 <= 256,
        1 <= shrunk_size(s).1 <= 256,
        1 <= shrunk_size(s).2 <= 256,
{
    let t = shrunk_voxels(s);
    lemma_highest(t, 0);
    lemma_highest(t, 1);
    lemma_highest(t, 2);
    assert forall|i: int| 0 <= i < s.len() implies fits(#[trigger] t[i], shrunk_size(s)) by {
        assert(axis(t[i], 0) <= highest(t, 0));
        assert(axis(t[i], 1) <= highest(t, 1));
        assert(axis(t[i], 2) <= highest(t, 2));
    }
}

/// The voxels of the run `(x, y, z0) .. (x, y, z1)`, `z` ascending.
pub open spec fn z_run(x: int, y: int, z0: int, z1: int, c: u8) -> Seq<Voxel> {
    Seq::new(
        if z1 > z0 {
            (z1 - z0) as nat
        } else {
            0
        },
        |k: int| Voxel { position: (x as u8, y as u8, (z0 + k) as u8), colorindex: c },
    )
}

/// The voxels of the slab `x`, rows `y0 .. y1` in ascending order, each row
/// a `z_run`.
pub open spec fn y_run(x: int, y0: int, y1: int, z0: int, z1: int, c: u8) -> Seq<Voxel>
    decreases y1 - y0,
{
    if y1 <= y0 {
        Seq::empty()
    } else {
        y_run(x, y0, y1 - 1, z0, z1, c) + z_run(x, y1 - 1, z0, z1, c)
    }
}

/// The voxels of the cuboid between two corners, the far corner excluded:
/// `x` outermost, then `y`, then `z`, each ascending.
pub open spec fn cuboid(x0: int, x1: int, y0: int, y1: int, z0: int, z1: int, c: u8) -> Seq<Voxel>
    decreases x1 - x0,
{
    if x1 <= x0 {
        Seq::empty()
    } else {
        cuboid(x0, x1 - 1, y0, y1, z0, z1, c) + y_run(x1 - 1, y0, y1, z0, z1, c)
    }
}

/// Whether the cuboid between two corners holds no cell at all.
pub open spec fn cuboid_is_empty(x0: int, x1: int, y0: int, y1: int, z0: int, z1: int) -> bool {
    x1 <= x0 || y1 <= y0 || z1 <= z0
}

/// Whether every cell of the cuboid lies inside a grid of extents `size`.
pub open spec fn cuboid_fits(
    x0: int,
    x1: int,
    y0: int,
    y1: int,
    z0: int,
    z1: int,
    size: (u16, u16, u16),
) -> bool {
    cuboid_is_empty(x0, x1, y0, y1, z0, z1) || (x1 <= size.0 && y1 <= size.1 && z1 <= size.2)
}

/// What a model says: its extents, voxels, placement, name and identifier.
pub struct ModelData {
    pub size: (u16, u16, u16),
    pub voxels: Seq<Voxel>,
    pub position: Option<(i32, i32, i32)>,
    pub rotation: Option<u8>,
    pub layer: Option<i32>,
    pub name: Option<Seq<char>>,
    pub id: i32,
}

impl ModelData {
    /// The placement the model's transform node carries: its layer, or 0
    /// where it has none, its rotation and its translation.
    pub open spec fn transform_data(self) -> Transform {
        Transform {
            layer: match self.layer {
                Some(layer) => layer,
                None => 0,
            },
            rotation: match self.rotation {
                Some(rotation) => Some(rotation as i32),
                None => None,
            },
            translation: self.position,
        }
    }

    /// The subtree that places the model: a transform node that carries the
    /// model's name and placement, with one shape child that carries the
    /// model's identifier.
    pub open spec fn to_node(self) -> NodeModel {
        NodeModel {
            node_type: NodeType::Transform(self.transform_data()),
            attributes: AttributesModel { name: self.name, hidden: None },
            children: seq![
                NodeModel {
                    node_type: NodeType::Shape(self.id),
                    attributes: AttributesModel { name: None, hidden: None },
                    children: Seq::empty(),
                },
            ],
        }
    }
}

/// What a list of models says.
pub open spec fn models_view(models: Seq<Model>) -> Seq<ModelData> {
    Seq::new(models.len(), |i: int| models[i]@)
}

/// Holds voxel data: the extents of the grid, its voxels in insertion
/// order, where the grid is placed in the scene, and the identifier the
/// owning container gave it.
#[derive(Debug)]
pub struct Model {
    pub size: (u16, u16, u16),
    pub voxels: Vec<Voxel>,
    pub position: Option<(i32, i32, i32)>,
    pub rotation: Option<u8>,
    pub layer: Option<i32>,
    pub name: Option<String>,
    pub id: i32,
}

impl View for Model {
    type V = ModelData;

    open spec fn view(&self) -> ModelData {
        ModelData {
            size: self.size,
            voxels: self.voxels@,
            position: self.position,
            rotation: self.rotation,
            layer: self.layer,
            name: text_view(self.name),
            id: self.id,
        }
    }
}

impl Clone for Model {
    /// A copy with the same extents, voxels, placement, name and identifier.
    fn clone(&self) -> (copy: Model)
        ensures
            self.same_frame(&copy),
            copy.voxels@ == self.voxels@,
            copy@ == self@,
    {
        let mut voxels: Vec<Voxel> = Vec::new();
        let mut i: usize = 0;
        while i < self.voxels.len()
            invariant
                i <= self.voxels.len(),
                voxels@ == self.voxels@.take(i as int),
            decreases self.voxels.len() - i,
        {
            voxels.push(self.voxels[i]);
            assert(self.voxels@.take(i + 1) =~= self.voxels@.take(i as int).push(self.voxels@[i as int]));
            i = i + 1;
        }
        assert(self.voxels@.take(i as int) =~= self.voxels@);
        Model {
            size: self.size,
            voxels,
            position: self.position,
            rotation: self.rotation,
            layer: self.layer,
            name: match &self.name {
                Some(name) => Some(name.clone()),
                None => None,
            },
            id: self.id,
        }
    }
}

impl Model {
    /// A grid is well formed when no extent exceeds 256 and every voxel lies
    /// inside the extents.
    pub open spec fn wf(&self) -> bool {
        &&& self.size.0 <= MAX_EXTENT
        &&& self.size.1 <= MAX_EXTENT
        &&& self.size.2 <= MAX_EXTENT
        &&& forall|i: int| 0 <= i < self.voxels@.len() ==> fits(#[trigger] self.voxels@[i], self.size)
    }

    /// Whether `other` differs from `self` at most in its voxels.
    pub open spec fn same_frame(&self, other: &Model) -> bool {
        &&& self.size == other.size
        &&& self.same_placement(other)
    }

    /// Whether `other` has the placement, name and identifier of `self`.
    pub open spec fn same_placement(&self, other: &Model) -> bool {
        &&& self.position == other.position
        &&& self.rotation == other.rotation
        &&& self.layer == other.layer
        &&& self.name == other.name
        &&& self.id == other.id
    }

    /// Appends the model to `out`: a `SIZE` chunk with the extents, then an
    /// `XYZI` chunk with the voxel count and the voxels in insertion order.
    pub fn write(&self, out: &mut Vec<u8>)
        requires
            xyzi_size(self.voxels@.len()) <= u32::MAX,
        ensures
            final(out)@ == old(out)@ + encode_model(self.size, self.voxels@),
    {
        proof {
            lemma_model_tag_names();
        }
        write_chunk("SIZE", 12, 0, out);
        Self::write_extent(out, self.size.0);
        Self::write_extent(out, self.size.1);
        Self::write_extent(out, self.size.2);
        let ghost after_size = out@;
        assert(after_size =~= old(out)@ + (leaf_header(tag_size(), 12) + size_body(self.size)));
        let count = self.voxels.len() as u32;
        write_chunk("XYZI", count * 4 + 4, 0, out);
        let count_bytes = u32_to_array(count);
        write_slice(out, count_bytes.as_slice());
        self.write_voxels(out);
        assert(out@ =~= after_size + (leaf_header(tag_xyzi(), xyzi_size(self.voxels@.len()))
            + xyzi_body(self.voxels@)));
        assert(out@ =~= old(out)@ + encode_model(self.size, self.voxels@));
    }

    /// Appends one extent, padded to four bytes.
    fn write_extent(out: &mut Vec<u8>, extent: u16)
        ensures
            final(out)@ == old(out)@ + encode_extent(extent),
    {
        let bytes = u16_to_array(extent);
        write_slice(out, bytes.as_slice());
        out.push(0);
        out.push(0);
        assert(out@ =~= old(out)@ + encode_extent(extent));
    }

    /// Appends the four bytes of every voxel, in insertion order.
    fn write_voxels(&self, out: &mut Vec<u8>)
        ensures
            final(out)@ == old(out)@ + encode_voxels(self.voxels@),
    {
        let mut i: usize = 0;
        assert(old(out)@ + encode_voxels(self.voxels@.take(0)) =~= old(out)@);
        while i < self.voxels.len()
            invariant
                i <= self.voxels.len(),
                out@ == old(out)@ + encode_voxels(self.voxels@.take(i as int)),
            decreases self.voxels.len() - i,
        {
            let v = self.voxels[i];
            assert(self.voxels@.take(i + 1).drop_last() =~= self.voxels@.take(i as int));
            assert(self.voxels@.take(i + 1).last() == v);
            out.push(v.position.0);
            out.push(v.position.1);
            out.push(v.position.2);
            out.push(v.colorindex);
            assert(out@ =~= old(out)@ + encode_voxels(self.voxels@.take(i + 1)));
            i = i + 1;
        }
        assert(self.voxels@.take(i as int) =~= self.voxels@);
    }

    /// Reads the model whose `SIZE` chunk starts at `*cursor` and gives it
    /// the identifier `id`. The voxels are read by offset: the cursor stops
    /// at the first voxel record. A model that was read is unplaced and
    /// unnamed. On failure the cursor stays where it was.
    #[verifier::loop_isolation(false)]
    pub fn read(input: &Vec<u8>, cursor: &mut i32, id: i32) -> (result: Result<Model, ReadError>)
        requires
            input@.len() <= i32::MAX,
        ensures
            match parse_model(input@, *old(cursor) as int) {
                Ok((record, next)) => {
                    &&& result matches Ok(model)
                    &&& model.size == record.size
                    &&& model.voxels@ == record.voxels
                    &&& model.position is None
                    &&& model.rotation is None
                    &&& model.layer is None
                    &&& model.name is None
                    &&& model.id == id
                    &&& *final(cursor) == next
                },
                Err(e) => result == Err::<Model, ReadError>(e) && *final(cursor) == *old(cursor),
            },
    {
        if *cursor < 0 || input.len() < 40 || *cursor as usize > input.len() - 40 {
            return Err(ReadError::CorruptContainer);
        }
        let pos = *cursor as usize;
        let size_x = Self::read_extent(input, pos + 12);
        let size_y = Self::read_extent(input, pos + 16);
        let size_z = Self::read_extent(input, pos + 20);
        let count = u32_from_vec(input, pos + 36);
        let start = pos + 40;
        if count as u64 * 4 > (input.len() - start) as u64 {
            return Err(ReadError::CorruptContainer);
        }
        let ghost expected = voxels_at(input@, start as int, count as nat);
        let mut voxels: Vec<Voxel> = Vec::new();
        let mut i: u32 = 0;
        while i < count
            invariant
                i <= count,
                start + 4 * count <= input@.len(),
                input@.len() <= i32::MAX,
                expected == voxels_at(input@, start as int, count as nat),
                voxels@ == expected.take(i as int),
                forall|j: int| 0 <= j < i ==> (#[trigger] expected[j]).colorindex != 0,
                *cursor == *old(cursor),
            decreases count - i,
        {
            let at = start + 4 * (i as usize);
            let x = input[at];
            let y = input[at + 1];
            let z = input[at + 2];
            let index = input[at + 3];
            assert(expected[i as int] == voxel_at(input@, at as int));
            if index == 0 {
                return Err(ReadError::InvalidArgument);
            }
            voxels.push(Voxel::new(x, y, z, index));
            assert(voxels@ =~= expected.take(i + 1));
            i = i + 1;
        }
        assert(expected.take(count as int) =~= expected);
        *cursor = start as i32;
        Ok(
            Model {
                size: (size_x, size_y, size_z),
                voxels,
                position: None,
                rotation: None,
                layer: None,
                name: None,
                id,
            },
        )
    }

    /// Reads the extent whose padded field starts at `pos`.
    fn read_extent(input: &Vec<u8>, pos: usize) -> (extent: u16)
        requires
            pos + 4 <= input.len(),
        ensures
            extent == le_u16(input@.subrange(pos as int, pos + 2)),
    {
        reveal(le_u16);
        input[pos] as u16 + 256 * (input[pos + 1] as u16)
    }

    /// Puts the placement of the model into a transform: a model without
    /// layer goes to layer 0.
    pub fn transform_data(&self) -> (transform: Transform)
        ensures
            transform == self@.transform_data(),
    {
        Transform {
            layer: match self.layer {
                Some(layer) => layer,
                None => 0,
            },
            rotation: match self.rotation {
                None => None,
                Some(rotation) => Some(rotation as i32),
            },
            translation: self.position,
        }
    }

    /// Builds the subtree that places the model in the scene.
    pub fn to_node(&self) -> (node: Node)
        ensures
            node@ == self@.to_node(),
    {
        let mut attributes = NodeAttributes::new();
        attributes.name =
        match &self.name {
            Some(name) => Some(name.clone()),
            None => None,
        };
        let mut transform_node = Node::new(NodeType::Transform(self.transform_data()), attributes);
        let shape_node = Node::new(NodeType::Shape(self.id), NodeAttributes::new());
        assert(shape_node@.children =~= Seq::empty());
        transform_node.add_child(shape_node);
        assert(transform_node@.children =~= self@.to_node().children);
        transform_node
    }

    /// The size in bytes of the content of the model's `XYZI` chunk.
    pub fn get_size(&self) -> (size: i32)
        requires
            xyzi_size(self.voxels@.len()) <= i32::MAX,
        ensures
            size == xyzi_size(self.voxels@.len()),
    {
        self.voxels.len() as i32 * 4 + 4
    }

    /// Creates an empty, unplaced model with the extents given, none of
    /// which may exceed 256. Its identifier is 0 until a container adopts it.
    pub fn new(x: u16, y: u16, z: u16) -> (model: Model)
        requires
            x <= MAX_EXTENT,
            y <= MAX_EXTENT,
            z <= MAX_EXTENT,
        ensures
            model.size == (x, y, z),
            model.voxels@ == Seq::<Voxel>::empty(),
            model.position is None,
            model.rotation is None,
            model.layer is None,
            model.name is None,
            model.id == 0,
            model.wf(),
    {
        Model {
            size: (x, y, z),
            voxels: Vec::new(),
            position: None,
            rotation: None,
            layer: None,
            name: None,
            id: 0,
        }
    }

    /// Adds a voxel to the model. A voxel that does not fit inside the
    /// extents is refused and the model stays as it was.
    pub fn add_voxel(&mut self, new_voxel: Voxel) -> (result: Result<(), &'static str>)
        ensures
            old(self).same_frame(final(self)),
            fits(new_voxel, old(self).size) ==> result is Ok && final(self).voxels@ == old(
                self,
            ).voxels@.push(new_voxel),
            !fits(new_voxel, old(self).size) ==> result is Err && final(self).voxels@ == old(
                self,
            ).voxels@,
            result matches Err(msg) ==> msg@ == "Voxel position greater than Voxobject size"@,
            old(self).wf() ==> final(self).wf(),
    {
        if new_voxel.position.0 as u16 >= self.size.0 || new_voxel.position.1 as u16 >= self.size.1
            || new_voxel.position.2 as u16 >= self.size.2 {
            return Err("Voxel position greater than Voxobject size");
        }
        self.voxels.push(new_voxel);
        Ok(())
    }

    /// Removes every voxel.
    pub fn clear_voxels(&mut self)
        ensures
            old(self).same_frame(final(self)),
            final(self).voxels@ == Seq::<Voxel>::empty(),
    {
        self.voxels.clear();
    }

    /// Sets the extents of the model; none may exceed 256. The voxels are
    /// left alone, so some may now lie outside the grid until
    /// [`Model::check_voxels_pos`] drops them.
    pub fn set_size(&mut self, x: u16, y: u16, z: u16)
        requires
            x <= MAX_EXTENT,
            y <= MAX_EXTENT,
            z <= MAX_EXTENT,
        ensures
            final(self).size == (x, y, z),
            final(self).voxels@ == old(self).voxels@,
            old(self).same_placement(final(self)),
    {
        self.size = (x, y, z);
    }

    /// Makes the model as small as possible: moves the voxels flush against
    /// the origin and sets the extents to their span.
    pub fn auto_size(&mut self)
        ensures
            final(self).voxels@ == shrunk_voxels(old(self).voxels@),
            final(self).size == shrunk_size(old(self).voxels@),
            old(self).same_placement(final(self)),
            final(self).wf(),
    {
        let lo = Self::lowest_corner(&self.voxels);
        Self::shift_voxels(&mut self.voxels, lo);
        self.size = Self::span(&self.voxels);
        proof {
            lemma_shrunk_fits(old(self).voxels@);
        }
    }

    /// The smallest coordinate on each axis.
    fn lowest_corner(voxels: &Vec<Voxel>) -> (lo: (u8, u8, u8))
        ensures
            lo.0 == lowest(voxels@, 0),
            lo.1 == lowest(voxels@, 1),
            lo.2 == lowest(voxels@, 2),
    {
        let n = voxels.len();
        let mut lo: (u8, u8, u8) = (255, 255, 255);
        let mut i: usize = 0;
        while i < n
            invariant
                i <= n,
                n == voxels@.len(),
                lo.0 == lowest(voxels@.take(i as int), 0),
                lo.1 == lowest(voxels@.take(i as int), 1),
                lo.2 == lowest(voxels@.take(i as int), 2),
            decreases n - i,
        {
            let v = voxels[i];
            assert(voxels@.take(i + 1).drop_last() =~= voxels@.take(i as int));
            assert(voxels@.take(i + 1).last() == v);
            if v.position.0 < lo.0 {
                lo.0 = v.position.0;
            }
            if v.position.1 < lo.1 {
                lo.1 = v.position.1;
            }
            if v.position.2 < lo.2 {
                lo.2 = v.position.2;
            }
            i = i + 1;
        }
        assert(voxels@.take(n as int) =~= voxels@);
        lo
    }

    /// Moves every voxel towards the origin by the smallest coordinates.
    fn shift_voxels(voxels: &mut Vec<Voxel>, lo: (u8, u8, u8))
        requires
            lo.0 == lowest(old(voxels)@, 0),
            lo.1 == lowest(old(voxels)@, 1),
            lo.2 == lowest(old(voxels)@, 2),
        ensures
            final(voxels)@ == shrunk_voxels(old(voxels)@),
    {
        let ghost before = voxels@;
        let ghost after = shrunk_voxels(before);
        let n = voxels.len();
        proof {
            lemma_lowest(before, 0);
            lemma_lowest(before, 1);
            lemma_lowest(before, 2);
        }
        let mut i: usize = 0;
        while i < n
            invariant
                i <= n,
                n == voxels@.len(),
                n == before.len(),
                after == shrunk_voxels(before),
                lo.0 == lowest(before, 0),
                lo.1 == lowest(before, 1),
                lo.2 == lowest(before, 2),
                forall|j: int|
                    0 <= j < before.len() ==> lowest(before, 0) <= axis(#[trigger] before[j], 0),
                forall|j: int|
                    0 <= j < before.len() ==> lowest(before, 1) <= axis(#[trigger] before[j], 1),
                forall|j: int|
                    0 <= j < before.len() ==> lowest(before, 2) <= axis(#[trigger] before[j], 2),
                forall|j: int| 0 <= j < i ==> voxels@[j] == after[j],
                forall|j: int| i <= j < n ==> voxels@[j] == before[j],
            decreases n - i,
        {
            let v = voxels[i];
            assert(lo.0 <= axis(before[i as int], 0));
            assert(lo.1 <= axis(before[i as int], 1));
            assert(lo.2 <= axis(before[i as int], 2));
            let moved = Voxel {
                position: (v.position.0 - lo.0, v.position.1 - lo.1, v.position.2 - lo.2),
                colorindex: v.colorindex,
            };
            voxels.set(i, moved);
            i = i + 1;
        }
        assert(voxels@ =~= after);
    }

    /// One more than the largest coordinate on each axis, and 1 on each
    /// axis for an empty list.
    fn span(voxels: &Vec<Voxel>) -> (hi: (u16, u16, u16))
        ensures
            hi.0 == highest(voxels@, 0) + 1,
            hi.1 == highest(voxels@, 1) + 1,
            hi.2 == highest(voxels@, 2) + 1,
    {
        let n = voxels.len();
        let mut hi: (u16, u16, u16) = (1, 1, 1);
        let mut i: usize = 0;
        while i < n
            invariant
                i <= n,
                n == voxels@.len(),
                hi.0 == highest(voxels@.take(i as int), 0) + 1,
                hi.1 == highest(voxels@.take(i as int), 1) + 1,
                hi.2 == highest(voxels@.take(i as int), 2) + 1,
            decreases n - i,
        {
            let v = voxels[i];
            assert(voxels@.take(i + 1).drop_last() =~= voxels@.take(i as int));
            assert(voxels@.take(i + 1).last() == v);
            if v.position.0 as u16 + 1 > hi.0 {
                hi.0 = v.position.0 as u16 + 1;
            }
            if v.position.1 as u16 + 1 > hi.1 {
                hi.1 = v.position.1 as u16 + 1;
            }
            if v.position.2 as u16 + 1 > hi.2 {
                hi.2 = v.position.2 as u16 + 1;
            }
            i = i + 1;
        }
        assert(voxels@.take(n as int) =~= voxels@);
        hi
    }

    /// Fills the cuboid between two corners with voxels of one colour, the
    /// far corner excluded. If any cell of it lies outside the grid, nothing
    /// is added.
    pub fn add_cube(
        &mut self,
        startx: u8,
        starty: u8,
        startz: u8,
        endx: u8,
        endy: u8,
        endz: u8,
        colorindex: u8,
    ) -> (result: Result<(), &'static str>)
        requires
            colorindex != 0 || cuboid_is_empty(
                startx as int,
                endx as int,
                starty as int,
                endy as int,
                startz as int,
                endz as int,
            ) || !cuboid_fits(
                startx as int,
                endx as int,
                starty as int,
                endy as int,
                startz as int,
                endz as int,
                old(self).size,
            ),
        ensures
            old(self).same_frame(final(self)),
            result is Ok <==> cuboid_fits(
                startx as int,
                endx as int,
                starty as int,
                endy as int,
                startz as int,
                endz as int,
                old(self).size,
            ),
            result is Ok ==> final(self).voxels@ == old(self).voxels@ + cuboid(
                startx as int,
                endx as int,
                starty as int,
                endy as int,
                startz as int,
                endz as int,
                colorindex,
            ),
            result is Err ==> final(self).voxels@ == old(self).voxels@,
            result matches Err(msg) ==> msg@ == "Cube too large"@,
            old(self).wf() ==> final(self).wf(),
    {
        let empty = endx <= startx || endy <= starty || endz <= startz;
        if !empty && (endx as u16 > self.size.0 || endy as u16 > self.size.1 || endz as u16
            > self.size.2) {
            return Err("Cube too large");
        }
        if empty {
            proof {
                lemma_cuboid_empty(
                    startx as int,
                    endx as int,
                    starty as int,
                    endy as int,
                    startz as int,
                    endz as int,
                    colorindex,
                );
            }
            assert(self.voxels@ + Seq::<Voxel>::empty() =~= self.voxels@);
            return Ok(());
        }
        let ghost before = self.voxels@;
        let ghost (x0, x1, y0, y1, z0, z1) = (
            startx as int,
            endx as int,
            starty as int,
            endy as int,
            startz as int,
            endz as int,
        );
        let mut x = startx;
        assert(before + cuboid(x0, x0, y0, y1, z0, z1, colorindex) =~= before);
        while x < endx
            invariant
                startx <= x <= endx,
                starty < endy,
                startz < endz,
                endx <= self.size.0,
                endy <= self.size.1,
                endz <= self.size.2,
                colorindex != 0,
                old(self).same_frame(self),
                x0 == startx && x1 == endx && y0 == starty && y1 == endy && z0 == startz && z1
                    == endz,
                self.voxels@ == before + cuboid(x0, x as int, y0, y1, z0, z1, colorindex),
                old(self).wf() ==> self.wf(),
            decreases endx - x,
        {
            let ghost slab_start = self.voxels@;
            let mut y = starty;
            assert(slab_start + y_run(x as int, y0, y0, z0, z1, colorindex) =~= slab_start);
            while y < endy
                invariant
                    startx <= x < endx,
                    starty <= y <= endy,
                    startz < endz,
                    endx <= self.size.0,
                    endy <= self.size.1,
                    endz <= self.size.2,
                    colorindex != 0,
                    old(self).same_frame(self),
                    y0 == starty && y1 == endy && z0 == startz && z1 == endz,
                    self.voxels@ == slab_start + y_run(x as int, y0, y as int, z0, z1, colorindex),
                    old(self).wf() ==> self.wf(),
                decreases endy - y,
            {
                let ghost row_start = self.voxels@;
                let mut z = startz;
                assert(row_start + z_run(x as int, y as int, z0, z0, colorindex) =~= row_start);
                while z < endz
                    invariant
                        startx <= x < endx,
                        starty <= y < endy,
                        startz <= z <= endz,
                        endx <= self.size.0,
                        endy <= self.size.1,
                        endz <= self.size.2,
                        colorindex != 0,
                        old(self).same_frame(self),
                        z0 == startz && z1 == endz,
                        self.voxels@ == row_start + z_run(x as int, y as int, z0, z as int, colorindex),
                        old(self).wf() ==> self.wf(),
                    decreases endz - z,
                {
                    let voxel = Voxel::new(x, y, z, colorindex);
                    self.voxels.push(voxel);
                    assert(self.voxels@ =~= row_start + z_run(
                        x as int,
                        y as int,
                        z0,
                        z + 1,
                        colorindex,
                    ));
                    z = z + 1;
                }
                assert(self.voxels@ =~= slab_start + y_run(x as int, y0, y + 1, z0, z1, colorindex));
                y = y + 1;
            }
            assert(self.voxels@ =~= before + cuboid(x0, x + 1, y0, y1, z0, z1, colorindex));
            x = x + 1;
        }
        Ok(())
    }

    /// Checks if there is a voxel at the position.
    pub fn is_voxel_at_pos(&self, x: u8, y: u8, z: u8) -> (found: bool)
        ensures
            found <==> exists|i: int|
                0 <= i < self.voxels@.len() && (#[trigger] self.voxels@[i]).position == (x, y, z),
    {
        let mut i: usize = 0;
        while i < self.voxels.len()
            invariant
                i <= self.voxels.len(),
                forall|j: int| 0 <= j < i ==> (#[trigger] self.voxels@[j]).position != (x, y, z),
            decreases self.voxels.len() - i,
        {
            let v = self.voxels[i];
            if v.position.0 == x && v.position.1 == y && v.position.2 == z {
                return true;
            }
            i = i + 1;
        }
        false
    }

    /// Drops every voxel that lies outside the current extents, keeping the
    /// others in order.
    pub fn check_voxels_pos(&mut self)
        ensures
            old(self).same_frame(final(self)),
            final(self).voxels@ == old(self).voxels@.filter(|v: Voxel| fits(v, old(self).size)),
            forall|i: int|
                0 <= i < final(self).voxels@.len() ==> fits(
                    #[trigger] final(self).voxels@[i],
                    final(self).size,
                ),
    {
        let ghost before = self.voxels@;
        let ghost size = self.size;
        let ghost pred = |v: Voxel| fits(v, size);
        let mut kept: Vec<Voxel> = Vec::new();
        let mut i: usize = 0;
        while i < self.voxels.len()
            invariant
                i <= self.voxels.len(),
                self.voxels@ == before,
                self.size == size,
                old(self).same_frame(self),
                pred == (|v: Voxel| fits(v, size)),
                kept@ == before.take(i as int).filter(pred),
                forall|j: int| 0 <= j < kept@.len() ==> fits(#[trigger] kept@[j], size),
            decreases self.voxels.len() - i,
        {
            let v = self.voxels[i];
            assert(before.take(i + 1).drop_last() =~= before.take(i as int));
            assert(before.take(i + 1).last() == v);
            assert(pred(v) == fits(v, size));
            reveal_with_fuel(Seq::filter, 2);
            if (v.position.0 as u16) < self.size.0 && (v.position.1 as u16) < self.size.1 && (
            v.position.2 as u16) < self.size.2 {
                kept.push(v);
            }
            i = i + 1;
        }
        assert(before.take(i as int) =~= before);
        self.voxels = kept;
    }

    /// Adds a voxel at the position given, coloured by palette entry
    /// `voxel_index`. A position outside the extents is refused and the model
    /// stays as it was.
    pub fn add_voxel_at_pos(&mut self, x: u8, y: u8, z: u8, voxel_index: u8) -> (result: Result<
        (),
        &'static str,
    >)
        requires
            voxel_index != 0 || !(x < old(self).size.0 && y < old(self).size.1 && z < old(
                self,
            ).size.2),
        ensures
            old(self).same_frame(final(self)),
            result is Ok <==> x < old(self).size.0 && y < old(self).size.1 && z < old(self).size.2,
            result is Ok ==> final(self).voxels@ == old(self).voxels@.push(
                Voxel { position: (x, y, z), colorindex: voxel_index },
            ),
            result is Err ==> final(self).voxels@ == old(self).voxels@,
            result matches Err(msg) ==> msg@ == "Position greater than Voxobject size"@,
            old(self).wf() ==> final(self).wf(),
    {
        if x as u16 >= self.size.0 || y as u16 >= self.size.1 || z as u16 >= self.size.2 {
            return Err("Position greater than Voxobject size");
        }
        self.voxels.push(Voxel::new(x, y, z, voxel_index));
        Ok(())
    }

    /// Returns the number of voxels in the model.
    pub fn num_of_voxels(&self) -> (count: i32)
        requires
            self.voxels@.len() <= i32::MAX,
        ensures
            count == self.voxels@.len(),
    {
        self.voxels.len() as i32
    }

    /// Keeps the voxels for which `closure` answers true, in order, and drops
    /// the others.
    pub fn retain_voxels<T>(&mut self, closure: T) where T: Fn(&Voxel) -> bool
        requires
            forall|v: Voxel| call_requires(closure, (&v,)),
        ensures
            old(self).same_frame(final(self)),
            exists|keep: Seq<bool>|
                {
                    &&& keep.len() == old(self).voxels@.len()
                    &&& forall|i: int|
                        0 <= i < keep.len() ==> call_ensures(
                            closure,
                            (&old(self).voxels@[i],),
                            #[trigger] keep[i],
                        )
                    &&& final(self).voxels@ == kept_by(old(self).voxels@, keep)
                },
            old(self).wf() ==> final(self).wf(),
    {
        let ghost before = self.voxels@;
        let ghost mut keep: Seq<bool> = Seq::empty();
        let mut kept: Vec<Voxel> = Vec::new();
        let mut i: usize = 0;
        while i < self.voxels.len()
            invariant
                i <= self.voxels.len(),
                self.voxels@ == before,
                old(self).same_frame(self),
                forall|v: Voxel| call_requires(closure, (&v,)),
                keep.len() == i,
                forall|j: int|
                    0 <= j < i ==> call_ensures(closure, (&before[j],), #[trigger] keep[j]),
                kept@ == kept_by(before.take(i as int), keep),
                forall|j: int|
                    0 <= j < kept@.len() ==> exists|k: int|
                        0 <= k < i && before[k] == #[trigger] kept@[j],
            decreases self.voxels.len() - i,
        {
            let v = self.voxels[i];
            let answer = closure(&self.voxels[i]);
            let ghost old_keep = keep;
            let ghost old_kept = kept@;
            proof {
                keep = keep.push(answer);
                assert(before.take(i + 1).drop_last() =~= before.take(i as int));
                assert(keep.drop_last() =~= old_keep);
            }
            if answer {
                kept.push(v);
                assert forall|j: int| 0 <= j < kept@.len() implies exists|k: int|
                    0 <= k < i + 1 && before[k] == #[trigger] kept@[j] by {
                    if j < old_kept.len() {
                        let k = choose|k: int| 0 <= k < i && before[k] == old_kept[j];
                        assert(before[k] == kept@[j]);
                    } else {
                        assert(before[i as int] == kept@[j]);
                    }
                }
            }
            i = i + 1;
        }
        assert(before.take(i as int) =~= before);
        self.voxels = kept;
        assert(old(self).wf() ==> self.wf()) by {
            if old(self).wf() {
                assert forall|j: int| 0 <= j < self.voxels@.len() implies fits(
                    #[trigger] self.voxels@[j],
                    self.size,
                ) by {
                    let k = choose|k: int| 0 <= k < before.len() && before[k] == self.voxels@[j];
                    assert(fits(before[k], old(self).size));
                }
            }
        }
    }

    /// Replaces every voxel by what `closure` makes of it, in order.
    pub fn change_voxels<T>(&mut self, closure: T) where T: Fn(Voxel) -> Voxel
        requires
            forall|v: Voxel| call_requires(closure, (v,)),
        ensures
            old(self).same_frame(final(self)),
            final(self).voxels@.len() == old(self).voxels@.len(),
            forall|i: int|
                0 <= i < old(self).voxels@.len() ==> call_ensures(
                    closure,
                    (old(self).voxels@[i],),
                    #[trigger] final(self).voxels@[i],
                ),
    {
        let ghost before = self.voxels@;
        let mut i: usize = 0;
        while i < self.voxels.len()
            invariant
                i <= self.voxels.len(),
                self.voxels@.len() == before.len(),
                old(self).same_frame(self),
                forall|v: Voxel| call_requires(closure, (v,)),
                forall|j: int|
                    0 <= j < i ==> call_ensures(closure, (before[j],), #[trigger] self.voxels@[j]),
                forall|j: int| i <= j < before.len() ==> self.voxels@[j] == before[j],
            decreases self.voxels.len() - i,
        {
            let changed = closure(self.voxels[i]);
            self.voxels.set(i, changed);
            i = i + 1;
        }
    }

    /// The identifier given by the owning container.
    pub fn get_id(&self) -> (id: i32)
        ensures
            id == self.id,
    {
        self.id
    }
}

/// The elements of `s` whose flag in `keep` is set, in order.
pub open spec fn kept_by(s: Seq<Voxel>, keep: Seq<bool>) -> Seq<Voxel>
    decreases s.len(),
{
    if s.len() == 0 || keep.len() != s.len() {
        Seq::empty()
    } else if keep.last() {
        kept_by(s.drop_last(), keep.drop_last()).push(s.last())
    } else {
        kept_by(s.drop_last(), keep.drop_last())
    }
}

/// A cuboid without cells holds no voxels.
pub proof fn lemma_cuboid_empty(x0: int, x1: int, y0: int, y1: int, z0: int, z1: int, c: u8)
    requires
        cuboid_is_empty(x0, x1, y0, y1, z0, z1),
    ensures
        cuboid(x0, x1, y0, y1, z0, z1, c) == Seq::<Voxel>::empty(),
    decreases x1 - x0,
{
    if x1 > x0 {
        lemma_cuboid_empty(x0, x1 - 1, y0, y1, z0, z1, c);
        lemma_y_run_empty(x1 - 1, y0, y1, z0, z1, c);
        assert(cuboid(x0, x1, y0, y1, z0, z1, c) =~= Seq::<Voxel>::empty());
    }
}

/// A slab without rows, or whose rows are empty, holds no voxels.
pub proof fn lemma_y_run_empty(x: int, y0: int, y1: int, z0: int, z1: int, c: u8)
    requires
        y1 <= y0 || z1 <= z0,
    ensures
        y_run(x, y0, y1, z0, z1, c) == Seq::<Voxel>::empty(),
    decreases y1 - y0,
{
    if y1 > y0 {
        lemma_y_run_empty(x, y0, y1 - 1, z0, z1, c);
        assert(y_run(x, y0, y1, z0, z1, c) =~= Seq::<Voxel>::empty());
    }
}

} // verus!
