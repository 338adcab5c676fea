//! A single coloured cell of a voxel grid.

use vstd::prelude::*;

verus! {

/// A single voxel: a position inside its grid and the palette entry that
/// colours it. Palette index 0 means "empty" and never occurs in a voxel
/// made by [`Voxel::new`].
#[derive(Clone, Copy, Debug)]
pub struct Voxel {
    pub position: (u8, u8, u8),
    pub colorindex: u8,
}

impl Voxel {
    /// Creates a voxel at `(x, y, z)` coloured by palette entry
    /// `colorindex_value`, which must lie between 1 and 255.
    pub fn new(x: u8, y: u8, z: u8, colorindex_value: u8) -> (voxel: Voxel)
        requires
            colorindex_value != 0,
        ensures
            voxel.position == (x, y, z),
            voxel.colorindex == colorindex_value,
    {
        Voxel { position: (x, y, z), colorindex: colorindex_value }
    }
}

impl PartialEq for Voxel {
    /// Two voxels are equal when position and palette index agree.
    fn eq(&self, other: &Voxel) -> (equal: bool) {
        self.position.0 == other.position.0 && self.position.1 == other.position.1
            && self.position.2 == other.position.2 && self.colorindex == other.colorindex
    }
}

impl vstd::std_specs::cmp::PartialEqSpecImpl for Voxel {
    open spec fn obeys_eq_spec() -> bool {
        true
    }

    open spec fn eq_spec(&self, other: &Voxel) -> bool {
        self.position == other.position && self.colorindex == other.colorindex
    }
}

impl vstd::std_specs::ops::AddSpecImpl for Voxel {
    open spec fn obeys_add_spec() -> bool {
        false
    }

    open spec fn add_req(self, other: Voxel) -> bool {
        true
    }

    open spec fn add_spec(self, other: Voxel) -> Vec<Voxel> {
        arbitrary()
    }
}

impl std::ops::Add for Voxel {
    type Output = Vec<Voxel>;

    /// Joins two voxels into a list, left operand first.
    fn add(self, other: Voxel) -> (pair: Vec<Voxel>)
        ensures
            pair@ == seq![self, other],
    {
        let mut pair = Vec::new();
        pair.push(self);
        pair.push(other);
        assert(pair@ =~= seq![self, other]);
        pair
    }
}

} // verus!
