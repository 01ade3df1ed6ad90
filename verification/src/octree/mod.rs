use vstd::prelude::*;


pub mod arena;
pub mod arena_realloc;
pub mod bounds;
pub mod chunk;

pub mod direction;
pub mod edge_table;
pub mod index_path;
pub mod mesh;
pub mod node;

pub mod voxel;
pub mod walk;

verus! {

/// The material stored in a voxel; 0 is empty space.
#[derive(Copy, Clone, Debug, PartialEq, Eq, Structural)]
pub struct VoxelData(pub u16);

impl Default for VoxelData {
    fn default() -> (r: Self)
        ensures
            r.0 == 0,
    {
        VoxelData(0)
    }
}

impl VoxelData {
    /// Empty space.
    pub fn empty() -> (r: VoxelData)
        ensures
            r.0 == 0,
    {
        VoxelData(0)
    }

    pub fn is_empty(&self) -> (r: bool)
        ensures
            r == (self.0 == 0),
    {
        *self == Self::empty()
    }
}

impl From<u16> for VoxelData {
    fn from(d: u16) -> (r: Self) {
        Self(d)
    }
}

impl vstd::std_specs::convert::FromSpecImpl<u16> for VoxelData {
    open spec fn obeys_from_spec() -> bool {
        true
    }

    open spec fn from_spec(v: u16) -> VoxelData {
        VoxelData(v)
    }
}

} // verus!
