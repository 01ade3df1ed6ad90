use vstd::prelude::*;
use crate::octree::bounds::Bounds;
use crate::octree::chunk::Chunk;
use crate::octree::direction::Direction;
use crate::octree::node::Node;
use crate::octree::voxel::Voxel;

verus! {

/// Fills chunks with terrain, octant by octant, from what it knows of
/// each cube of space.
pub struct WorldGenerator {}

impl WorldGenerator {
    /// A chunk built from the root down by `gen_bounds`.
    pub fn gen(&self) -> (r: Chunk)
        ensures
            r.wf(),
            forall|p: Seq<Direction>| p.len() > 0 ==> #[trigger] r.value(p) == Voxel::empty(),
            forall|p: Seq<Direction>| #[trigger] r.has_node(p) == (p.len() == 0),
            r.capacity(1) == 65535,
            forall|k: int| 2 <= k <= 8 ==> #[trigger] r.capacity(k) == 65536,
            r.blocks_in_use() == 1,
            r.no_leak(),
    {
        let mut chunk = Chunk::new();
        let root = chunk.root();
        self.gen_bounds(root, &mut chunk);
        chunk
    }

    /// Visits the eight children of `node` and asks for each whether its
    /// cube is of one voxel; a cube that is not would need to be split.
    pub fn gen_bounds(&self, node: Node, chunk: &mut Chunk)
        requires
            old(chunk).wf(),
            node.in_chunk(old(chunk)),
        ensures
            *final(chunk) == *old(chunk),
    {
        let dirs = Direction::all();
        let mut i: usize = 0;
        while i < 8
            invariant
                chunk.wf(),
                node.in_chunk(chunk),
                *chunk == *old(chunk),
                forall|j: int| 0 <= j < 8 ==> #[trigger] dirs.data@[j] == Direction::of_index(j),
            decreases 8 - i,
        {
            // Iterate over all 8 children
            let child = node.child(dirs.data[i], chunk);
            if let Some(voxel) = self.get(child.bounds) {
                // The whole cube holds this voxel.
            } else {
                // Needs to split
            }
            i = i + 1;
        }
    }

    /// The voxel that fills all of `bounds`, if one does; this generator
    /// knows of none.
    pub fn get(&self, bounds: Bounds) -> (r: Option<Voxel>)
        ensures
            r is None,
    {
        None
    }
}

} // verus!
