use vstd::prelude::*;
use super::arena::ArenaNodeIndice;
use super::bounds::Bounds;
use super::chunk::{Chunk, mask_without, block_of};
use super::direction::Direction;
use super::index_path::IndexPath;
use super::voxel::Voxel;
use super::walk::strictly_below;
use crate::util::bits::{bit8, lemma_mask_bit, lemma_zero_iff_no_bits};

verus! {

/// A cube of the octree as seen from outside: its path, its bounds, the
/// voxel its parent holds for it, and where its parent and itself lie in
/// the arena (itself only when it is split into children).
#[derive(Copy, Clone)]
pub struct Node {
    pub index_path: IndexPath,
    pub bounds: Bounds,
    pub voxel: Voxel,
    pub parent_node: Option<ArenaNodeIndice>,
    /// `None` when it is a leaf node.
    pub arena_node: Option<ArenaNodeIndice>,
}

impl Node {
    /// The node stands where its path leads in `chunk`: its own node is
    /// the one the path leads to, if any, and its parent is the node the
    /// path without its last step leads to (none for the root).
    pub open spec fn in_chunk(&self, chunk: &Chunk) -> bool {
        &&& self.arena_node == chunk.node_at(self.index_path@)
        &&& self.index_path@.len() == 0 ==> self.parent_node is None
        &&& self.index_path@.len() > 0 ==> self.parent_node is Some
            && self.parent_node == chunk.node_at(self.index_path@.drop_last())
    }

    #[inline]
    pub fn is_leaf(&self) -> (r: bool)
        ensures
            r == (self.arena_node is None),
    {
        self.arena_node.is_none()
    }

    #[inline]
    pub fn is_subdivided(&self) -> (r: bool)
        ensures
            r == (self.arena_node is Some),
    {
        self.arena_node.is_some()
    }

    /// The child of a subdivided node on octant `dir`: its path one step
    /// longer, its bounds the octant's half, and the voxel its parent holds
    /// for it. A leaf node has no children and gives itself back.
    pub fn child(&self, dir: Direction, chunk: &Chunk) -> (r: Node)
        requires
            chunk.wf(),
            self.in_chunk(chunk),
        ensures
            self.arena_node is None ==> r == *self,
            self.arena_node is Some ==> {
                &&& r.index_path@ == self.index_path@.push(dir)
                &&& r.voxel == chunk.value(r.index_path@)
                &&& r.parent_node == self.arena_node
                &&& r.bounds == self.bounds.half_spec(dir)
                &&& r.in_chunk(chunk)
            },
    {
        if let Some(arena_node) = self.arena_node {
            proof {
                chunk.lemma_node_at(self.index_path@, dir);
                assert(self.index_path@.push(dir).drop_last() =~= self.index_path@);
            }
            let node = chunk.arena_node(arena_node);
            let d = dir.to_u8();
            let mut result = Node {
                index_path: self.index_path.put(dir),
                voxel: node.data[d as usize],
                parent_node: Some(arena_node),
                arena_node: None,
                bounds: self.bounds.half(dir),
            };
            if let Some(child_node) = node.child_on_dir(d) {
                // The node is an actual node
                result.arena_node = Some(child_node);
                result
            } else {
                // The node is an leaf node
                result
            }
        } else {
            self.clone()
        }
    }

    /// Gives the node voxel `voxel`, and writes it into its parent's
    /// octant; the root has no parent to write into.
    pub fn set(&mut self, voxel: Voxel, chunk: &mut Chunk)
        requires
            old(chunk).wf(),
            old(self).in_chunk(old(chunk)),
        ensures
            *final(self) == (Node { voxel, ..*old(self) }),
            final(chunk).wf(),
            final(self).in_chunk(final(chunk)),
            forall|t: Seq<Direction>| #[trigger] final(chunk).node_at(t) == old(chunk).node_at(t),
            forall|k: int| 1 <= k <= 8 ==> #[trigger] final(chunk).capacity(k) == old(chunk).capacity(k),
            old(self).parent_node is None ==> *final(chunk) == *old(chunk),
            old(self).parent_node is Some ==> forall|q: Seq<Direction>| #[trigger] final(chunk).value(q)
                == old(chunk).written(old(self).index_path@, voxel, q),
            final(chunk).blocks_in_use() == old(chunk).blocks_in_use(),
            final(chunk).split_paths() == old(chunk).split_paths(),
    {
        self.voxel = voxel;
        if let Some(parent_node) = self.parent_node {
            let dir = self.index_path.get();
            proof {
                let p = self.index_path@;
                assert(p.len() > 0);
                chunk.lemma_node_at(p.drop_last(), dir);
            }
            chunk.set_leaf(parent_node, dir, voxel, Ghost(self.index_path@));
        } else {
            // The root node has no parent to hold its voxel.
        }
    }

    /// Deleting a node keeps the tree as it is: its parent's octant still
    /// holds the node's voxel.
    pub fn del(&mut self, chunk: &mut Chunk)
        ensures
            *final(self) == *old(self),
            *final(chunk) == *old(chunk),
    {
    }

    /// Deletes the child on octant `octant`, with everything below it:
    /// the octant then reads, at every depth below it, the voxel that this
    /// node holds for it. A leaf node has no children and nothing happens.
    pub fn del_child(&mut self, octant: Direction, chunk: &mut Chunk)
        requires
            old(chunk).wf(),
            old(self).in_chunk(old(chunk)),
            forall|k: int| 1 <= k <= 8 ==> #[trigger] old(chunk).capacity(k) >= 22 - old(self).index_path@.len(),
        ensures
            *final(self) == *old(self),
            final(chunk).wf(),
            final(self).in_chunk(final(chunk)),
            old(self).arena_node is None ==> *final(chunk) == *old(chunk),
            old(self).arena_node is Some ==> final(chunk).node_at(old(self).index_path@.push(octant)) is None,
            old(self).arena_node is Some ==> final(chunk).arena_view().node(old(self).arena_node.unwrap()).leaf_mask
                == mask_without(old(chunk).arena_view().node(old(self).arena_node.unwrap()).leaf_mask, octant),
            forall|t: Seq<Direction>| !strictly_below(old(self).index_path@, t) ==> #[trigger] final(chunk).node_at(t) == old(chunk).node_at(t),
            final(chunk).keeps_nodes_outside(&*old(chunk), old(self).index_path@),
            forall|q: Seq<Direction>| #[trigger] final(chunk).value(q) == (
                if old(self).arena_node is Some && strictly_below(old(self).index_path@.push(octant), q) {
                    old(chunk).value(old(self).index_path@.push(octant))
                } else {
                    old(chunk).value(q)
                }),
            old(self).arena_node is Some ==> forall|k: int| 1 <= k <= 8 ==> #[trigger] final(chunk).capacity(k) >= old(chunk).capacity(k)
                - block_of(mask_without(old(chunk).arena_view().node(old(self).arena_node.unwrap()).leaf_mask, octant), k)
                + block_of(old(chunk).arena_view().node(old(self).arena_node.unwrap()).leaf_mask, k),
        decreases 21 - old(self).index_path@.len(),
    {
        if let Some(arena_node) = self.arena_node {
            // Only do the deletion when we're not a leaf node
            let ghost p = self.index_path@;
            let ghost c0 = *chunk;
            proof {
                chunk.lemma_node_at(p, octant);
            }
            let mut child = self.child(octant, chunk);
            let ghost child0 = child;
            let ghost cp = p.push(octant);
            let ghost m0 = c0.arena_view().node(c0.node_at(cp).unwrap()).leaf_mask;
            proof {
                assert(cp.drop_last() =~= p);
                if c0.node_at(cp) is Some {
                    chunk.lemma_node_at(cp, octant);
                }
            }
            let dirs = Direction::all();
            let mut i: usize = 0;
            while i < 8
                invariant
                    chunk.wf(),
                    0 <= i <= 8,
                    child == child0,
                    child.in_chunk(chunk),
                    child.index_path@ == cp,
                    cp == p.push(octant),
                    p == old(self).index_path@,
                    p.len() < 21,
                    cp.len() < 21 || child.arena_node is None,
                    child.arena_node == c0.node_at(cp),
                    c0.node_at(p) == Some(arena_node),
                    m0 == c0.arena_view().node(c0.node_at(cp).unwrap()).leaf_mask,
                    forall|j: int| 0 <= j < 8 ==> #[trigger] dirs.data@[j] == Direction::of_index(j),
                    forall|k: int| 1 <= k <= 8 ==> #[trigger] c0.capacity(k) >= 22 - p.len(),
                    forall|t: Seq<Direction>| !strictly_below(cp, t) ==> #[trigger] chunk.node_at(t) == c0.node_at(t),
                    chunk.keeps_nodes_outside(&c0, cp),
                    child.arena_node is None ==> *chunk == c0,
                    child.arena_node is Some ==> forall|e: int| 0 <= e < 8 ==>
                        #[trigger] bit8(chunk.arena_view().node(child.arena_node.unwrap()).leaf_mask, e) == (e >= i && bit8(m0, e)),
                    child.arena_node is Some ==> forall|k: int| 1 <= k <= 8 ==> #[trigger] chunk.capacity(k) >= c0.capacity(k)
                        - block_of(chunk.arena_view().node(child.arena_node.unwrap()).leaf_mask, k) + block_of(m0, k),
                    child.arena_node is Some ==> forall|q: Seq<Direction>| #[trigger] chunk.value(q) == (
                        if strictly_below(cp, q) && q.len() > cp.len() + 1 && q[cp.len() as int].bits() < i {
                            c0.value(cp.push(q[cp.len() as int]))
                        } else {
                            c0.value(q)
                        }),
                decreases 8 - i,
            {
                let ghost ci = *chunk;
                let dir = dirs.data[i];
                proof {
                    Direction::lemma_bits_of_index(i as int);
                    if child.arena_node is Some {
                        assert forall|k: int| 1 <= k <= 8 implies #[trigger] chunk.capacity(k) >= 22 - child.index_path@.len() by {
                            assert(c0.capacity(k) >= 22 - p.len());
                        }
                    }
                }
                child.del_child(dir, chunk);
                proof {
                    if child.arena_node is Some {
                        let c = child.arena_node.unwrap();
                        let mi = ci.arena_view().node(c).leaf_mask;
                        lemma_mask_bit(mi, dir.bits());
                        assert forall|t: Seq<Direction>| !strictly_below(cp, t) implies #[trigger] chunk.node_at(t) == c0.node_at(t) by {
                            assert(chunk.node_at(t) == ci.node_at(t));
                        }
                        assert forall|t: Seq<Direction>| !strictly_below(cp, t) && t != cp && #[trigger] c0.node_at(t) is Some
                            implies chunk.node_at(t) == c0.node_at(t)
                                && chunk.arena_view().node(c0.node_at(t).unwrap()) == c0.arena_view().node(c0.node_at(t).unwrap()) by {
                            assert(ci.node_at(t) is Some);
                        }
                        assert forall|q: Seq<Direction>| #[trigger] chunk.value(q) == (
                            if strictly_below(cp, q) && q.len() > cp.len() + 1 && q[cp.len() as int].bits() < i + 1 {
                                c0.value(cp.push(q[cp.len() as int]))
                            } else {
                                c0.value(q)
                            }) by {
                            let cd = cp.push(dir);
                            assert(!(strictly_below(cp, cd) && cd.len() > cp.len() + 1));
                            assert(ci.value(cd) == c0.value(cd));
                            if strictly_below(cd, q) {
                                assert(q.subrange(0, cp.len() as int) =~= cd.subrange(0, cp.len() as int));
                                assert(cd.subrange(0, cp.len() as int) =~= cp);
                                assert(q[cp.len() as int] == q.subrange(0, cd.len() as int)[cp.len() as int]);
                                assert(q[cp.len() as int] == dir);
                            } else if strictly_below(cp, q) && q.len() > cp.len() + 1 && q[cp.len() as int].bits() == i {
                                let e = q[cp.len() as int];
                                Direction::lemma_of_index_bits(e);
                                assert(e == dir);
                                assert(q.subrange(0, cd.len() as int) =~= cd);
                            }
                        }
                        assert forall|k: int| 1 <= k <= 8 implies #[trigger] chunk.capacity(k) >= c0.capacity(k)
                            - block_of(chunk.arena_view().node(c).leaf_mask, k) + block_of(m0, k) by {
                            assert(ci.capacity(k) >= c0.capacity(k) - block_of(mi, k) + block_of(m0, k));
                        }
                    }
                }
                i = i + 1;
            }
            proof {
                if child.arena_node is Some {
                    let c = child.arena_node.unwrap();
                    lemma_zero_iff_no_bits(chunk.arena_view().node(c).leaf_mask);
                }
                assert(chunk.node_at(p) == c0.node_at(p));
                assert(!strictly_below(cp, p) && p != cp);
                assert(chunk.arena_view().node(arena_node) == c0.arena_view().node(arena_node));
                assert forall|k: int| 1 <= k <= 8 implies #[trigger] chunk.capacity(k) >= 1 by {
                    assert(c0.capacity(k) >= 22 - p.len());
                }
            }
            let ghost c8 = *chunk;
            chunk.drop_child(arena_node, octant, Ghost(p));
            proof {
                assert forall|t: Seq<Direction>| !strictly_below(p, t) implies #[trigger] chunk.node_at(t) == c0.node_at(t) by {
                    if strictly_below(cp, t) {
                        assert(t.subrange(0, p.len() as int) =~= cp.subrange(0, p.len() as int));
                        assert(cp.subrange(0, p.len() as int) =~= p);
                    }
                    assert(c8.node_at(t) == c0.node_at(t));
                }
                assert forall|t: Seq<Direction>| !strictly_below(p, t) && t != p && #[trigger] c0.node_at(t) is Some
                    implies chunk.node_at(t) == c0.node_at(t)
                        && chunk.arena_view().node(c0.node_at(t).unwrap()) == c0.arena_view().node(c0.node_at(t).unwrap()) by {
                    if strictly_below(cp, t) {
                        assert(t.subrange(0, p.len() as int) =~= cp.subrange(0, p.len() as int));
                        assert(cp.subrange(0, p.len() as int) =~= p);
                    }
                    assert(t != cp);
                    assert(c8.node_at(t) is Some);
                }
                assert forall|q: Seq<Direction>| #[trigger] chunk.value(q) == (
                    if strictly_below(cp, q) { c0.value(cp) } else { c0.value(q) }) by {
                    if child.arena_node is Some {
                        assert(c8.value(cp) == c0.value(cp));
                    }
                }
                if p.len() > 0 {
                    assert(!strictly_below(p, p.drop_last()));
                }
            }
        }
    }
}

} // verus!
