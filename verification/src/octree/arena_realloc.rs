use vstd::prelude::*;
use super::arena::{Arena, ArenaBlockIndice, ArenaNode, ArenaNodeIndice};
use crate::util::bits::{
    bit8, count8, ones8, count_ones_u8, lemma_count8_bound, lemma_count8_split, lemma_zero_iff_no_bits,
};

verus! {

/// Bit `a` of a byte shifted right by one.
proof fn lemma_shr1_at(x: u8, a: u8)
    by (bit_vector)
    requires
        a < 8,
    ensures
        ((x >> 1u8) >> a) & 1u8 == (if a < 7 { (x >> ((a + 1) as u8)) & 1u8 } else { 0u8 }),
        (x >> 0u8) & 1u8 == x & 1u8,
{
}

/// Shifting a mask right by one moves every bit down one place.
pub proof fn lemma_bit8_shr1(x: u8)
    ensures
        forall|i: int| 0 <= i < 8 ==> #[trigger] bit8(x >> 1u8, i) == (i < 7 && bit8(x, i + 1)),
        bit8(x, 0) == (x & 1u8 == 1u8),
{
    assert forall|i: int| 0 <= i < 8 implies #[trigger] bit8(x >> 1u8, i) == (i < 7 && bit8(x, i + 1)) by {
        lemma_shr1_at(x, i as u8);
    }
    lemma_shr1_at(x, 0);
}

/// The position of a child in its block: children of higher octants come first.
pub open spec fn rank(m: u8, d: int) -> int {
    count8(m, d + 1, 8) as int
}

/// Where the child of octant `d` of a node with mask `m` and children block `b` lies.
pub open spec fn slot(b: ArenaBlockIndice, m: u8, d: int) -> ArenaNodeIndice {
    ArenaNodeIndice { block: b, index: rank(m, d) as u8 }
}

/// Children of different octants sit at different positions of the block,
/// all below the number of children.
pub proof fn lemma_rank(m: u8, d: int, e: int)
    requires
        0 <= d < 8,
        0 <= e < 8,
        bit8(m, d),
        bit8(m, e),
    ensures
        0 <= rank(m, d) < ones8(m),
        d != e ==> rank(m, d) != rank(m, e),
        d < e ==> rank(m, d) > rank(m, e),
{
    lemma_count8_split(m, 0, d, 8);
    lemma_count8_split(m, d, d + 1, 8);
    if d < e {
        lemma_count8_split(m, d + 1, e, 8);
        lemma_count8_split(m, e, e + 1, 8);
    } else if e < d {
        lemma_count8_split(m, e + 1, d, 8);
        lemma_count8_split(m, d, d + 1, 8);
    }
}

/// The number of set bits below `j`, added to one more, stands the child of
/// octant `j` at `ones - 1 - below` in its block: its rank.
pub proof fn lemma_rank_from_below(m: u8, j: int)
    requires
        0 <= j < 8,
        bit8(m, j),
    ensures
        ones8(m) - 1 - count8(m, 0, j) == rank(m, j),
        count8(m, 0, j + 1) == count8(m, 0, j) + 1,
        count8(m, 0, j) < ones8(m),
{
    lemma_count8_split(m, 0, j, 8);
    lemma_count8_split(m, j, j + 1, 8);
    lemma_count8_split(m, 0, j, j + 1);
}

pub proof fn lemma_count8_step(m: u8, j: int)
    requires
        0 <= j < 8,
    ensures
        count8(m, 0, j + 1) == count8(m, 0, j) + (if bit8(m, j) { 1nat } else { 0nat }),
        count8(m, 0, j) <= ones8(m),
        count8(m, 0, j + 1) <= ones8(m),
        ones8(m) <= 8,
{
    lemma_count8_split(m, 0, j, j + 1);
    lemma_count8_split(m, 0, j, 8);
    lemma_count8_split(m, 0, j + 1, 8);
    lemma_count8_bound(m, 0, 8);
    assert(count8(m, j + 1, j + 1) == 0);
    assert(count8(m, j, j + 1) == (if bit8(m, j) { 1nat } else { 0nat }) + count8(m, j + 1, j + 1));
}

impl Arena {
    /// The node `on` after its children moved to block `nb` for the octants
    /// of `freemask` (no block when `freemask` is 0).
    pub open spec fn moved_node(on: ArenaNode, freemask: u8, nb: ArenaBlockIndice) -> ArenaNode {
        ArenaNode {
            leaf_mask: freemask,
            children_index_segment: if freemask != 0 { nb.segment } else { 0 },
            children_index_indice: if freemask != 0 { nb.indice } else { 0 },
            ..on
        }
    }

    /// What `realloc` of node `ls` to the octants of `fm` does, from arena
    /// `a` to arena `a2`: the node gets mask `fm` and, unless `fm` is 0, the
    /// block that the next allocation of that size hands out, which was free;
    /// its old block of children is given back; no other node changes but
    /// those of the new block, which hold the old children of the octants in
    /// both masks and empty nodes for the others.
    pub open spec fn realloc_effect(a: &Arena, a2: &Arena, ls: ArenaNodeIndice, fm: u8) -> bool {
        let on = a.node(ls);
        let om = on.leaf_mask;
        let ob = on.child_block();
        let nb = a.next_alloc(ones8(fm) as int);
        &&& fm != 0 ==> !a.allocated(nb) && nb.block_size == ones8(fm)
        &&& a2.node(ls) == Self::moved_node(on, fm, nb)
        &&& forall|b: ArenaBlockIndice| #[trigger] a2.allocated(b)
            == ((a.allocated(b) && (om == 0 || b != ob)) || (fm != 0 && b == nb))
        &&& forall|l: ArenaNodeIndice| a.placed(l) && l != ls && (fm == 0 || l.block != nb)
            ==> #[trigger] a2.node(l) == a.node(l)
        &&& forall|d: int| 0 <= d < 8 && fm != 0 && #[trigger] bit8(fm, d) ==>
            a2.node(slot(nb, fm, d)) == (if bit8(om, d) { a.node(slot(ob, om, d)) } else { ArenaNode::empty() })
    }

    /// Copies node `src` over node `dst`.
    fn copy_node(&mut self, src: ArenaNodeIndice, dst: ArenaNodeIndice)
        requires
            old(self).wf(),
            old(self).valid(src),
            old(self).valid(dst),
        ensures
            final(self).wf(),
            final(self).same_shape(old(self)),
            final(self).node(dst) == old(self).node(src),
            forall|l: ArenaNodeIndice| old(self).placed(l) && l != dst ==> #[trigger] final(self).node(l) == old(self).node(l),
    {
        let ghost prev = *self;
        let v = *self.get_node(src);
        let r = self.get_node_mut(dst);
        *r = v;
        proof {
            self.lemma_same_shape(&prev);
        }
    }

    /// Every node outside block `nb` holds what it held in `mid`.
    #[verifier::opaque]
    pub open spec fn keeps_outside(&self, mid: &Arena, nb: ArenaBlockIndice) -> bool {
        forall|l: ArenaNodeIndice| mid.placed(l) && l.block != nb ==> #[trigger] self.node(l) == mid.node(l)
    }

    /// The children of block `nb` for octants below `j` hold the copies of
    /// their counterparts in block `ob` of `mid`, or are empty when `om`
    /// has no such octant; those from `j` on are still empty.
    #[verifier::opaque]
    pub open spec fn copied_upto(&self, mid: &Arena, ob: ArenaBlockIndice, om: u8, nb: ArenaBlockIndice, fm: u8, j: int) -> bool {
        forall|d: int| 0 <= d < 8 && #[trigger] bit8(fm, d) ==>
            self.node(slot(nb, fm, d))
            == (if d < j && bit8(om, d) { mid.node(slot(ob, om, d)) } else { ArenaNode::empty() })
    }

    proof fn lemma_copy_step(&self, prev: &Arena, mid: &Arena, ob: ArenaBlockIndice, om: u8, nb: ArenaBlockIndice, fm: u8, j: int)
        requires
            0 <= j < 8,
            ob != nb,
            bit8(om, j),
            bit8(fm, j),
            prev.keeps_outside(mid, nb),
            prev.copied_upto(mid, ob, om, nb, fm, j),
            mid.placed(slot(ob, om, j)),
            self.node(slot(nb, fm, j))
                == prev.node(slot(ob, om, j)),
            forall|l: ArenaNodeIndice| prev.placed(l) && l != slot(nb, fm, j)
                ==> #[trigger] self.node(l) == prev.node(l),
            forall|l: ArenaNodeIndice| #[trigger] mid.placed(l) ==> prev.placed(l),
            forall|d: int| 0 <= d < 8 && #[trigger] bit8(fm, d) ==> prev.placed(slot(nb, fm, d)),
        ensures
            self.keeps_outside(mid, nb),
            self.copied_upto(mid, ob, om, nb, fm, j + 1),
    {
        reveal(Arena::keeps_outside);
        reveal(Arena::copied_upto);
        let dst = slot(nb, fm, j);
        let src = slot(ob, om, j);
        assert(self.node(dst) == mid.node(src)) by {
            assert(prev.node(src) == mid.node(src));
        }
        assert forall|d: int| 0 <= d < 8 && #[trigger] bit8(fm, d) implies
            self.node(slot(nb, fm, d))
            == (if d < j + 1 && bit8(om, d) { mid.node(slot(ob, om, d)) } else { ArenaNode::empty() }) by {
            if d != j {
                lemma_rank(fm, d, j);
                lemma_rank(fm, j, d);
                lemma_count8_bound(fm, 0, 8);
                let l = slot(nb, fm, d);
                assert(0 <= rank(fm, d) < 8 && 0 <= rank(fm, j) < 8);
                assert(l.index as int == rank(fm, d));
                assert(dst.index as int == rank(fm, j));
                assert(l != dst);
                assert(self.node(l) == prev.node(l));
            }
        }
    }

    proof fn lemma_skip_step(&self, mid: &Arena, ob: ArenaBlockIndice, om: u8, nb: ArenaBlockIndice, fm: u8, j: int)
        requires
            0 <= j < 8,
            !(bit8(om, j) && bit8(fm, j)),
            self.copied_upto(mid, ob, om, nb, fm, j),
        ensures
            self.copied_upto(mid, ob, om, nb, fm, j + 1),
    {
        reveal(Arena::copied_upto);
    }

    proof fn lemma_copy_done(&self, mid: &Arena, ob: ArenaBlockIndice, om: u8, nb: ArenaBlockIndice, fm: u8, j: int)
        requires
            0 <= j <= 8,
            forall|d: int| j <= d < 8 ==> !(#[trigger] bit8(om, d) && bit8(fm, d)),
            self.copied_upto(mid, ob, om, nb, fm, j),
        ensures
            forall|d: int| 0 <= d < 8 && #[trigger] bit8(fm, d) ==>
                self.node(slot(nb, fm, d))
                == (if bit8(om, d) { mid.node(slot(ob, om, d)) } else { ArenaNode::empty() }),
    {
        reveal(Arena::copied_upto);
        assert forall|d: int| 0 <= d < 8 && #[trigger] bit8(fm, d) implies
            self.node(slot(nb, fm, d))
            == (if bit8(om, d) { mid.node(slot(ob, om, d)) } else { ArenaNode::empty() }) by {
            if d >= j {
                assert(!bit8(om, d));
            }
        }
    }

    /// Copies the children of block `ob` (octants `om`) to block `nb`
    /// (octants `fm`) for each octant set in both masks.
    #[verifier::spinoff_prover]
    fn copy_children(&mut self, ob: ArenaBlockIndice, om: u8, nb: ArenaBlockIndice, fm: u8)
        requires
            old(self).wf(),
            old(self).allocated(ob),
            old(self).allocated(nb),
            ob != nb,
            om != 0,
            ob.block_size == ones8(om),
            nb.block_size == ones8(fm),
            forall|d: int| 0 <= d < 8 && #[trigger] bit8(fm, d) ==>
                old(self).node(slot(nb, fm, d)) == ArenaNode::empty(),
        ensures
            final(self).wf(),
            final(self).same_shape(old(self)),
            forall|l: ArenaNodeIndice| old(self).placed(l) && l.block != nb ==> #[trigger] final(self).node(l) == old(self).node(l),
            forall|d: int| 0 <= d < 8 && #[trigger] bit8(fm, d) ==>
                final(self).node(slot(nb, fm, d))
                == (if bit8(om, d) { old(self).node(slot(ob, om, d)) } else { ArenaNode::empty() }),
    {
        let ghost mid = *self;
        let old_block_size = count_ones_u8(om);
        let new_block_size = count_ones_u8(fm);
        let mut old_freemask = om;
        let mut new_freemask = fm;
        let mut old_block_index: u8 = 1;
        let mut new_block_index: u8 = 1;
        let mut j: u8 = 0;
        let mut done = false;
        proof {
            Self::lemma_same_shape_refl(self);
            reveal(Arena::keeps_outside);
            reveal(Arena::copied_upto);
            mid.lemma_wf();
            lemma_count8_bound(om, 0, 8);
            lemma_count8_bound(fm, 0, 8);
        }
        while j < 8 && !done
            invariant
                self.wf(),
                self.same_shape(&mid),
                mid.wf(),
                j <= 8,
                old_block_size == ones8(om),
                new_block_size == ones8(fm),
                nb.block_size == new_block_size,
                ob.block_size == old_block_size,
                mid.allocated(nb),
                mid.allocated(ob),
                ob != nb,
                forall|i: int| 0 <= i < 8 ==> #[trigger] bit8(old_freemask, i) == (i + j < 8 && bit8(om, i + j)),
                forall|i: int| 0 <= i < 8 ==> #[trigger] bit8(new_freemask, i) == (i + j < 8 && bit8(fm, i + j)),
                old_block_index == 1 + count8(om, 0, j as int),
                new_block_index == 1 + count8(fm, 0, j as int),
                count8(om, 0, j as int) <= ones8(om),
                count8(fm, 0, j as int) <= ones8(fm),
                ones8(om) <= 8,
                ones8(fm) <= 8,
                done ==> forall|d: int| j <= d < 8 ==> !(#[trigger] bit8(om, d) && bit8(fm, d)),
                self.keeps_outside(&mid, nb),
                self.copied_upto(&mid, ob, om, nb, fm, j as int),
            decreases 8 - j + (if done { 0int } else { 1int }),
        {
            proof {
                lemma_bit8_shr1(old_freemask);
                lemma_bit8_shr1(new_freemask);
                lemma_count8_step(om, j as int);
                lemma_count8_step(fm, j as int);
            }
            let ghost jj = j as int;
            let ghost prev = *self;
            let old_block_has = old_freemask & 0b1 == 1;
            old_freemask = old_freemask >> 1;
            let new_block_has = new_freemask & 0b1 == 1;
            new_freemask = new_freemask >> 1;
            assert(old_block_has == bit8(om, jj));
            assert(new_block_has == bit8(fm, jj));
            if old_block_has && new_block_has {
                proof {
                    lemma_rank_from_below(om, jj);
                    lemma_rank_from_below(fm, jj);
                    lemma_rank(fm, jj, jj);
                    lemma_rank(om, jj, jj);
                    prev.lemma_same_shape(&mid);
                }
                let src = ob.child(old_block_size - old_block_index);
                let dst = nb.child(new_block_size - new_block_index);
                self.copy_node(src, dst);
                proof {
                    Self::lemma_same_shape_trans(self, &prev, &mid);
                    mid.lemma_wf();
                    assert forall|d: int| 0 <= d < 8 && #[trigger] bit8(fm, d) implies prev.placed(slot(nb, fm, d)) by {
                        lemma_rank(fm, d, d);
                        mid.lemma_placed(slot(nb, fm, d));
                    }
                    mid.lemma_placed(slot(ob, om, jj));
                    self.lemma_copy_step(&prev, &mid, ob, om, nb, fm, jj);
                }
                old_block_index = old_block_index + 1;
                new_block_index = new_block_index + 1;
            } else {
                proof {
                    self.lemma_skip_step(&mid, ob, om, nb, fm, jj);
                }
                if old_block_has {
                    old_block_index = old_block_index + 1;
                } else if new_block_has {
                    new_block_index = new_block_index + 1;
                }
            }
            if old_freemask == 0 || new_freemask == 0 {
                // If either is 0, there is no need to proceed.
                proof {
                    lemma_zero_iff_no_bits(old_freemask);
                    lemma_zero_iff_no_bits(new_freemask);
                    assert forall|d: int| jj + 1 <= d < 8 implies !(#[trigger] bit8(om, d) && bit8(fm, d)) by {
                        if old_freemask == 0 {
                            assert(!bit8(old_freemask, d - jj - 1));
                        } else {
                            assert(!bit8(new_freemask, d - jj - 1));
                        }
                    }
                }
                done = true;
            }
            j = j + 1;
        }
        proof {
            self.lemma_copy_done(&mid, ob, om, nb, fm, j as int);
            reveal(Arena::keeps_outside);
        }
    }

    /// Moves the children of node `indice` to a new block that has a child
    /// for each octant set in `freemask`: the children of octants set in
    /// both masks are copied over, the new ones are empty, and the old block
    /// is given back. With `freemask` 0 the node is left with no children.
    #[verifier::spinoff_prover]
    #[verifier::rlimit(100)]
    pub fn realloc(&mut self, indice: ArenaNodeIndice, freemask: u8)
        requires
            old(self).wf(),
            old(self).valid(indice),
            old(self).node(indice).leaf_mask != 0 ==> old(self).allocated(old(self).node(indice).child_block())
                && indice.block != old(self).node(indice).child_block(),
            freemask != 0 ==> old(self).capacity(ones8(freemask) as int) >= 1,
        ensures
            final(self).wf(),
            forall|l: ArenaNodeIndice| #[trigger] old(self).placed(l) ==> final(self).placed(l),
            Self::realloc_effect(&*old(self), &*final(self), indice, freemask),
            forall|k: int| 1 <= k <= 8 ==> #[trigger] final(self).capacity(k) == old(self).capacity(k)
                - (if freemask != 0 && k == ones8(freemask) { 1int } else { 0int })
                + (if old(self).node(indice).leaf_mask != 0 && k == ones8(old(self).node(indice).leaf_mask) { 1int } else { 0int }),
            final(self).used_blocks() == old(self).used_blocks()
                + (if freemask != 0 { 1int } else { 0int }) - (if old(self).node(indice).leaf_mask != 0 { 1int } else { 0int }),
    {
        let ghost old_self = *self;
        let ghost on = self.node(indice);
        let ghost om = on.leaf_mask;
        let ghost ob = on.child_block();
        proof {
            lemma_zero_iff_no_bits(om);
            self.lemma_wf();
            lemma_count8_bound(om, 0, 8);
            lemma_count8_bound(freemask, 0, 8);
        }
        if freemask == 0 {
            // Free everything. And skip the trouble of copying, etc.
            let old_block_indice = self.get_node(indice).children_block();
            self.free(old_block_indice);
            let ghost after_free = *self;
            let node = self.get_node_mut(indice);
            node.leaf_mask = 0;
            node.children_index_indice = 0;
            node.children_index_segment = 0;
            proof {
                self.lemma_same_shape(&after_free);
            }
            return;
        }
        let new_block_size = count_ones_u8(freemask);
        proof {
            lemma_zero_iff_no_bits(freemask);
        }
        let new_block_indice = self.allocate(new_block_size);
        let ghost mid = *self;
        let node = *self.get_node(indice);
        let old_block_indice = node.children_block();
        if node.leaf_mask != 0 {
            proof {
                assert forall|d: int| 0 <= d < 8 && #[trigger] bit8(freemask, d) implies
                    self.node(slot(new_block_indice, freemask, d)) == ArenaNode::empty() by {
                    lemma_rank(freemask, d, d);
                }
            }
            self.copy_children(old_block_indice, node.leaf_mask, new_block_indice, freemask);
            proof {
                self.lemma_same_shape(&mid);
            }
        }
        let ghost before_set = *self;
        let node = self.get_node_mut(indice);
        node.leaf_mask = freemask;
        node.children_index_indice = new_block_indice.indice;
        node.children_index_segment = new_block_indice.segment;
        proof {
            self.lemma_same_shape(&before_set);
        }
        self.free(old_block_indice);
        proof {
            assert forall|d: int| 0 <= d < 8 && #[trigger] bit8(freemask, d) implies
                self.node(slot(new_block_indice, freemask, d))
                == (if bit8(om, d) { old_self.node(slot(ob, om, d)) } else { ArenaNode::empty() }) by {
                lemma_rank(freemask, d, d);
                let dst = slot(new_block_indice, freemask, d);
                assert(mid.allocated(new_block_indice));
                mid.lemma_placed(dst);
                assert(self.node(dst) == before_set.node(dst));
                if bit8(om, d) {
                    lemma_rank(om, d, d);
                    let src = slot(ob, om, d);
                    old_self.lemma_placed(src);
                    assert(mid.node(src) == old_self.node(src));
                }
            }
        }
    }
}


} // verus!
