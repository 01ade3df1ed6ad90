use vstd::prelude::*;
use super::voxel::{Voxel, voxel_text};
use vstd::string::StringExecFns;
use crate::util::text::{decimal, append_decimal};
use crate::util::bits::{
    bit8, count8, ones8, bit64, count64, ones64, count_ones_u8, count_zeros_u64,
    lemma_count8_bound, lemma_count8_split, lemma_count8_shr, lemma_count8_none_above,
    lemma_zero_iff_no_bits, lemma_count64_bound, lemma_count64_clear, lemma_count64_set,
    lemma_count64_full, lemma_count64_none, lemma_zero64,
};

verus! {

/// Number of node groups in one segment of the arena.
pub const ARENA_BLOCK_SIZE: usize = 256;

/// Where a group of sibling nodes (a block) lies in the arena: the block's
/// size, the segment among those of that size, and the slot in the segment.
#[derive(Copy, Clone, Debug, Default, PartialEq, Eq, Structural)]
pub struct ArenaBlockIndice {
    pub segment: u8,
    pub indice: u8,
    pub block_size: u8,
}

impl ArenaBlockIndice {
    /// The node at position `index` of this block.
    pub fn child(&self, index: u8) -> (r: ArenaNodeIndice)
        ensures
            r.block == *self,
            r.index == index,
    {
        ArenaNodeIndice { block: *self, index }
    }
}

/// Where a single node lies in the arena.
#[derive(Copy, Clone, Debug, PartialEq, Eq, Structural)]
pub struct ArenaNodeIndice {
    pub block: ArenaBlockIndice,
    /// The position in the block.
    pub index: u8,
}

/// A node of the octree: a voxel for each of its eight octants, and a child
/// node for each octant whose bit is set in `leaf_mask`. The children form
/// one block, ordered from the highest octant to the lowest.
#[derive(Copy, Clone, Debug)]
pub struct ArenaNode {
    pub children_index_segment: u8,
    pub children_index_indice: u8,
    /// 1 for child, 0 for leaf.
    pub leaf_mask: u8,
    pub load_mask: u8,
    pub data: [Voxel; 8],
}

impl ArenaNode {
    /// A node with no children whose octants are all empty.
    pub open spec fn empty() -> ArenaNode {
        ArenaNode {
            children_index_segment: 0,
            children_index_indice: 0,
            leaf_mask: 0,
            load_mask: 0,
            data: [
                Voxel { data: 0 }, Voxel { data: 0 }, Voxel { data: 0 }, Voxel { data: 0 },
                Voxel { data: 0 }, Voxel { data: 0 }, Voxel { data: 0 }, Voxel { data: 0 },
            ],
        }
    }

    /// The block that holds this node's children.
    pub open spec fn child_block(self) -> ArenaBlockIndice {
        ArenaBlockIndice {
            segment: self.children_index_segment,
            indice: self.children_index_indice,
            block_size: ones8(self.leaf_mask) as u8,
        }
    }

    /// Where the child on octant `dir` lies, if there is one: in the
    /// children's block, after the children of all higher octants.
    pub open spec fn child_spec(self, dir: int) -> Option<ArenaNodeIndice> {
        if bit8(self.leaf_mask, dir) {
            Some(ArenaNodeIndice { block: self.child_block(), index: count8(self.leaf_mask, dir + 1, 8) as u8 })
        } else {
            None
        }
    }

    pub fn new_empty() -> (r: ArenaNode)
        ensures
            r == ArenaNode::empty(),
    {
        let v = Voxel::new(0);
        let r = ArenaNode {
            children_index_segment: 0,
            children_index_indice: 0,
            leaf_mask: 0,
            load_mask: 0,
            data: [v, v, v, v, v, v, v, v],
        };
        assert(r.data@ =~= ArenaNode::empty().data@);
        r
    }

    #[inline]
    pub fn has_child_on_dir(&self, dir: u8) -> (r: bool)
        requires
            dir < 8,
        ensures
            r == bit8(self.leaf_mask, dir as int),
    {
        let m = self.leaf_mask;
        assert(((1u8 << dir) & m != 0u8) == ((m >> dir) & 1u8 == 1u8)) by (bit_vector)
            requires dir < 8;
        (1 << dir) & self.leaf_mask != 0
    }

    pub fn child_on_dir(&self, dir: u8) -> (r: Option<ArenaNodeIndice>)
        requires
            dir < 8,
        ensures
            r == self.child_spec(dir as int),
    {
        if self.has_child_on_dir(dir) {
            let index = if dir == 7 {
                proof {
                    assert(count8(self.leaf_mask, 8, 8) == 0);
                }
                0
            } else {
                proof {
                    lemma_count8_shr(self.leaf_mask, (dir + 1) as u8, 0);
                }
                count_ones_u8(self.leaf_mask >> (dir + 1))
            };
            Some(ArenaNodeIndice { block: self.children_block(), index })
        } else {
            None
        }
    }

    #[inline]
    pub fn num_children(&self) -> (r: u8)
        ensures
            r == ones8(self.leaf_mask),
            r <= 8,
    {
        count_ones_u8(self.leaf_mask)
    }

    #[inline]
    pub fn children_block(&self) -> (r: ArenaBlockIndice)
        ensures
            r == self.child_block(),
    {
        ArenaBlockIndice {
            segment: self.children_index_segment,
            indice: self.children_index_indice,
            block_size: self.num_children(),
        }
    }

    #[inline]
    pub fn set_on_dir(&mut self, dir: u8, voxel: Voxel)
        requires
            dir < 8,
        ensures
            final(self).data@ == old(self).data@.update(dir as int, voxel),
            final(self).leaf_mask == old(self).leaf_mask,
            final(self).load_mask == old(self).load_mask,
            final(self).children_index_segment == old(self).children_index_segment,
            final(self).children_index_indice == old(self).children_index_indice,
    {
        self.data[dir as usize] = voxel;
    }

    #[inline]
    pub fn is_leaf_node(&self) -> (r: bool)
        ensures
            r == (self.leaf_mask == 0),
    {
        self.leaf_mask == 0
    }

    /// A node is condensable when it has no children and all its octants
    /// hold the same voxel: it can be replaced by that one voxel.
    pub fn is_condensable(&self) -> (r: bool)
        ensures
            r == (self.leaf_mask == 0 && forall|i: int| 0 <= i < 8 ==> #[trigger] self.data@[i] == self.data@[0]),
    {
        if !self.is_leaf_node() {
            return false;
        }
        let com = self.data[0];
        let mut i: usize = 0;
        while i < 8
            invariant
                i <= 8,
                com == self.data@[0],
                forall|j: int| 0 <= j < i ==> #[trigger] self.data@[j] == com,
            decreases 8 - i,
        {
            if self.data[i] != com {
                return false;
            }
            i = i + 1;
        }
        true
    }
}


/// A node index inside a block lies inside the block's slots.
pub proof fn lemma_slot_bounds(i: int, k: int, c: int)
    requires
        0 <= i < 256,
        1 <= k <= 8,
        0 <= c < k,
    ensures
        0 <= i * k + c < 256 * k,
        0 <= i * k,
{
    assert(0 <= i * k + c < 256 * k) by (nonlinear_arith)
        requires 0 <= i < 256, 1 <= k <= 8, 0 <= c < k;
    assert(0 <= i * k) by (nonlinear_arith)
        requires 0 <= i, 1 <= k;
}

/// Distinct (slot, position) pairs are distinct nodes.
pub proof fn lemma_slot_distinct(i1: int, c1: int, i2: int, c2: int, k: int)
    requires
        1 <= k,
        0 <= c1 < k,
        0 <= c2 < k,
        i1 != i2 || c1 != c2,
    ensures
        i1 * k + c1 != i2 * k + c2,
{
    if i1 == i2 {
    } else if i1 < i2 {
        assert(i1 * k + c1 < i2 * k + c2) by (nonlinear_arith)
            requires i1 < i2, 0 <= c1 < k, 0 <= c2, 1 <= k;
    } else {
        assert(i2 * k + c2 < i1 * k + c1) by (nonlinear_arith)
            requires i2 < i1, 0 <= c2 < k, 0 <= c1, 1 <= k;
    }
}

/// The debug text of octant `dir` of a node: its voxel, in red when the
/// octant has a child.
pub open spec fn octant_text(n: ArenaNode, dir: int) -> Seq<char> {
    if bit8(n.leaf_mask, dir) {
        "\x1b[0;31m"@ + voxel_text(n.data@[dir]) + "\x1b[0m"@
    } else {
        voxel_text(n.data@[dir])
    }
}

/// The debug text of a node: its octants as two layers, bottom then top,
/// rear row above front row.
pub open spec fn node_text(n: ArenaNode) -> Seq<char> {
    "|---DN---|---UP---|\n"@
        + "| "@ + octant_text(n, 2) + "  "@ + octant_text(n, 3) + " | "@ + octant_text(n, 6) + "  "@ + octant_text(n, 7) + " |\n"@
        + "| "@ + octant_text(n, 0) + "  "@ + octant_text(n, 1) + " | "@ + octant_text(n, 4) + "  "@ + octant_text(n, 5)
        + " |\n-------------------\n"@
}

impl ArenaNode {
    /// Writes the debug text of octant `dir` at the end of `text`.
    fn print_node(&self, text: &mut String, dir: u8)
        requires
            dir < 8,
        ensures
            final(text)@ == old(text)@ + octant_text(*self, dir as int),
    {
        if self.has_child_on_dir(dir) {
            text.append("\x1b[0;31m");
            self.data[dir as usize].append_debug(text);
            text.append("\x1b[0m");
            proof {
                assert(text@ =~= old(text)@ + octant_text(*self, dir as int));
            }
        } else {
            self.data[dir as usize].append_debug(text);
        }
    }

    /// The node as text, for debugging: its eight octants in two layers.
    pub fn to_debug_string(&self) -> (r: String)
        ensures
            r@ == node_text(*self),
    {
        let mut f = String::new();
        f.append("|---DN---|---UP---|\n");

        f.append("| ");
        self.print_node(&mut f, 2);
        f.append("  ");
        self.print_node(&mut f, 3);
        f.append(" | ");
        self.print_node(&mut f, 6);
        f.append("  ");
        self.print_node(&mut f, 7);
        f.append(" |\n");

        f.append("| ");
        self.print_node(&mut f, 0);
        f.append("  ");
        self.print_node(&mut f, 1);
        f.append(" | ");
        self.print_node(&mut f, 4);
        f.append("  ");
        self.print_node(&mut f, 5);
        f.append(" |\n-------------------\n");
        proof {
            assert(f@ =~= node_text(*self));
        }
        f
    }
}

/// A fixed-size pool of node groups of one size, with a bitmask of the free slots.
pub struct ArenaSegment {
    nodes: Vec<ArenaNode>,
    /// 1 when free, 0 when used.
    freemask: [u64; 4],
    /// Always a free slot, when there is one.
    next_available: Option<u8>,
    group_size: u8,
}

impl ArenaSegment {
    /// Slot `i` is free.
    pub closed spec fn avail(&self, i: int) -> bool {
        bit64(self.freemask@[i / 64], i % 64)
    }

    /// The number of nodes in each group.
    pub closed spec fn group(&self) -> int {
        self.group_size as int
    }

    /// The slot that the segment hands out next.
    pub closed spec fn next_free(&self) -> Option<u8> {
        self.next_available
    }

    /// All nodes of the segment, slot after slot.
    pub closed spec fn slots(&self) -> Seq<ArenaNode> {
        self.nodes@
    }

    /// The number of free slots.
    pub closed spec fn free_count(&self) -> nat {
        ones64(self.freemask@[0]) + ones64(self.freemask@[1]) + ones64(self.freemask@[2]) + ones64(self.freemask@[3])
    }

    /// The lowest free slot from `i` on.
    pub open spec fn first_avail_from(&self, i: int) -> Option<u8>
        decreases 256 - i,
    {
        if i >= 256 || i < 0 {
            None
        } else if self.avail(i) {
            Some(i as u8)
        } else {
            self.first_avail_from(i + 1)
        }
    }

    /// No slot is free from `i` on: there is no lowest free one.
    pub proof fn lemma_first_avail_none(&self, i: int)
        requires
            0 <= i,
            forall|j: int| i <= j < 256 ==> !#[trigger] self.avail(j),
        ensures
            self.first_avail_from(i) is None,
        decreases 256 - i,
    {
        if i < 256 {
            self.lemma_first_avail_none(i + 1);
        }
    }

    pub closed spec fn wf(&self) -> bool {
        &&& 1 <= self.group_size <= 8
        &&& self.nodes@.len() == 256 * self.group_size
        &&& (self.next_available matches Some(j) ==> self.avail(j as int))
        &&& (self.next_available is None ==> forall|i: int| 0 <= i < 256 ==> !#[trigger] self.avail(i))
    }

    pub proof fn lemma_wf(&self)
        requires
            self.wf(),
        ensures
            1 <= self.group() <= 8,
            self.slots().len() == 256 * self.group(),
            self.next_free() matches Some(j) ==> self.avail(j as int),
            self.next_free() is None ==> forall|i: int| 0 <= i < 256 ==> !#[trigger] self.avail(i),
            self.free_count() <= 256,
            self.next_free() is None ==> self.free_count() == 0,
    {
        lemma_count64_bound(self.freemask@[0], 0);
        lemma_count64_bound(self.freemask@[1], 0);
        lemma_count64_bound(self.freemask@[2], 0);
        lemma_count64_bound(self.freemask@[3], 0);
        if self.next_available is None {
            assert forall|w: int| 0 <= w < 4 implies ones64(#[trigger] self.freemask@[w]) == 0 by {
                assert forall|b: int| 0 <= b < 64 implies !#[trigger] bit64(self.freemask@[w], b) by {
                    let i = w * 64 + b;
                    assert(i / 64 == w && i % 64 == b);
                    assert(!self.avail(i));
                }
                lemma_count64_none(self.freemask@[w], 0);
            }
        }
    }

    /// The first free slot from `a` on is `j` when every slot from `a` up to `j` is taken.
    pub proof fn lemma_first_avail(&self, a: int, j: int)
        requires
            0 <= a <= j < 256,
            self.avail(j),
            forall|i: int| a <= i < j ==> !#[trigger] self.avail(i),
        ensures
            self.first_avail_from(a) == Some(j as u8),
        decreases j - a,
    {
        if a < j {
            self.lemma_first_avail(a + 1, j);
        }
    }

    pub proof fn lemma_no_avail(&self, a: int)
        requires
            0 <= a,
            forall|i: int| a <= i < 256 ==> !#[trigger] self.avail(i),
        ensures
            self.first_avail_from(a) is None,
        decreases 256 - a,
    {
        if a < 256 {
            self.lemma_no_avail(a + 1);
        }
    }

    pub fn new(group_size: u8) -> (r: ArenaSegment)
        requires
            1 <= group_size <= 8,
        ensures
            r.wf(),
            r.group() == group_size,
            forall|i: int| 0 <= i < 256 ==> #[trigger] r.avail(i),
            r.free_count() == 256,
            r.next_free() == Some(0u8),
            forall|j: int| 0 <= j < r.slots().len() ==> #[trigger] r.slots()[j] == ArenaNode::empty(),
    {
        let n = (group_size as usize) * ARENA_BLOCK_SIZE;
        let mut nodes: Vec<ArenaNode> = Vec::with_capacity(n);
        let mut i: usize = 0;
        while i < n
            invariant
                i <= n,
                nodes@.len() == i,
                forall|j: int| 0 <= j < i ==> #[trigger] nodes@[j] == ArenaNode::empty(),
            decreases n - i,
        {
            nodes.push(ArenaNode::new_empty());
            i = i + 1;
        }
        let r = ArenaSegment {
            nodes,
            freemask: [u64::MAX; 4],
            next_available: Some(0),
            group_size,
        };
        proof {
            lemma_count64_full(0);
            assert forall|i: int| 0 <= i < 256 implies #[trigger] r.avail(i) by {
                let b = (i % 64) as u64;
                assert((0xffff_ffff_ffff_ffffu64 >> b) & 1u64 == 1u64) by (bit_vector)
                    requires b < 64;
            }
        }
        r
    }

    #[inline]
    pub fn count_nodes(&self) -> (r: usize)
        requires
            self.wf(),
        ensures
            r == 256 - self.free_count(),
    {
        proof {
            self.lemma_wf();
            lemma_count64_bound(self.freemask@[0], 0);
            lemma_count64_bound(self.freemask@[1], 0);
            lemma_count64_bound(self.freemask@[2], 0);
            lemma_count64_bound(self.freemask@[3], 0);
        }
        let mut sum: usize = 0;
        let mut w: usize = 0;
        while w < 4
            invariant
                w <= 4,
                sum == (64 * w) - (
                    (if w > 0 { ones64(self.freemask@[0]) } else { 0 })
                    + (if w > 1 { ones64(self.freemask@[1]) } else { 0 })
                    + (if w > 2 { ones64(self.freemask@[2]) } else { 0 })
                    + (if w > 3 { ones64(self.freemask@[3]) } else { 0 })),
                forall|j: int| 0 <= j < 4 ==> ones64(#[trigger] self.freemask@[j]) <= 64,
            decreases 4 - w,
        {
            let z = count_zeros_u64(self.freemask[w]);
            sum = sum + z as usize;
            w = w + 1;
        }
        sum
    }

    #[inline]
    pub fn is_full(&self) -> (r: bool)
        requires
            self.wf(),
        ensures
            r == (self.next_free() is None),
            r == (forall|i: int| 0 <= i < 256 ==> !#[trigger] self.avail(i)),
    {
        self.next_available.is_none()
    }

    #[inline]
    pub fn available_at(&self, index: u8) -> (r: bool)
        ensures
            r == self.avail(index as int),
    {
        assert((index >> 6u8) as int == index as int / 64 && (index & 63u8) as int == index as int % 64 && index >> 6u8 < 4u8) by (bit_vector);
        let val = self.freemask[(index >> 6) as usize];
        let subindex = index & 0b111111;
        let s = subindex as u64;
        assert(((val & (1u64 << s)) != 0u64) == ((val >> s) & 1u64 == 1u64)) by (bit_vector)
            requires s < 64;
        val & (1u64 << s) != 0
    }

    /// Marks slot `index` free or taken; nothing else changes.
    #[inline]
    pub fn set_available_at(&mut self, index: u8, available: bool)
        ensures
            forall|i: int| 0 <= i < 256 ==> #[trigger] final(self).avail(i) == (if i == index { available } else { old(self).avail(i) }),
            final(self).free_count() == (if available == old(self).avail(index as int) { old(self).free_count() as int }
                else if available { old(self).free_count() + 1int } else { old(self).free_count() - 1int }),
            final(self).slots() == old(self).slots(),
            final(self).group() == old(self).group(),
            final(self).next_free() == old(self).next_free(),
    {
        assert((index >> 6u8) as int == index as int / 64 && (index & 63u8) as int == index as int % 64 && index >> 6u8 < 4u8) by (bit_vector);
        let w = (index >> 6) as usize;
        let subindex = index & 0b111111; // Take the last 6 bits;
        let b = subindex as u64;
        let entry = self.freemask[w];
        let new_entry = if available {
            entry | (1u64 << b)
        } else {
            entry & !(1u64 << b)
        };
        self.freemask[w] = new_entry;
        proof {
            let old_mask = old(self).freemask@;
            assert(self.freemask@ == old_mask.update(w as int, new_entry));
            assert forall|i: int| 0 <= i < 256 implies #[trigger] self.avail(i) == (if i == index { available } else { old(self).avail(i) }) by {
                let iw = i / 64;
                let ib = (i % 64) as u64;
                if iw == w as int {
                    if ib == b {
                        assert(i == index);
                        if available {
                            assert((new_entry >> b) & 1u64 == 1u64) by (bit_vector)
                                requires new_entry == entry | (1u64 << b), b < 64;
                        } else {
                            assert((new_entry >> b) & 1u64 == 0u64) by (bit_vector)
                                requires new_entry == entry & !(1u64 << b), b < 64;
                        }
                    } else {
                        assert(i != index);
                        if available {
                            assert((new_entry >> ib) & 1u64 == (entry >> ib) & 1u64) by (bit_vector)
                                requires new_entry == entry | (1u64 << b), b < 64, ib < 64, ib != b;
                        } else {
                            assert((new_entry >> ib) & 1u64 == (entry >> ib) & 1u64) by (bit_vector)
                                requires new_entry == entry & !(1u64 << b), b < 64, ib < 64, ib != b;
                        }
                    }
                } else {
                    assert(i != index);
                }
            }
            let was = bit64(entry, b as int);
            assert(was == old(self).avail(index as int));
            if available && !was {
                lemma_count64_set(entry, b, 0);
            } else if !available && was {
                lemma_count64_clear(entry, b, 0);
            } else if available && was {
                assert(entry | (1u64 << b) == entry) by (bit_vector)
                    requires (entry >> b) & 1u64 == 1u64, b < 64;
            } else {
                assert(entry & !(1u64 << b) == entry) by (bit_vector)
                    requires (entry >> b) & 1u64 != 1u64, b < 64;
            }
        }
    }

    /// Gives slot `index` back. It must be in use.
    #[inline]
    pub fn free(&mut self, index: u8)
        requires
            old(self).wf(),
            !old(self).avail(index as int),
        ensures
            final(self).wf(),
            forall|i: int| 0 <= i < 256 ==> #[trigger] final(self).avail(i) == (i == index || old(self).avail(i)),
            final(self).free_count() == old(self).free_count() + 1,
            final(self).slots() == old(self).slots(),
            final(self).group() == old(self).group(),
            final(self).next_free() == Some(index),
    {
        self.set_available_at(index, true);
        let ghost mid = *self;
        self.next_available = Some(index);
        proof {
            assert forall|i: int| 0 <= i < 256 implies #[trigger] self.avail(i) == mid.avail(i) by {}
        }
    }

    /// The lowest free slot, if any.
    pub fn find_next_available(&mut self) -> (r: Option<u8>)
        ensures
            r == old(self).first_avail_from(0),
            *final(self) == *old(self),
    {
        let mut index: usize = 0;
        while index < 4
            invariant
                index <= 4,
                forall|i: int| 0 <= i < 64 * index ==> !#[trigger] self.avail(i),
            decreases 4 - index,
        {
            let mask = self.freemask[index];
            if mask == 0 {
                // All zeros. This mask is full. Skip.
                proof {
                    lemma_zero64(mask);
                    assert forall|i: int| 0 <= i < 64 * (index + 1) implies !#[trigger] self.avail(i) by {
                        if i >= 64 * index {
                            assert(i / 64 == index as int);
                            assert(!bit64(mask, i % 64));
                        }
                    }
                }
                index = index + 1;
                continue;
            }
            let trailing_zeros = mask.trailing_zeros() as u8;
            proof {
                vstd::std_specs::bits::axiom_u64_trailing_zeros(mask);
                let tz = trailing_zeros as int;
                assert(0 <= tz < 64);
                let j = 64 * index + tz;
                assert(j / 64 == index as int && j % 64 == tz);
                assert(self.avail(j));
                assert forall|i: int| 0 <= i < j implies !#[trigger] self.avail(i) by {
                    if i >= 64 * index {
                        assert(i / 64 == index as int);
                        let b = (i % 64) as u64;
                        assert(b < trailing_zeros as u64);
                        assert((mask >> b) & 1u64 == 0u64);
                    }
                }
                self.lemma_first_avail(0, j);
            }
            let idx = index as u8;
            assert(idx < 4 ==> (idx << 6u8) == 64 * idx) by (bit_vector);
            return Some(trailing_zeros + (idx << 6));
        }
        proof {
            self.lemma_no_avail(0);
        }
        None
    }

    /// Takes the slot that `next_free` names, empties its nodes, and moves
    /// `next_free` on: to the following slot when that one is free,
    /// otherwise to the lowest free slot.
    pub fn allocate(&mut self) -> (r: u8)
        requires
            old(self).wf(),
            old(self).next_free() is Some,
        ensures
            final(self).wf(),
            r == old(self).next_free().unwrap(),
            old(self).avail(r as int),
            forall|i: int| 0 <= i < 256 ==> #[trigger] final(self).avail(i) == (i != r && old(self).avail(i)),
            final(self).free_count() + 1 == old(self).free_count(),
            final(self).group() == old(self).group(),
            final(self).slots().len() == old(self).slots().len(),
            forall|j: int| 0 <= j < old(self).slots().len() ==> #[trigger] final(self).slots()[j] ==
                (if r * old(self).group() <= j < (r + 1) * old(self).group() { ArenaNode::empty() } else { old(self).slots()[j] }),
            final(self).next_free() == (if r < 255 && old(self).avail(r + 1) { Some((r + 1) as u8) } else { final(self).first_avail_from(0) }),
    {
        let next_available = self.next_available.unwrap();
        // Move forward next_available
        self.set_available_at(next_available, false);
        let ghost after_set = *self;
        if next_available < u8::MAX && self.available_at(next_available + 1) {
            // First, check the next slot because it is likely to be empty
            self.next_available = Some(next_available + 1);
        } else {
            // Otherwise, find and set the next available spot
            let ghost mid = *self;
            self.next_available = self.find_next_available();
            proof {
                assert forall|i: int| 0 <= i < 256 implies #[trigger] self.avail(i) == mid.avail(i) by {}
                self.lemma_first_avail_congruent(&mid, 0);
                if self.next_available is None {
                    assert forall|i: int| 0 <= i < 256 implies !#[trigger] self.avail(i) by {
                        if self.avail(i) {
                            self.lemma_first_avail_some(0, i);
                        }
                    }
                } else {
                    self.lemma_first_avail_is_avail(0);
                }
            }
        }

        // Initialize the group's nodes
        let k = self.group_size as usize;
        assert((next_available as usize) * k <= 255 * 8) by (nonlinear_arith)
            requires next_available < 256, k <= 8;
        let start = (next_available as usize) * k;
        proof {
            lemma_slot_bounds(next_available as int, k as int, 0);
            assert(start + k <= 256 * k) by (nonlinear_arith)
                requires start == next_available * k, next_available < 256, 1 <= k;
        }
        let ghost before = self.nodes@;
        let ghost mid2 = *self;
        assert(start + k <= 2048) by (nonlinear_arith)
            requires start + k <= 256 * k, k <= 8;
        assert(self.nodes@.len() == 256 * k);
        let mut c: usize = 0;
        while c < k
            invariant
                1 <= k <= 8,
                c <= k,
                start + k <= 2048,
                k == self.group_size,
                self.freemask == mid2.freemask,
                self.next_available == mid2.next_available,
                start + k <= self.nodes@.len(),
                self.nodes@.len() == before.len(),
                forall|j: int| 0 <= j < before.len() ==> #[trigger] self.nodes@[j] ==
                    (if start <= j < start + c { ArenaNode::empty() } else { before[j] }),
            decreases k - c,
        {
            self.nodes.set(start + c, ArenaNode::new_empty());
            c = c + 1;
        }
        proof {
            assert((next_available + 1) * k == start + k) by (nonlinear_arith)
                requires start == next_available * k;
            assert forall|i: int| 0 <= i < 256 implies #[trigger] self.avail(i) == (i != next_available && old(self).avail(i)) by {
                assert(self.avail(i) == mid2.avail(i));
                assert(mid2.avail(i) == after_set.avail(i));
            }
            self.lemma_first_avail_congruent(&mid2, 0);
            if self.next_available is Some {
                let j = self.next_available.unwrap() as int;
                assert(self.avail(j) == mid2.avail(j));
                assert(mid2.avail(j) == after_set.avail(j));
            } else {
                assert forall|i: int| 0 <= i < 256 implies !#[trigger] self.avail(i) by {
                    assert(self.avail(i) == mid2.avail(i));
                }
            }
        }
        next_available
    }

    proof fn lemma_first_avail_congruent(&self, other: &Self, a: int)
        requires
            forall|i: int| 0 <= i < 256 ==> #[trigger] self.avail(i) == other.avail(i),
        ensures
            self.first_avail_from(a) == other.first_avail_from(a),
        decreases 256 - a,
    {
        if 0 <= a < 256 {
            self.lemma_first_avail_congruent(other, a + 1);
        }
    }

    proof fn lemma_first_avail_some(&self, a: int, i: int)
        requires
            0 <= a <= i < 256,
            self.avail(i),
        ensures
            self.first_avail_from(a) is Some,
        decreases i - a,
    {
        if a < i && !self.avail(a) {
            self.lemma_first_avail_some(a + 1, i);
        }
    }

    proof fn lemma_first_avail_is_avail(&self, a: int)
        requires
            0 <= a,
            self.first_avail_from(a) is Some,
        ensures
            self.avail(self.first_avail_from(a).unwrap() as int),
            0 <= self.first_avail_from(a).unwrap() < 256,
        decreases 256 - a,
    {
        if a < 256 && !self.avail(a) {
            self.lemma_first_avail_is_avail(a + 1);
        }
    }

    /// The nodes of the group in slot `i`, which must be in use.
    pub fn block(&self, i: u8) -> (r: &[ArenaNode])
        requires
            self.wf(),
            !self.avail(i as int),
        ensures
            r@ == self.slots().subrange(i * self.group(), (i + 1) * self.group()),
    {
        let k = self.group_size as usize;
        assert((i as usize) * k <= 255 * 8) by (nonlinear_arith)
            requires i < 256, k <= 8;
        let start = (i as usize) * k;
        proof {
            assert(start + k <= 256 * k && start + k == (i + 1) * k) by (nonlinear_arith)
                requires start == i * k, i < 256, 1 <= k;
        }
        &self.nodes.as_slice()[start..start + k]
    }
}

/// The debug text of a segment: a line with `X` for each free slot and
/// `o` for each used one, a line with `^` under the slot handed out next
/// (empty when the segment is full), and its group size.
pub open spec fn segment_text(seg: ArenaSegment) -> Seq<char> {
    Seq::new(256, |i: int| if seg.avail(i) { 'X' } else { 'o' }) + seq!['\n']
        + (match seg.next_free() {
            Some(k) => Seq::new(256, |i: int| if i == k { '^' } else { ' ' }),
            None => Seq::empty(),
        })
        + seq!['\n'] + "Each slot has "@ + decimal(seg.group() as nat) + " nodes\n"@
}

impl ArenaSegment {
    /// Writes the segment's debug text at the end of `f`.
    pub fn append_debug(&self, f: &mut String)
        requires
            self.wf(),
        ensures
            final(f)@ == old(f)@ + segment_text(*self),
    {
        proof {
            reveal_strlit("\n");
        }
        let ghost start = f@;
        let mut i: u16 = 0;
        while i <= 255
            invariant
                i <= 256,
                f@ == start + Seq::new(i as nat, |j: int| if self.avail(j) { 'X' } else { 'o' }),
            decreases 256 - i,
        {
            if self.available_at(i as u8) {
                f.append("X");
            } else {
                f.append("o");
            }
            proof {
                reveal_strlit("X");
                reveal_strlit("o");
                assert(f@ =~= start + Seq::new((i + 1) as nat, |j: int| if self.avail(j) { 'X' } else { 'o' }));
            }
            i = i + 1;
        }
        f.append("\n");
        let ghost mid = f@;
        if let Some(next_available) = self.next_available {
            let mut i: u16 = 0;
            while i <= 255
                invariant
                    i <= 256,
                    f@ == mid + Seq::new(i as nat, |j: int| if j == next_available { '^' } else { ' ' }),
                decreases 256 - i,
            {
                if i == next_available as u16 {
                    f.append("^");
                } else {
                    f.append(" ");
                }
                proof {
                    reveal_strlit("^");
                    reveal_strlit(" ");
                    assert(f@ =~= mid + Seq::new((i + 1) as nat, |j: int| if j == next_available { '^' } else { ' ' }));
                }
                i = i + 1;
            }
        }
        let ghost mid2 = f@;
        f.append("\n");
        f.append("Each slot has ");
        append_decimal(f, self.group_size as u16);
        f.append(" nodes\n");
        proof {
            assert(f@ =~= old(f)@ + segment_text(*self));
        }
    }

    /// The segment as text, for debugging.
    pub fn to_debug_string(&self) -> (r: String)
        requires
            self.wf(),
        ensures
            r@ == segment_text(*self),
    {
        let mut f = String::new();
        self.append_debug(&mut f);
        proof {
            assert(f@ =~= segment_text(*self));
        }
        f
    }
}

/// Free slots summed over a list of segments.
pub open spec fn free_sum(segs: Seq<ArenaSegment>) -> nat
    decreases segs.len(),
{
    if segs.len() == 0 {
        0
    } else {
        free_sum(segs.drop_last()) + segs.last().free_count()
    }
}

/// Used slots summed over a list of segments.
pub open spec fn used_sum(segs: Seq<ArenaSegment>) -> int
    decreases segs.len(),
{
    if segs.len() == 0 {
        0
    } else {
        used_sum(segs.drop_last()) + (256 - segs.last().free_count())
    }
}

/// Used slots summed over the segment lists of the first `n` block sizes.
pub open spec fn used_total(lists: Seq<Seq<ArenaSegment>>, n: int) -> int
    decreases n,
{
    if n <= 0 {
        0
    } else {
        used_total(lists, n - 1) + used_sum(lists[n - 1])
    }
}

/// The last segment, among the first `n`, that has a free slot; -1 if none has.
pub open spec fn last_open(segs: Seq<ArenaSegment>, n: int) -> int
    decreases n,
{
    if n <= 0 {
        -1
    } else if segs[n - 1].next_free() is Some {
        n - 1
    } else {
        last_open(segs, n - 1)
    }
}

pub proof fn lemma_free_sum_update(segs: Seq<ArenaSegment>, i: int, x: ArenaSegment)
    requires
        0 <= i < segs.len(),
    ensures
        free_sum(segs.update(i, x)) + segs[i].free_count() == free_sum(segs) + x.free_count(),
        used_sum(segs.update(i, x)) + x.free_count() == used_sum(segs) + segs[i].free_count(),
    decreases segs.len(),
{
    let t = segs.update(i, x);
    if i == segs.len() - 1 {
        assert(t.drop_last() =~= segs.drop_last());
    } else {
        lemma_free_sum_update(segs.drop_last(), i, x);
        assert(t.drop_last() =~= segs.drop_last().update(i, x));
    }
}

pub proof fn lemma_sums_push(segs: Seq<ArenaSegment>, x: ArenaSegment)
    ensures
        free_sum(segs.push(x)) == free_sum(segs) + x.free_count(),
        used_sum(segs.push(x)) == used_sum(segs) + 256 - x.free_count(),
{
    assert(segs.push(x).drop_last() =~= segs);
}

pub proof fn lemma_free_sum_full(segs: Seq<ArenaSegment>)
    requires
        forall|s: int| 0 <= s < segs.len() ==> (#[trigger] segs[s]).wf() && segs[s].next_free() is None,
    ensures
        free_sum(segs) == 0,
    decreases segs.len(),
{
    if segs.len() > 0 {
        segs.last().lemma_wf();
        lemma_free_sum_full(segs.drop_last());
    }
}

pub proof fn lemma_last_open(segs: Seq<ArenaSegment>, n: int, m: int)
    requires
        0 <= m <= n <= segs.len(),
        forall|j: int| m <= j < n ==> (#[trigger] segs[j]).next_free() is None,
    ensures
        last_open(segs, n) == last_open(segs, m),
    decreases n - m,
{
    if m < n {
        lemma_last_open(segs, n - 1, m);
    }
}

pub proof fn lemma_last_open_bounds(segs: Seq<ArenaSegment>, n: int)
    requires
        0 <= n <= segs.len(),
    ensures
        -1 <= last_open(segs, n) < n,
        last_open(segs, n) >= 0 ==> segs[last_open(segs, n)].next_free() is Some,
    decreases n,
{
    if n > 0 {
        lemma_last_open_bounds(segs, n - 1);
    }
}

/// A node in a block of slot `i` does not lie in the slots of block `r`.
pub proof fn lemma_slot_outside(i: int, c: int, r: int, k: int)
    requires
        1 <= k,
        0 <= c < k,
        0 <= i,
        0 <= r,
        i != r,
    ensures
        !(r * k <= i * k + c < (r + 1) * k),
{
    if i < r {
        assert(i * k + c < r * k) by (nonlinear_arith)
            requires i < r, 0 <= c < k, 1 <= k;
    } else {
        assert((r + 1) * k <= i * k + c) by (nonlinear_arith)
            requires r < i, 0 <= c, 1 <= k;
    }
}

/// The memory of the octree: for each block size 1 to 8, a list of segments
/// of up to 256 blocks of that size.
pub struct Arena {
    segments: Vec<Vec<ArenaSegment>>,
}

impl Arena {
    /// The segments of blocks of `k` nodes.
    pub closed spec fn segs(&self, k: int) -> Seq<ArenaSegment> {
        self.segments@[k - 1]@
    }

    pub closed spec fn seg_count(&self, k: int) -> int {
        self.segs(k).len() as int
    }

    pub closed spec fn wf(&self) -> bool {
        &&& self.segments@.len() == 8
        &&& forall|k: int| 1 <= k <= 8 ==> #[trigger] self.segs(k).len() <= 256
        &&& forall|k: int, s: int| 1 <= k <= 8 && 0 <= s < self.segs(k).len()
            ==> (#[trigger] self.segs(k)[s]).wf() && self.segs(k)[s].group() == k
    }

    /// The block `b` is in use.
    pub closed spec fn allocated(&self, b: ArenaBlockIndice) -> bool {
        &&& 1 <= b.block_size <= 8
        &&& b.segment < self.seg_count(b.block_size as int)
        &&& !self.segs(b.block_size as int)[b.segment as int].avail(b.indice as int)
    }

    /// `l` names a node of an existing segment, whether its block is in use or not.
    pub closed spec fn placed(&self, l: ArenaNodeIndice) -> bool {
        &&& 1 <= l.block.block_size <= 8
        &&& l.block.segment < self.seg_count(l.block.block_size as int)
        &&& l.index < l.block.block_size
    }

    /// `l` names a node of a block in use.
    pub open spec fn valid(&self, l: ArenaNodeIndice) -> bool {
        self.allocated(l.block) && l.index < l.block.block_size
    }

    /// The node that `l` names.
    pub closed spec fn node(&self, l: ArenaNodeIndice) -> ArenaNode {
        self.segs(l.block.block_size as int)[l.block.segment as int].slots()[l.block.indice * l.block.block_size + l.index]
    }

    /// The nodes of block `b`, in order.
    pub open spec fn block_view(&self, b: ArenaBlockIndice) -> Seq<ArenaNode> {
        Seq::new(b.block_size as nat, |i: int| self.node(ArenaNodeIndice { block: b, index: i as u8 }))
    }

    /// How many more blocks of `k` nodes can be had.
    pub closed spec fn capacity(&self, k: int) -> int {
        (256 - self.seg_count(k)) * 256 + free_sum(self.segs(k))
    }

    /// The number of blocks in use, of all sizes.
    pub closed spec fn used_blocks(&self) -> int {
        used_total(Seq::new(8, |i: int| self.segments@[i]@), 8)
    }

    /// The block of `k` nodes that the next allocation of that size hands
    /// out: the next free slot of the last segment that has one, else the
    /// first slot of a new segment.
    pub closed spec fn next_alloc(&self, k: int) -> ArenaBlockIndice {
        let n = self.seg_count(k);
        let i = last_open(self.segs(k), n);
        if i >= 0 {
            ArenaBlockIndice { segment: i as u8, indice: self.segs(k)[i].next_free().unwrap(), block_size: k as u8 }
        } else {
            ArenaBlockIndice { segment: n as u8, indice: 0, block_size: k as u8 }
        }
    }

    /// `self` holds the same segments as `other`, with the same slots free,
    /// whatever the nodes hold.
    pub closed spec fn same_shape(&self, other: &Arena) -> bool {
        &&& self.segments@.len() == other.segments@.len()
        &&& forall|k: int| 1 <= k <= 8 ==> #[trigger] self.segs(k).len() == other.segs(k).len()
        &&& forall|k: int, s: int| 1 <= k <= 8 && 0 <= s < self.segs(k).len() ==> {
            &&& (#[trigger] self.segs(k)[s]).freemask == other.segs(k)[s].freemask
            &&& self.segs(k)[s].next_available == other.segs(k)[s].next_available
            &&& self.segs(k)[s].group_size == other.segs(k)[s].group_size
            &&& self.segs(k)[s].nodes@.len() == other.segs(k)[s].nodes@.len()
        }
    }

    pub proof fn lemma_same_shape(&self, other: &Arena)
        requires
            self.same_shape(other),
            other.wf(),
        ensures
            self.wf(),
            forall|b: ArenaBlockIndice| #[trigger] self.allocated(b) == other.allocated(b),
            forall|l: ArenaNodeIndice| #[trigger] self.placed(l) == other.placed(l),
            forall|k: int| 1 <= k <= 8 ==> #[trigger] self.capacity(k) == other.capacity(k),
            forall|k: int| 1 <= k <= 8 ==> #[trigger] self.next_alloc(k) == other.next_alloc(k),
            self.used_blocks() == other.used_blocks(),
    {
        assert forall|k: int, s: int| 1 <= k <= 8 && 0 <= s < self.segs(k).len()
            implies (#[trigger] self.segs(k)[s]).wf() && self.segs(k)[s].group() == k by {
            assert(other.segs(k)[s].wf());
            assert forall|i: int| 0 <= i < 256 implies #[trigger] self.segs(k)[s].avail(i) == other.segs(k)[s].avail(i) by {}
        }
        assert forall|b: ArenaBlockIndice| #[trigger] self.allocated(b) == other.allocated(b) by {
            if 1 <= b.block_size <= 8 && b.segment < self.seg_count(b.block_size as int) {
                let k = b.block_size as int;
                let s = b.segment as int;
                assert(self.segs(k)[s].freemask == other.segs(k)[s].freemask);
            }
        }
        assert forall|k: int| 1 <= k <= 8 implies #[trigger] self.capacity(k) == other.capacity(k) by {
            Self::lemma_sums_same(self.segs(k), other.segs(k));
        }
        assert forall|k: int| 1 <= k <= 8 implies #[trigger] self.next_alloc(k) == other.next_alloc(k) by {
            Self::lemma_last_open_same(self.segs(k), other.segs(k), self.seg_count(k));
            let i = last_open(self.segs(k), self.seg_count(k));
            lemma_last_open_bounds(self.segs(k), self.seg_count(k));
            if i >= 0 {
                assert(self.segs(k)[i].next_available == other.segs(k)[i].next_available);
            }
        }
        let a = Seq::new(8, |i: int| self.segments@[i]@);
        let b = Seq::new(8, |i: int| other.segments@[i]@);
        assert forall|i: int| 0 <= i < 8 implies used_sum(#[trigger] a[i]) == used_sum(b[i]) by {
            assert(a[i] == self.segs(i + 1));
            assert(b[i] == other.segs(i + 1));
            Self::lemma_sums_same(self.segs(i + 1), other.segs(i + 1));
        }
        Self::lemma_used_total_same(a, b, 8);
    }

    proof fn lemma_used_total_same(a: Seq<Seq<ArenaSegment>>, b: Seq<Seq<ArenaSegment>>, n: int)
        requires
            0 <= n <= a.len(),
            a.len() == b.len(),
            forall|i: int| 0 <= i < n ==> used_sum(#[trigger] a[i]) == used_sum(b[i]),
        ensures
            used_total(a, n) == used_total(b, n),
        decreases n,
    {
        if n > 0 {
            Self::lemma_used_total_same(a, b, n - 1);
        }
    }

    proof fn lemma_sums_same(a: Seq<ArenaSegment>, b: Seq<ArenaSegment>)
        requires
            a.len() == b.len(),
            forall|s: int| 0 <= s < a.len() ==> (#[trigger] a[s]).freemask == b[s].freemask,
        ensures
            free_sum(a) == free_sum(b),
            used_sum(a) == used_sum(b),
        decreases a.len(),
    {
        if a.len() > 0 {
            Self::lemma_sums_same(a.drop_last(), b.drop_last());
            assert(a.last().freemask == b.last().freemask);
        }
    }

    proof fn lemma_last_open_same(a: Seq<ArenaSegment>, b: Seq<ArenaSegment>, n: int)
        requires
            0 <= n <= a.len(),
            a.len() == b.len(),
            forall|s: int| 0 <= s < a.len() ==> (#[trigger] a[s]).next_available == b[s].next_available,
        ensures
            last_open(a, n) == last_open(b, n),
        decreases n,
    {
        if n > 0 {
            Self::lemma_last_open_same(a, b, n - 1);
            assert(a[n - 1].next_available == b[n - 1].next_available);
        }
    }

    pub proof fn lemma_wf(&self)
        requires
            self.wf(),
        ensures
            forall|k: int| 1 <= k <= 8 ==> 0 <= #[trigger] self.capacity(k) <= 65536,
            forall|k: int| 1 <= k <= 8 ==> 0 <= #[trigger] self.seg_count(k) <= 256,
            forall|l: ArenaNodeIndice| #[trigger] self.valid(l) ==> self.placed(l),
    {
        assert forall|k: int| 1 <= k <= 8 implies 0 <= #[trigger] self.capacity(k) <= 65536 by {
            Self::lemma_free_sum_bound(self.segs(k), k);
        }
    }

    proof fn lemma_free_sum_bound(segs: Seq<ArenaSegment>, k: int)
        requires
            forall|s: int| 0 <= s < segs.len() ==> (#[trigger] segs[s]).wf(),
        ensures
            free_sum(segs) <= 256 * segs.len(),
        decreases segs.len(),
    {
        if segs.len() > 0 {
            segs.last().lemma_wf();
            Self::lemma_free_sum_bound(segs.drop_last(), k);
        }
    }

    pub fn new() -> (r: Arena)
        ensures
            r.wf(),
            forall|b: ArenaBlockIndice| !#[trigger] r.allocated(b),
            forall|k: int| 1 <= k <= 8 ==> #[trigger] r.capacity(k) == 65536,
            forall|k: int| 1 <= k <= 8 ==> #[trigger] r.seg_count(k) == 0,
            forall|k: int| 1 <= k <= 8 ==> #[trigger] r.packed(k, 0),
            r.used_blocks() == 0,
    {
        let mut segments: Vec<Vec<ArenaSegment>> = Vec::new();
        let mut i: usize = 0;
        while i < 8
            invariant
                i <= 8,
                segments@.len() == i,
                forall|j: int| 0 <= j < i ==> (#[trigger] segments@[j])@.len() == 0,
            decreases 8 - i,
        {
            segments.push(Vec::new());
            i = i + 1;
        }
        let r = Arena { segments };
        proof {
            let a = Seq::new(8, |i: int| r.segments@[i]@);
            Self::lemma_used_total_zero(a, 8);
        }
        r
    }

    proof fn lemma_used_total_zero(a: Seq<Seq<ArenaSegment>>, n: int)
        requires
            0 <= n <= a.len(),
            forall|i: int| 0 <= i < n ==> (#[trigger] a[i]).len() == 0,
        ensures
            used_total(a, n) == 0,
        decreases n,
    {
        if n > 0 {
            Self::lemma_used_total_zero(a, n - 1);
        }
    }
}

impl Arena {
    /// Hands out a free block of `block_size` nodes, all empty: from the
    /// last segment of that size that has room, else from a new segment.
    pub fn allocate(&mut self, block_size: u8) -> (r: ArenaBlockIndice)
        requires
            old(self).wf(),
            1 <= block_size <= 8,
            old(self).capacity(block_size as int) >= 1,
        ensures
            final(self).wf(),
            r == old(self).next_alloc(block_size as int),
            r.block_size == block_size,
            !old(self).allocated(r),
            forall|b: ArenaBlockIndice| #[trigger] final(self).allocated(b) == (old(self).allocated(b) || b == r),
            forall|l: ArenaNodeIndice| #[trigger] old(self).placed(l) ==> final(self).placed(l),
            forall|l: ArenaNodeIndice| old(self).placed(l) && l.block != r ==> #[trigger] final(self).node(l) == old(self).node(l),
            forall|c: u8| c < block_size ==> #[trigger] final(self).node(ArenaNodeIndice { block: r, index: c }) == ArenaNode::empty(),
            final(self).capacity(block_size as int) + 1 == old(self).capacity(block_size as int),
            forall|k: int| 1 <= k <= 8 && k != block_size ==> #[trigger] final(self).capacity(k) == old(self).capacity(k),
            forall|k: int| 1 <= k <= 8 && k != block_size ==> #[trigger] final(self).segs(k) == old(self).segs(k),
            final(self).used_blocks() == old(self).used_blocks() + 1,
            forall|n: int| #[trigger] old(self).packed(block_size as int, n)
                ==> r == Arena::block_at(block_size as int, n) && final(self).packed(block_size as int, n + 1),
            forall|k: int, n: int| 1 <= k <= 8 && k != block_size ==> #[trigger] final(self).packed(k, n) == old(self).packed(k, n),
    {
        let ghost k = block_size as int;
        let ki = (block_size - 1) as usize;
        let n = self.segments[ki].len();
        // Finding in reverse order the first segment that is not full.
        // In reverse order because empty segments are more likely to be on the back
        let mut i = n;
        let mut found = false;
        while i > 0 && !found
            invariant
                self.wf(),
                ki == k - 1,
                1 <= k <= 8,
                n == self.seg_count(k),
                i <= n,
                forall|j: int| i <= j < n ==> (#[trigger] self.segs(k)[j]).next_free() is None,
                found ==> i > 0 && self.segs(k)[i - 1].next_free() is Some,
            decreases i + (if found { 0int } else { 1int }),
        {
            if !self.segments[ki][i - 1].is_full() {
                found = true;
            } else {
                i = i - 1;
            }
        }
        proof {
            lemma_last_open(self.segs(k), n as int, i as int);
            lemma_last_open_bounds(self.segs(k), n as int);
        }
        let ghost old_segs = self.segs(k);
        let ghost old_self = *self;
        if found {
            let s = i - 1;
            proof {
                assert(last_open(old_segs, i as int) == s);
                old_segs[s as int].lemma_wf();
            }
            let indice = self.segments[ki][s].allocate();
            let r = ArenaBlockIndice { segment: s as u8, indice, block_size };
            proof {
                let new_seg = self.segs(k)[s as int];
                assert(self.segs(k) == old_segs.update(s as int, new_seg));
                lemma_free_sum_update(old_segs, s as int, new_seg);
                self.lemma_after_seg_change(&old_self, k, s as int);
                assert forall|b: ArenaBlockIndice| #[trigger] self.allocated(b) == (old_self.allocated(b) || b == r) by {
                    if b.block_size == block_size && b.segment == s as u8 && 0 <= b.indice < 256 {
                        assert(self.segs(k)[s as int].avail(b.indice as int) == (b.indice != indice && old_segs[s as int].avail(b.indice as int)));
                    }
                }
                assert forall|l: ArenaNodeIndice| old_self.placed(l) && l.block != r implies #[trigger] self.node(l) == old_self.node(l) by {
                    if l.block.block_size == block_size && l.block.segment == s as u8 {
                        let kk = block_size as int;
                        lemma_slot_bounds(l.block.indice as int, kk, l.index as int);
                        lemma_slot_outside(l.block.indice as int, l.index as int, indice as int, kk);
                    }
                }
                assert forall|c: u8| c < block_size implies #[trigger] self.node(ArenaNodeIndice { block: r, index: c }) == ArenaNode::empty() by {
                    lemma_slot_bounds(indice as int, k, c as int);
                    assert(indice * k <= indice * k + c < (indice + 1) * k) by (nonlinear_arith)
                        requires 0 <= c < k;
                }
                if indice < 255 {
                    assert(new_seg.avail(indice + 1) == old_segs[s as int].avail(indice + 1));
                }
                old_self.lemma_allocate_packed(self, k, r);
            }
            r
        } else {
            proof {
                if n == 256 {
                    assert forall|j: int| 0 <= j < old_segs.len() implies (#[trigger] old_segs[j]).wf() && old_segs[j].next_free() is None by {}
                    lemma_free_sum_full(old_segs);
                    assert(false);
                }
            }
            let mut new_segment = ArenaSegment::new(block_size);
            let indice = new_segment.allocate();
            let ghost ns = new_segment;
            self.segments[ki].push(new_segment);
            let r = ArenaBlockIndice { segment: n as u8, indice, block_size };
            proof {
                assert(self.segs(k) == old_segs.push(ns));
                lemma_sums_push(old_segs, ns);
                self.lemma_after_seg_push(&old_self, k);
                assert forall|b: ArenaBlockIndice| #[trigger] self.allocated(b) == (old_self.allocated(b) || b == r) by {
                    if b.block_size == block_size && b.segment == n as u8 && 0 <= b.indice < 256 {
                        assert(self.segs(k)[n as int] == ns);
                    }
                }
                assert forall|c: u8| c < block_size implies #[trigger] self.node(ArenaNodeIndice { block: r, index: c }) == ArenaNode::empty() by {
                    lemma_slot_bounds(0, k, c as int);
                    assert(self.segs(k)[n as int] == ns);
                }
                assert(self.segs(k)[n as int] == ns);
                old_self.lemma_allocate_packed(self, k, r);
            }
            r
        }
    }

    /// The blocks of size `k` in use are exactly the first `n` in the order
    /// the arena hands them out: slot after slot, segment after segment,
    /// with no segment beyond the one that holds the last of them.
    pub closed spec fn packed(&self, k: int, n: int) -> bool {
        &&& 0 <= n <= 65536
        &&& self.seg_count(k) == (n + 255) / 256
        &&& forall|s: int, i: int| 0 <= s < self.seg_count(k) && 0 <= i < 256
            ==> #[trigger] self.segs(k)[s].avail(i) == (s * 256 + i >= n)
        &&& forall|s: int| 0 <= s < self.seg_count(k) ==> #[trigger] self.segs(k)[s].next_free()
            == (if (s + 1) * 256 <= n { None } else { Some((n - s * 256) as u8) })
    }

    /// The block of size `k` that stands at place `n` of that order.
    pub open spec fn block_at(k: int, n: int) -> ArenaBlockIndice {
        ArenaBlockIndice { segment: (n / 256) as u8, indice: (n % 256) as u8, block_size: k as u8 }
    }

    /// Where the first `n` blocks of size `k` are in use and there is room
    /// for one more, the next allocation of that size hands out the block
    /// at place `n`.
    pub proof fn lemma_packed_next(&self, k: int, n: int)
        requires
            self.wf(),
            1 <= k <= 8,
            self.packed(k, n),
            self.capacity(k) >= 1,
        ensures
            n < 65536,
            self.next_alloc(k) == Self::block_at(k, n),
    {
        let c = self.seg_count(k);
        let segs = self.segs(k);
        if n % 256 == 0 {
            assert forall|j: int| 0 <= j < c implies (#[trigger] segs[j]).next_free() is None by {
                assert((j + 1) * 256 <= n);
            }
            lemma_last_open(segs, c, 0);
            if n == 65536 {
                assert forall|j: int| 0 <= j < segs.len() implies (#[trigger] segs[j]).wf() && segs[j].next_free() is None by {}
                lemma_free_sum_full(segs);
                assert(false);
            }
        } else {
            assert(c == n / 256 + 1);
            assert(segs[c - 1].next_free() == Some((n - (c - 1) * 256) as u8));
        }
    }

    /// An allocation of size `k` that hands out `r`, leaving the arena
    /// `after`, keeps the blocks of that size packed, one more of them.
    proof fn lemma_allocate_packed(&self, after: &Arena, k: int, r: ArenaBlockIndice)
        requires
            self.wf(),
            after.wf(),
            1 <= k <= 8,
            self.capacity(k) >= 1,
            r == self.next_alloc(k),
            forall|b: ArenaBlockIndice| #[trigger] after.allocated(b) == (self.allocated(b) || b == r),
            r.segment <= self.seg_count(k),
            after.seg_count(k) == (if r.segment == self.seg_count(k) { self.seg_count(k) + 1 } else { self.seg_count(k) }),
            forall|s: int| 0 <= s < self.seg_count(k) && s != r.segment
                ==> #[trigger] after.segs(k)[s].next_free() == self.segs(k)[s].next_free(),
            after.segs(k)[r.segment as int].next_free() == (if r.indice < 255 && after.segs(k)[r.segment as int].avail(r.indice + 1) {
                Some((r.indice + 1) as u8)
            } else {
                after.segs(k)[r.segment as int].first_avail_from(0)
            }),
        ensures
            forall|n: int| #[trigger] self.packed(k, n) ==> r == Self::block_at(k, n) && after.packed(k, n + 1),
    {
        assert forall|n: int| #[trigger] self.packed(k, n) implies r == Self::block_at(k, n) && after.packed(k, n + 1) by {
            self.lemma_packed_next(k, n);
            let m = n + 1;
            let seg = r.segment as int;
            assert(seg == n / 256 && r.indice == n % 256);
            assert(after.seg_count(k) == (m + 255) / 256);
            assert forall|s: int, i: int| 0 <= s < after.seg_count(k) && 0 <= i < 256
                implies #[trigger] after.segs(k)[s].avail(i) == (s * 256 + i >= m) by {
                let b = ArenaBlockIndice { segment: s as u8, indice: i as u8, block_size: k as u8 };
                assert(after.allocated(b) == (self.allocated(b) || b == r));
                if s < self.seg_count(k) {
                    assert(self.segs(k)[s].avail(i) == (s * 256 + i >= n));
                }
                assert((b == r) == (s * 256 + i == n));
            }
            let last = after.segs(k)[seg];
            if r.indice == 255 {
                assert forall|j: int| 0 <= j < 256 implies !#[trigger] last.avail(j) by {
                    assert(last.avail(j) == (seg * 256 + j >= m));
                }
                last.lemma_first_avail_none(0);
            } else {
                assert(last.avail(r.indice + 1) == (seg * 256 + r.indice + 1 >= m));
            }
            assert forall|s: int| 0 <= s < after.seg_count(k) implies #[trigger] after.segs(k)[s].next_free()
                == (if (s + 1) * 256 <= m { None } else { Some((m - s * 256) as u8) }) by {
                if s != seg {
                    assert(s < n / 256);
                    assert(self.segs(k)[s].next_free() == (if (s + 1) * 256 <= n { None::<u8> } else { Some((n - s * 256) as u8) }));
                }
            }
        }
    }

    /// After one segment of size `k` changed its free slots, the rest of the
    /// arena is as it was.
    proof fn lemma_after_seg_change(&self, old_self: &Arena, k: int, s: int)
        requires
            old_self.wf(),
            1 <= k <= 8,
            0 <= s < old_self.seg_count(k),
            self.segments@.len() == 8,
            forall|kk: int| 1 <= kk <= 8 && kk != k ==> #[trigger] self.segs(kk) == old_self.segs(kk),
            self.segs(k) == old_self.segs(k).update(s, self.segs(k)[s]),
            self.segs(k)[s].wf(),
            self.segs(k)[s].group() == k,
            self.segs(k)[s].slots().len() == old_self.segs(k)[s].slots().len(),
        ensures
            self.wf(),
            forall|l: ArenaNodeIndice| #[trigger] old_self.placed(l) ==> self.placed(l),
            forall|l: ArenaNodeIndice| old_self.placed(l) && (l.block.block_size != k || l.block.segment != s)
                ==> #[trigger] self.node(l) == old_self.node(l),
            forall|kk: int| 1 <= kk <= 8 && kk != k ==> #[trigger] self.capacity(kk) == old_self.capacity(kk),
            self.used_blocks() == old_self.used_blocks() - used_sum(old_self.segs(k)) + used_sum(self.segs(k)),
    {
        let a = Seq::new(8, |i: int| self.segments@[i]@);
        let b = Seq::new(8, |i: int| old_self.segments@[i]@);
        assert forall|i: int| 0 <= i < 8 && i != k - 1 implies #[trigger] a[i] == b[i] by {
            assert(a[i] == self.segs(i + 1));
            assert(b[i] == old_self.segs(i + 1));
        }
        Self::lemma_used_total_change(a, b, 8, k - 1);
    }

    proof fn lemma_used_total_change(a: Seq<Seq<ArenaSegment>>, b: Seq<Seq<ArenaSegment>>, n: int, j: int)
        requires
            0 <= j < n <= a.len(),
            a.len() == b.len(),
            forall|i: int| 0 <= i < n && i != j ==> #[trigger] a[i] == b[i],
        ensures
            used_total(a, n) == used_total(b, n) - used_sum(b[j]) + used_sum(a[j]),
        decreases n,
    {
        if n - 1 > j {
            Self::lemma_used_total_change(a, b, n - 1, j);
        } else {
            Self::lemma_used_total_prefix(a, b, j);
        }
    }

    proof fn lemma_used_total_prefix(a: Seq<Seq<ArenaSegment>>, b: Seq<Seq<ArenaSegment>>, n: int)
        requires
            0 <= n <= a.len(),
            a.len() == b.len(),
            forall|i: int| 0 <= i < n ==> #[trigger] a[i] == b[i],
        ensures
            used_total(a, n) == used_total(b, n),
        decreases n,
    {
        if n > 0 {
            Self::lemma_used_total_prefix(a, b, n - 1);
        }
    }

    /// After a segment was added to size `k`, the rest of the arena is as it was.
    proof fn lemma_after_seg_push(&self, old_self: &Arena, k: int)
        requires
            old_self.wf(),
            1 <= k <= 8,
            old_self.seg_count(k) < 256,
            self.segments@.len() == 8,
            forall|kk: int| 1 <= kk <= 8 && kk != k ==> #[trigger] self.segs(kk) == old_self.segs(kk),
            self.segs(k) == old_self.segs(k).push(self.segs(k).last()),
            self.segs(k).last().wf(),
            self.segs(k).last().group() == k,
        ensures
            self.wf(),
            forall|l: ArenaNodeIndice| #[trigger] old_self.placed(l) ==> self.placed(l),
            forall|l: ArenaNodeIndice| old_self.placed(l) ==> #[trigger] self.node(l) == old_self.node(l),
            forall|kk: int| 1 <= kk <= 8 && kk != k ==> #[trigger] self.capacity(kk) == old_self.capacity(kk),
            self.used_blocks() == old_self.used_blocks() - used_sum(old_self.segs(k)) + used_sum(self.segs(k)),
    {
        assert forall|l: ArenaNodeIndice| old_self.placed(l) implies #[trigger] self.node(l) == old_self.node(l) by {
            if l.block.block_size == k {
                assert(self.segs(k)[l.block.segment as int] == old_self.segs(k)[l.block.segment as int]);
            }
        }
        let a = Seq::new(8, |i: int| self.segments@[i]@);
        let b = Seq::new(8, |i: int| old_self.segments@[i]@);
        assert forall|i: int| 0 <= i < 8 && i != k - 1 implies #[trigger] a[i] == b[i] by {
            assert(a[i] == self.segs(i + 1));
            assert(b[i] == old_self.segs(i + 1));
        }
        Self::lemma_used_total_change(a, b, 8, k - 1);
    }
}

impl Arena {
    /// Gives block `indice` back; a block of size 0 stands for no block and
    /// is left alone.
    pub fn free(&mut self, indice: ArenaBlockIndice)
        requires
            old(self).wf(),
            indice.block_size == 0 || old(self).allocated(indice),
        ensures
            final(self).wf(),
            forall|b: ArenaBlockIndice| #[trigger] final(self).allocated(b) == (old(self).allocated(b) && (indice.block_size == 0 || b != indice)),
            forall|l: ArenaNodeIndice| #[trigger] final(self).placed(l) == old(self).placed(l),
            forall|l: ArenaNodeIndice| old(self).placed(l) ==> #[trigger] final(self).node(l) == old(self).node(l),
            forall|k: int| 1 <= k <= 8 ==> #[trigger] final(self).capacity(k) == old(self).capacity(k)
                + (if indice.block_size != 0 && k == indice.block_size { 1int } else { 0int }),
            final(self).used_blocks() == old(self).used_blocks() - (if indice.block_size != 0 { 1int } else { 0int }),
    {
        if indice.block_size > 0 {
            let ghost k = indice.block_size as int;
            let ghost s = indice.segment as int;
            let ghost old_self = *self;
            let ghost old_segs = self.segs(k);
            let ki = (indice.block_size - 1) as usize;
            self.segments[ki][indice.segment as usize].free(indice.indice);
            proof {
                let new_seg = self.segs(k)[s];
                assert(self.segs(k) == old_segs.update(s, new_seg));
                lemma_free_sum_update(old_segs, s, new_seg);
                self.lemma_after_seg_change(&old_self, k, s);
                assert forall|b: ArenaBlockIndice| #[trigger] self.allocated(b) == (old_self.allocated(b) && b != indice) by {
                    if b.block_size == indice.block_size && b.segment == indice.segment && 0 <= b.indice < 256 {
                        assert(self.segs(k)[s].avail(b.indice as int) == (b.indice == indice.indice || old_segs[s].avail(b.indice as int)));
                    }
                }
                assert forall|l: ArenaNodeIndice| old_self.placed(l) implies #[trigger] self.node(l) == old_self.node(l) by {
                    if l.block.block_size == k && l.block.segment == s {
                        assert(self.segs(k)[s].slots() == old_segs[s].slots());
                    }
                }
                assert forall|l: ArenaNodeIndice| #[trigger] self.placed(l) == old_self.placed(l) by {}
            }
        }
    }

    /// The nodes of block `indice`; none for a block of size 0.
    pub fn get_block(&self, indice: ArenaBlockIndice) -> (r: &[ArenaNode])
        requires
            self.wf(),
            indice.block_size == 0 || self.allocated(indice),
        ensures
            r@ == self.block_view(indice),
    {
        if indice.block_size == 0 {
            let r: &[ArenaNode] = &[];
            assert(r@ =~= self.block_view(indice));
            r
        } else {
            let ghost k = indice.block_size as int;
            let ghost s = indice.segment as int;
            let seg = &self.segments[(indice.block_size - 1) as usize][indice.segment as usize];
            let r = seg.block(indice.indice);
            proof {
                assert(*seg == self.segs(k)[s]);
                seg.lemma_wf();
                assert(seg.group() == k);
                assert((indice.indice + 1) * k - indice.indice * k == k) by (nonlinear_arith);
                lemma_slot_bounds(indice.indice as int, k, 0);
                assert((indice.indice + 1) * k <= 256 * k) by (nonlinear_arith)
                    requires indice.indice < 256, 1 <= k;
                assert(r@.len() == k);
                assert forall|i: int| 0 <= i < k implies #[trigger] r@[i] == self.block_view(indice)[i] by {
                    lemma_slot_bounds(indice.indice as int, k, i);
                    let l = ArenaNodeIndice { block: indice, index: i as u8 };
                    assert(self.block_view(indice)[i] == self.node(l));
                    assert(l.index == i);
                    assert(r@[i] == seg.slots()[indice.indice * k + i]);
                }
                assert(r@ =~= self.block_view(indice));
            }
            r
        }
    }

    #[inline]
    pub fn get_node(&self, indice: ArenaNodeIndice) -> (r: &ArenaNode)
        requires
            self.wf(),
            self.valid(indice),
        ensures
            *r == self.node(indice),
    {
        let b = self.get_block(indice.block);
        &b[indice.index as usize]
    }

    /// The node `indice`, to change in place.
    #[inline]
    pub fn get_node_mut(&mut self, indice: ArenaNodeIndice) -> (r: &mut ArenaNode)
        requires
            old(self).wf(),
            old(self).valid(indice),
        ensures
            *r == old(self).node(indice),
            final(self).same_shape(old(self)),
            final(self).node(indice) == *final(r),
            forall|l: ArenaNodeIndice| old(self).placed(l) && l.block.block_size != indice.block.block_size ==> #[trigger] final(self).node(l) == old(self).node(l),
            forall|l: ArenaNodeIndice| old(self).placed(l) && l.block.block_size == indice.block.block_size && l.block.segment != indice.block.segment ==> #[trigger] final(self).node(l) == old(self).node(l),
            forall|l: ArenaNodeIndice| old(self).placed(l) && l.block.block_size == indice.block.block_size && l.block.segment == indice.block.segment && l != indice ==> #[trigger] final(self).node(l) == old(self).node(l),
    {
        let ghost k = indice.block.block_size as int;
        let ghost s = indice.block.segment as int;
        let kk = indice.block.block_size as usize;
        assert((indice.block.indice as usize) * kk <= 255 * 8) by (nonlinear_arith)
            requires indice.block.indice < 256, kk <= 8;
        let pos = (indice.block.indice as usize) * kk + indice.index as usize;
        proof {
            self.segs(k)[s].lemma_wf();
            lemma_slot_bounds(indice.block.indice as int, k, indice.index as int);
            assert forall|l: ArenaNodeIndice| self.placed(l) && l != indice && l.block.block_size == k && l.block.segment == s
                implies #[trigger] (l.block.indice * l.block.block_size + l.index) != pos
                    && 0 <= l.block.indice * l.block.block_size + l.index < self.segs(k)[s].slots().len() by {
                lemma_slot_distinct(l.block.indice as int, l.index as int, indice.block.indice as int, indice.index as int, k);
                lemma_slot_bounds(l.block.indice as int, k, l.index as int);
            }
        }
        &mut self.segments[kk - 1][indice.block.segment as usize].nodes[pos]
    }
}

impl Arena {
    /// A node of a block in use lies in an existing segment.
    pub proof fn lemma_placed(&self, l: ArenaNodeIndice)
        requires
            self.allocated(l.block),
            l.index < l.block.block_size,
        ensures
            self.placed(l),
            self.valid(l),
    {
    }

    pub proof fn lemma_same_shape_trans(a: &Arena, b: &Arena, c: &Arena)
        requires
            a.same_shape(b),
            b.same_shape(c),
        ensures
            a.same_shape(c),
    {
    }

    pub proof fn lemma_same_shape_refl(a: &Arena)
        ensures
            a.same_shape(a),
    {
    }

}

impl Arena {
    /// The segment number `segment` among those of blocks of `block_size` nodes.
    pub fn segment(&self, block_size: u8, segment: usize) -> (r: &ArenaSegment)
        requires
            self.wf(),
            1 <= block_size <= 8,
            segment < self.seg_count(block_size as int),
        ensures
            *r == self.segs(block_size as int)[segment as int],
            r.wf(),
    {
        &self.segments[(block_size - 1) as usize][segment]
    }

    /// The number of segments of blocks of `block_size` nodes.
    pub fn segment_count(&self, block_size: u8) -> (r: usize)
        requires
            self.wf(),
            1 <= block_size <= 8,
        ensures
            r == self.seg_count(block_size as int),
    {
        self.segments[(block_size - 1) as usize].len()
    }

    proof fn lemma_used_sum_step(segs: Seq<ArenaSegment>, s: int)
        requires
            0 <= s < segs.len(),
        ensures
            used_sum(segs.subrange(0, s + 1)) == used_sum(segs.subrange(0, s)) + 256 - segs[s].free_count(),
    {
        assert(segs.subrange(0, s + 1).drop_last() =~= segs.subrange(0, s));
    }

    /// The number of blocks in use, of all sizes.
    #[inline]
    pub fn count_nodes(&self) -> (r: usize)
        requires
            self.wf(),
        ensures
            r == self.used_blocks(),
            r <= 524288,
    {
        let ghost lists = Seq::new(8, |i: int| self.segments@[i]@);
        let mut total: usize = 0;
        let mut k: usize = 0;
        while k < 8
            invariant
                self.wf(),
                k <= 8,
                lists == Seq::new(8, |i: int| self.segments@[i]@),
                total == used_total(lists, k as int),
                total <= 65536 * k,
            decreases 8 - k,
        {
            let segs = &self.segments[k];
            let ghost sq = segs@;
            assert(sq == self.segs(k as int + 1));
            let mut sub: usize = 0;
            let mut s: usize = 0;
            while s < segs.len()
                invariant
                    self.wf(),
                    k < 8,
                    sq == segs@,
                    sq == self.segs(k as int + 1),
                    sq.len() <= 256,
                    s <= sq.len(),
                    sub == used_sum(sq.subrange(0, s as int)),
                    sub <= 256 * s,
                decreases sq.len() - s,
            {
                proof {
                    Self::lemma_used_sum_step(sq, s as int);
                    sq[s as int].lemma_wf();
                }
                let c = segs[s].count_nodes();
                sub = sub + c;
                s = s + 1;
            }
            proof {
                assert(sq.subrange(0, sq.len() as int) =~= sq);
                assert(lists[k as int] == sq);
            }
            total = total + sub;
            k = k + 1;
        }
        total
    }
}

/// The debug text of the first `n` segments of a list: each one's number
/// and text.
pub open spec fn segments_text(segs: Seq<ArenaSegment>, n: int) -> Seq<char>
    decreases n,
{
    if n <= 0 {
        Seq::empty()
    } else {
        segments_text(segs, n - 1) + decimal((n - 1) as nat) + ": \n"@ + segment_text(segs[n - 1])
    }
}

/// The debug text of the segments of the first `k` block sizes.
pub open spec fn sizes_text(a: Arena, k: int) -> Seq<char>
    decreases k,
{
    if k <= 0 {
        Seq::empty()
    } else {
        sizes_text(a, k - 1) + "-----Block sized "@ + decimal(k as nat) + "-----\n"@ + segments_text(a.segs(k), a.segs(k).len() as int)
    }
}

/// The debug text of an arena: its segments, size by size.
pub open spec fn arena_text(a: Arena) -> Seq<char> {
    "--------- Chunk Arena ----------\n"@ + sizes_text(a, 8) + "------- End Chunk Arena --------\n"@
}

impl Arena {
    /// The arena as text, for debugging: every segment of every block
    /// size, with its free slots.
    pub fn to_debug_string(&self) -> (r: String)
        requires
            self.wf(),
        ensures
            r@ == arena_text(*self),
    {
        let mut f = String::new();
        f.append("--------- Chunk Arena ----------\n");
        let ghost start = f@;
        let mut index: usize = 0;
        while index < 8
            invariant
                self.wf(),
                index <= 8,
                f@ == start + sizes_text(*self, index as int),
            decreases 8 - index,
        {
            let segments = &self.segments[index];
            proof {
                assert(segments@ == self.segs(index as int + 1));
            }
            f.append("-----Block sized ");
            append_decimal(&mut f, (index + 1) as u16);
            f.append("-----\n");
            let ghost head = f@;
            let mut s: usize = 0;
            while s < segments.len()
                invariant
                    self.wf(),
                    index < 8,
                    segments@ == self.segs(index as int + 1),
                    s <= segments@.len(),
                    segments@.len() <= 256,
                    f@ == head + segments_text(segments@, s as int),
                decreases segments@.len() - s,
            {
                let ghost before = f@;
                append_decimal(&mut f, s as u16);
                f.append(": \n");
                segments[s].append_debug(&mut f);
                proof {
                    assert(f@ =~= head + segments_text(segments@, s as int + 1));
                }
                s = s + 1;
            }
            proof {
                assert(f@ =~= start + sizes_text(*self, index as int + 1));
            }
            index = index + 1;
        }
        f.append("------- End Chunk Arena --------\n");
        proof {
            assert(f@ =~= arena_text(*self));
        }
        f
    }
}

} // verus!
