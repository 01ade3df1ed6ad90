use vstd::prelude::*;
use super::arena::{Arena, ArenaNode, ArenaNodeIndice};
use super::arena_realloc::{slot, rank, lemma_rank};
use super::bounds::Bounds;
use super::direction::Direction;
use super::index_path::IndexPath;
use super::node::Node;
use super::voxel::Voxel;
use super::walk::{
    shape, split_at, path_splits, lemma_path_splits_change, lemma_shape_data_change, lemma_realloc_shape, lemma_walk_none_extends,
    walk, sample_spec, tree_wf, depth_ok, lemma_realloc_depth, lemma_depth_ok_long, has_kids, child_at, strictly_below, lemma_walk_unique,
    lemma_parent_block, lemma_realloc_above, lemma_realloc_child, lemma_realloc_tree,
    lemma_data_change_tree, lemma_walk_from_leaf_root, lemma_sample_stop, lemma_walk_prefix,
    lemma_child_at, lemma_seq_push_drop, leaf_seq, leaf_steps, lemma_leaf_seq_reads,
    lemma_sample_data_change, lemma_realloc_child_sample, lemma_split_below,
};
use crate::util::bits::{bit8, ones8, lemma_count8_bound, lemma_zero_iff_no_bits, lemma_mask_bit};
use crate::util::tuple_strip::{IterUtil, TupleStrip, pairs_from};

verus! {

/// A cube of voxels stored as an octree: each node splits its cube into
/// eight octants, each either a voxel or a child node.
pub struct Chunk {
    pub arena: Arena,
    root_node: ArenaNodeIndice,
}

impl Chunk {
    pub closed spec fn wf(&self) -> bool {
        &&& tree_wf(&self.arena, self.root_node)
        &&& depth_ok(&self.arena, self.root_node)
    }

    /// The voxel that path `p` reads.
    pub closed spec fn value(&self, p: Seq<Direction>) -> Voxel {
        sample_spec(&self.arena, self.root_node, p)
    }

    /// Path `p` leads to a node of the tree.
    pub closed spec fn has_node(&self, p: Seq<Direction>) -> bool {
        walk(&self.arena, self.root_node, p) is Some
    }

    /// Where in the arena the node that path `p` leads to lies, if there is one.
    pub closed spec fn node_at(&self, p: Seq<Direction>) -> Option<ArenaNodeIndice> {
        walk(&self.arena, self.root_node, p)
    }

    /// The value of path `q` once `v` is written at path `p` into this
    /// chunk, making chunk `after`: `v` at `p`, and below `p` unless a node
    /// stood there; on a proper prefix of `p`, `v` where the write folded
    /// its node away, else what it read, or empty where the write had to
    /// create the node above it; on a path that parts from `p`, what it
    /// read if it parts at a node that stood there, else empty.
    pub open spec fn value_after_set(&self, after: &Chunk, p: Seq<Direction>, v: Voxel, q: Seq<Direction>) -> Voxel {
        if q == p || (strictly_below(p, q) && self.node_at(p) is None) {
            v
        } else if strictly_below(p, q) || q.len() == 0 || self.parts_at_node(p, q) {
            self.value(q)
        } else if strictly_below(q, p) {
            if after.node_at(q) is None {
                v
            } else if self.node_at(q.drop_last()) is Some {
                self.value(q)
            } else {
                Voxel::empty()
            }
        } else {
            Voxel::empty()
        }
    }

    /// A node stands at path `p`, with no children and eight octants that
    /// hold the same voxel: it could be folded into its parent's octant.
    pub open spec fn condensable_at(&self, p: Seq<Direction>) -> bool {
        match self.node_at(p) {
            Some(x) => {
                let n = self.arena_view().node(x);
                n.leaf_mask == 0 && forall|i: int| 0 <= i < 8 ==> #[trigger] n.data@[i] == n.data@[0]
            },
            None => false,
        }
    }

    /// Path `q` parts from path `p` at a node of the chunk: they agree up
    /// to some step, a node stands where that common part leads, and at
    /// that step they take different octants.
    pub open spec fn parts_at_node(&self, p: Seq<Direction>, q: Seq<Direction>) -> bool {
        exists|i: int| 0 <= i < q.len() && i < p.len() && q.subrange(0, i) == p.subrange(0, i) && q[i] != p[i]
            && #[trigger] self.node_at(p.subrange(0, i)) is Some
    }

    /// Every node outside the subtree at path `p`, but the one at `p`,
    /// stands where it stood in `before` and holds what it held.
    pub open spec fn keeps_nodes_outside(&self, before: &Chunk, p: Seq<Direction>) -> bool {
        forall|t: Seq<Direction>| !strictly_below(p, t) && t != p && #[trigger] before.node_at(t) is Some
            ==> self.node_at(t) == before.node_at(t)
                && self.arena_view().node(before.node_at(t).unwrap()) == before.arena_view().node(before.node_at(t).unwrap())
    }

    /// What the node at path `t` holds, as far as the tree goes: its
    /// children mask and its octants' voxels, if a node stands there.
    pub open spec fn shape_at(&self, t: Seq<Direction>) -> Option<(u8, [Voxel; 8])> {
        shape(&self.arena_view(), self.root_spec(), t)
    }

    /// How many of the proper prefixes of `p` (the empty path included)
    /// lead to a node with children.
    pub open spec fn splits_on(&self, p: Seq<Direction>) -> int {
        path_splits(&self.arena_view(), self.root_spec(), p, p.len() as int)
    }

    /// The value of path `q` once voxel `v` is written at path `p`: `v` at
    /// `p`, and below `p` where no node stands at `p`; elsewhere as before.
    pub open spec fn written(&self, p: Seq<Direction>, v: Voxel, q: Seq<Direction>) -> Voxel {
        if q == p || (strictly_below(p, q) && self.node_at(p) is None) {
            v
        } else {
            self.value(q)
        }
    }

    /// How many more blocks of `k` nodes the chunk's arena can hand out.
    pub closed spec fn capacity(&self, k: int) -> int {
        self.arena.capacity(k)
    }

    /// The number of blocks of nodes in use.
    pub closed spec fn blocks_in_use(&self) -> int {
        self.arena.used_blocks()
    }

    pub closed spec fn arena_view(&self) -> Arena {
        self.arena
    }

    pub closed spec fn root_spec(&self) -> ArenaNodeIndice {
        self.root_node
    }

    /// The leaves of the chunk in depth-first order: for each octant of
    /// the root, its child's leaves, else the octant itself.
    pub closed spec fn leaves(&self) -> Seq<(Seq<Direction>, Voxel, ArenaNodeIndice)> {
        leaf_seq(&self.arena, self.root_node, Seq::empty(), 0, 21)
    }

    /// A chunk whose every voxel is empty: a root node with no children.
    pub fn new() -> (r: Chunk)
        ensures
            r.wf(),
            forall|p: Seq<Direction>| p.len() > 0 ==> #[trigger] r.value(p) == Voxel::empty(),
            forall|p: Seq<Direction>| #[trigger] r.has_node(p) == (p.len() == 0),
            r.capacity(1) == 65535,
            forall|k: int| 2 <= k <= 8 ==> #[trigger] r.capacity(k) == 65536,
            r.blocks_in_use() == 1,
            r.no_leak(),
            forall|t: Seq<Direction>| t.len() > 0 ==> !#[trigger] r.condensable_at(t),
    {
        let mut arena = Arena::new();
        let root_node = arena.allocate(1).child(0);
        let r = Chunk { arena, root_node };
        proof {
            let a = &r.arena;
            assert(a.node(root_node) == ArenaNode::empty());
            a.lemma_placed(root_node);
            assert forall|t: Seq<Direction>| t.len() > 0 implies #[trigger] walk(a, root_node, t) is None by {
                lemma_walk_from_leaf_root(a, root_node, t);
            }
            assert forall|t: Seq<Direction>| #[trigger] walk(a, root_node, t) is Some implies t.len() == 0 by {}
            assert(walk(a, root_node, Seq::<Direction>::empty()) == Some(root_node));
            assert forall|t: Seq<Direction>| t.len() == 21 implies #[trigger] walk(a, root_node, t) is None by {}
            assert forall|p: Seq<Direction>| #[trigger] r.has_node(p) == (p.len() == 0) by {
                if p.len() == 0 {
                    assert(walk(a, root_node, p) == Some(root_node));
                }
            }
            assert forall|t: Seq<Direction>| #[trigger] walk(a, root_node, t) is Some implies {
                let n = walk(a, root_node, t).unwrap();
                &&& a.valid(n)
                &&& has_kids(a, n) ==> a.allocated(a.node(n).child_block())
                &&& has_kids(a, n) ==> a.node(n).child_block() != root_node.block
            } by {
                assert(t.len() == 0);
            }
            assert forall|p: Seq<Direction>| p.len() > 0 implies #[trigger] r.value(p) == Voxel::empty() by {
                lemma_sample_stop(a, root_node, p, 0);
                assert(p.subrange(0, 0) =~= Seq::<Direction>::empty());
                if 1 < p.len() {
                    lemma_walk_from_leaf_root(a, root_node, p.subrange(0, 1));
                }
                Direction::lemma_of_index_bits(p[0]);
            }
        }
        proof {
            let a = &r.arena;
            assert(r.split_paths() =~= Set::<Seq<Direction>>::empty()) by {
                assert forall|t: Seq<Direction>| !#[trigger] r.split_paths().contains(t) by {
                    if walk(a, root_node, t) is Some {
                        assert(t.len() == 0);
                        assert(t =~= Seq::<Direction>::empty());
                    }
                }
            }
            assert forall|t: Seq<Direction>| t.len() > 0 implies !#[trigger] r.condensable_at(t) by {
                assert(!r.has_node(t));
            }
        }
        r
    }

    /// The root node: the whole cube.
    pub fn root(&self) -> (r: Node)
        ensures
            r.index_path@ == Seq::<Direction>::empty(),
            r.voxel == Voxel::empty(),
            r.parent_node is None,
            r.arena_node == Some(self.root_spec()),
            r.bounds == Bounds::whole(),
            r.in_chunk(self),
    {
        Node {
            index_path: IndexPath::empty(),
            voxel: Voxel::new(0), // the average of the root node is not kept
            parent_node: None,
            arena_node: Some(self.root_node),
            bounds: Bounds::new(),
        }
    }

    /// The voxel that `path` reads: the octant of its last step in the
    /// node its other steps lead to, or, where the tree ends earlier, the
    /// octant of the first step that has no child.
    pub fn sample(&self, path: IndexPath) -> (r: Voxel)
        requires
            self.wf(),
            path@.len() > 0,
        ensures
            r == self.value(path@),
    {
        let ghost p = path@;
        let mut current = path;
        let mut node_index = self.root_node;
        let ghost mut j: int = 0;
        proof {
            assert(p.subrange(0, 0) =~= Seq::<Direction>::empty());
            assert(p.subrange(0, p.len() as int) =~= p);
        }
        loop
            invariant
                tree_wf(&self.arena, self.root_node),
                p == path@,
                0 <= j < p.len(),
                current@ == p.subrange(j, p.len() as int),
                walk(&self.arena, self.root_node, p.subrange(0, j)) == Some(node_index),
            decreases p.len() - j,
        {
            // Strip the top most path element
            let dir = current.peek();
            current = current.pop();
            proof {
                self.arena.lemma_wf();
                assert(self.arena.valid(node_index));
                assert(dir == p[j]);
                assert(current@ =~= p.subrange(j + 1, p.len() as int));
            }
            let node = self.arena.get_node(node_index);
            let d = dir.to_u8();
            if current.is_empty() {
                // If this is the final path: get the leaf
                proof {
                    assert(p.drop_last() =~= p.subrange(0, j));
                    assert(p.last() == dir);
                }
                return node.data[d as usize];
            } else if let Some(child) = node.child_on_dir(d) {
                // If there is already a child there
                proof {
                    let q = p.subrange(0, j + 1);
                    assert(q.drop_last() =~= p.subrange(0, j));
                    assert(q.last() == dir);
                    j = j + 1;
                    assert(current@ =~= p.subrange(j, p.len() as int));
                }
                node_index = child;
            } else {
                proof {
                    let q = p.subrange(0, j + 1);
                    assert(q.drop_last() =~= p.subrange(0, j));
                    assert(q.last() == dir);
                    lemma_sample_stop(&self.arena, self.root_node, p, j);
                }
                return node.data[d as usize];
            }
        }
    }
}

/// Two paths neither of which is a prefix of the other part at some step:
/// they agree before it and take different octants there.
proof fn lemma_first_diff(p: Seq<Direction>, q: Seq<Direction>) -> (i: int)
    requires
        q != p,
        !strictly_below(p, q),
        !strictly_below(q, p),
    ensures
        0 <= i < q.len(),
        i < p.len(),
        q.subrange(0, i) == p.subrange(0, i),
        q[i] != p[i],
    decreases q.len(),
{
    if q.len() == 0 {
        if p.len() == 0 {
            assert(q =~= p);
        }
        assert(strictly_below(q, p)) by {
            assert(p.subrange(0, 0) =~= q);
        }
        0
    } else if p.len() == 0 {
        assert(strictly_below(p, q)) by {
            assert(q.subrange(0, 0) =~= p);
        }
        0
    } else if q[0] != p[0] {
        assert(q.subrange(0, 0) =~= p.subrange(0, 0));
        0
    } else {
        let q1 = q.drop_first();
        let p1 = p.drop_first();
        assert(q1 != p1) by {
            if q1 == p1 {
                assert(q =~= seq![q[0]] + q1);
                assert(p =~= seq![p[0]] + p1);
            }
        }
        assert(!strictly_below(p1, q1)) by {
            if strictly_below(p1, q1) {
                assert(q.subrange(0, p.len() as int) =~= seq![q[0]] + q1.subrange(0, p1.len() as int));
                assert(p =~= seq![p[0]] + p1);
            }
        }
        assert(!strictly_below(q1, p1)) by {
            if strictly_below(q1, p1) {
                assert(p.subrange(0, q.len() as int) =~= seq![p[0]] + p1.subrange(0, q1.len() as int));
                assert(q =~= seq![q[0]] + q1);
            }
        }
        let j = lemma_first_diff(p1, q1);
        assert(q.subrange(0, j + 1) =~= seq![q[0]] + q1.subrange(0, j));
        assert(p.subrange(0, j + 1) =~= seq![p[0]] + p1.subrange(0, j));
        j + 1
    }
}

/// A path that parts from `p` at a node holding only empty voxels, whose
/// only child is on `p`'s octant, reads empty.
proof fn lemma_created_reads_empty(a: &Arena, root: ArenaNodeIndice, p: Seq<Direction>, i: int, x: ArenaNodeIndice, q: Seq<Direction>)
    requires
        0 <= i < p.len(),
        i < q.len(),
        q.subrange(0, i) == p.subrange(0, i),
        q[i] != p[i],
        walk(a, root, p.subrange(0, i)) == Some(x),
        forall|e: int| 0 <= e < 8 ==> #[trigger] a.node(x).data@[e] == Voxel::empty(),
        forall|e: int| 0 <= e < 8 && e != p[i].bits() ==> !#[trigger] bit8(a.node(x).leaf_mask, e),
    ensures
        sample_spec(a, root, q) == Voxel::empty(),
{
    let e = q[i];
    Direction::lemma_of_index_bits(e);
    Direction::lemma_of_index_bits(p[i]);
    if e.bits() == p[i].bits() {
        assert(Direction::of_index(e.bits() as int) == Direction::of_index(p[i].bits() as int));
    }
    if i + 1 < q.len() {
        assert(q.subrange(0, i + 1) =~= q.subrange(0, i).push(e));
        lemma_seq_push_drop(q.subrange(0, i), e);
        assert(walk(a, root, q.subrange(0, i + 1)) == child_at(a, x, e));
    }
    lemma_sample_stop(a, root, q, i);
}

/// A node of a well-formed tree never holds its own children.
proof fn lemma_not_own_children(a: &Arena, root: ArenaNodeIndice, s: Seq<Direction>)
    requires
        tree_wf(a, root),
        walk(a, root, s) is Some,
    ensures
        has_kids(a, walk(a, root, s).unwrap()) ==> a.allocated(a.node(walk(a, root, s).unwrap()).child_block())
            && walk(a, root, s).unwrap().block != a.node(walk(a, root, s).unwrap()).child_block(),
        a.valid(walk(a, root, s).unwrap()),
{
    let ls = walk(a, root, s).unwrap();
    if has_kids(a, ls) && ls.block == a.node(ls).child_block() {
        lemma_parent_block(a, root, s, s);
    }
}

/// The prefixes of `p` up to its `j`-th step keep their nodes when the
/// node at that step is reallocated.
proof fn lemma_realloc_prefixes(a: &Arena, a2: &Arena, root: ArenaNodeIndice, p: Seq<Direction>, j: int, ls: ArenaNodeIndice, fm: u8)
    requires
        tree_wf(a, root),
        0 <= j <= p.len(),
        walk(a, root, p.subrange(0, j)) == Some(ls),
        Arena::realloc_effect(a, a2, ls, fm),
    ensures
        forall|k: int| 0 <= k <= j ==> #[trigger] walk(a2, root, p.subrange(0, k)) == walk(a, root, p.subrange(0, k)),
{
    assert forall|k: int| 0 <= k <= j implies #[trigger] walk(a2, root, p.subrange(0, k)) == walk(a, root, p.subrange(0, k)) by {
        lemma_realloc_above(a, a2, root, p.subrange(0, j), ls, fm, p.subrange(0, k));
    }
}

/// Walking one more step of `p` is a step to a child.
proof fn lemma_walk_step(a: &Arena, root: ArenaNodeIndice, p: Seq<Direction>, j: int)
    requires
        0 <= j < p.len(),
    ensures
        walk(a, root, p.subrange(0, j + 1)) == (match walk(a, root, p.subrange(0, j)) {
            Some(m) => child_at(a, m, p[j]),
            None => None,
        }),
{
    let q = p.subrange(0, j + 1);
    assert(q.drop_last() =~= p.subrange(0, j));
    assert(q.last() == p[j]);
}

/// Giving the node at `p[..j]` a new child on octant `p[j]` keeps the
/// shape of every node off the proper prefixes of `p`; one more of those
/// prefixes has children, unless the node had some already.
proof fn lemma_grow_shape(a: &Arena, a2: &Arena, root: ArenaNodeIndice, p: Seq<Direction>, j: int, ls: ArenaNodeIndice, nm: u8)
    requires
        tree_wf(a, root),
        0 <= j,
        j + 1 < p.len(),
        walk(a, root, p.subrange(0, j)) == Some(ls),
        walk(a, root, p.subrange(0, j + 1)) is None,
        Arena::realloc_effect(a, a2, ls, nm),
        forall|e: int| 0 <= e < 8 ==> #[trigger] bit8(nm, e) == (e == p[j].bits() || bit8(a.node(ls).leaf_mask, e)),
        nm != 0,
    ensures
        forall|t: Seq<Direction>| !strictly_below(t, p) ==> #[trigger] shape(a2, root, t) == shape(a, root, t),
        path_splits(a2, root, p, p.len() as int) - path_splits(a, root, p, p.len() as int)
            == 1 - (if a.node(ls).leaf_mask != 0 { 1int } else { 0int }),
{
    let s = p.subrange(0, j);
    let d = p[j];
    let db = d.bits() as int;
    let om = a.node(ls).leaf_mask;
    Direction::lemma_of_index_bits(d);
    lemma_walk_step(a, root, p, j);
    assert(!bit8(om, db)) by {
        if bit8(om, db) {
            lemma_zero_iff_no_bits(om);
            assert(child_at(a, ls, d) is Some);
        }
    }
    assert forall|t: Seq<Direction>| !strictly_below(t, p) implies #[trigger] shape(a2, root, t) == shape(a, root, t) by {
        lemma_realloc_shape(a, a2, root, s, ls, nm, t);
        if t == s {
            assert(strictly_below(t, p));
        }
        if strictly_below(s, t) {
            let e = t[j].bits() as int;
            Direction::lemma_of_index_bits(t[j]);
            if e == db {
                assert(t[j] == d);
                if t.len() == j + 1 {
                    assert(t =~= p.subrange(0, j + 1));
                    assert(strictly_below(t, p));
                }
            }
        }
    }
    assert forall|k: int| 0 <= k < p.len() && k != j implies
        #[trigger] split_at(a2, root, p.subrange(0, k)) == split_at(a, root, p.subrange(0, k)) by {
        let t = p.subrange(0, k);
        lemma_realloc_shape(a, a2, root, s, ls, nm, t);
        if k > j {
            assert(strictly_below(s, t)) by {
                assert(t.subrange(0, j) =~= s);
            }
            assert(t[j] == d);
            if k > j + 1 {
                if walk(a, root, t) is Some {
                    lemma_walk_prefix(a, root, t, j + 1);
                    assert(t.subrange(0, j + 1) =~= p.subrange(0, j + 1));
                }
            }
        } else {
            assert(!strictly_below(s, t));
            assert(t != s) by {
                if t == s { assert(t.len() == j); }
            }
        }
    }
    lemma_path_splits_change(a, a2, root, p, p.len() as int, j);
    lemma_realloc_shape(a, a2, root, s, ls, nm, s);
}

/// Folding the childless node at `p[..i+1]` into its parent at `p[..i]`
/// (the parent's octant data changed first, then its child dropped) keeps
/// the shape of every node off the proper prefixes of `p`; the parent
/// stops counting as a node with children if that was its last child.
proof fn lemma_fold_shape(a: &Arena, a1: &Arena, a2: &Arena, root: ArenaNodeIndice, p: Seq<Direction>, i: int, lp: ArenaNodeIndice, lc: ArenaNodeIndice, nm: u8)
    requires
        tree_wf(a, root),
        tree_wf(a1, root),
        0 <= i,
        i + 1 < p.len(),
        walk(a, root, p.subrange(0, i)) == Some(lp),
        walk(a, root, p.subrange(0, i + 1)) == Some(lc),
        a.node(lc).leaf_mask == 0,
        a.valid(lp),
        a1.same_shape(a),
        a.wf(),
        a1.node(lp).leaf_mask == a.node(lp).leaf_mask,
        a1.node(lp).children_index_segment == a.node(lp).children_index_segment,
        a1.node(lp).children_index_indice == a.node(lp).children_index_indice,
        forall|l: ArenaNodeIndice| a.placed(l) && l != lp ==> #[trigger] a1.node(l) == a.node(l),
        Arena::realloc_effect(a1, a2, lp, nm),
        forall|e: int| 0 <= e < 8 ==> #[trigger] bit8(nm, e) == (e != p[i].bits() && bit8(a.node(lp).leaf_mask, e)),
    ensures
        forall|t: Seq<Direction>| !strictly_below(t, p) ==> #[trigger] shape(a2, root, t) == shape(a, root, t),
        path_splits(a2, root, p, p.len() as int) - path_splits(a, root, p, p.len() as int)
            == (if nm != 0 { 1int } else { 0int }) - 1,
{
    let s = p.subrange(0, i);
    let c = p.subrange(0, i + 1);
    let d = p[i];
    let db = d.bits() as int;
    Direction::lemma_of_index_bits(d);
    lemma_walk_step(a, root, p, i);
    lemma_child_at(a, lp, d);
    assert(s != c) by { assert(s.len() != c.len()); }
    lemma_walk_unique(a, root, s, c);
    lemma_shape_data_change(a, a1, root, lp, s);
    lemma_shape_data_change(a, a1, root, lp, c);
    assert(a1.node(lc) == a.node(lc)) by {
        a.lemma_wf();
        a.lemma_placed(lc);
    }
    // Nothing below the folded node.
    assert forall|r: Seq<Direction>| r.len() > 0 implies #[trigger] walk(a1, root, c + r) is None by {
        let x = r[0];
        assert(child_at(a1, lc, x) is None) by {
            if child_at(a1, lc, x) is Some {
                lemma_child_at(a1, lc, x);
                lemma_zero_iff_no_bits(0u8);
            }
        }
        lemma_seq_push_drop(c, x);
        assert(walk(a1, root, c.push(x)) is None);
        lemma_walk_none_extends(a1, root, c.push(x), r.subrange(1, r.len() as int));
        assert(c.push(x) + r.subrange(1, r.len() as int) =~= c + r);
    }
    assert forall|t: Seq<Direction>| !strictly_below(t, p) implies #[trigger] shape(a2, root, t) == shape(a, root, t) by {
        lemma_shape_data_change(a, a1, root, lp, t);
        if walk(a, root, t) == Some(lp) {
            lemma_walk_unique(a, root, t, s);
            assert(strictly_below(t, p));
        }
        lemma_realloc_shape(a1, a2, root, s, lp, nm, t);
        if t == s {
            assert(strictly_below(t, p));
        }
        if strictly_below(s, t) {
            let e = t[i].bits() as int;
            Direction::lemma_of_index_bits(t[i]);
            if e == db {
                assert(t[i] == d);
                if t.len() == i + 1 {
                    assert(t =~= c);
                    assert(strictly_below(t, p));
                } else {
                    let r = t.subrange(i + 1, t.len() as int);
                    assert(t =~= c + r);
                    assert(walk(a1, root, c + r) is None);
                    assert(walk(a, root, t) is None);
                }
            }
        }
    }
    assert forall|k: int| 0 <= k < p.len() && k != i implies
        #[trigger] split_at(a2, root, p.subrange(0, k)) == split_at(a1, root, p.subrange(0, k)) by {
        let t = p.subrange(0, k);
        lemma_shape_data_change(a, a1, root, lp, t);
        lemma_realloc_shape(a1, a2, root, s, lp, nm, t);
        if k > i {
            assert(strictly_below(s, t)) by {
                assert(t.subrange(0, i) =~= s);
            }
            assert(t[i] == d);
            if k > i + 1 {
                let r = t.subrange(i + 1, k);
                assert(t =~= c + r);
                assert(walk(a1, root, c + r) is None);
            } else {
                assert(t =~= c);
            }
        } else {
            assert(!strictly_below(s, t));
            assert(t != s) by {
                if t == s { assert(t.len() == i); }
            }
            if walk(a, root, t) == Some(lp) {
                lemma_walk_unique(a, root, t, s);
            }
        }
    }
    lemma_path_splits_change(a1, a2, root, p, p.len() as int, i);
    assert forall|k: int| 0 <= k < p.len() && k != -1 implies
        #[trigger] split_at(a1, root, p.subrange(0, k)) == split_at(a, root, p.subrange(0, k)) by {
        lemma_shape_data_change(a, a1, root, lp, p.subrange(0, k));
    }
    lemma_path_splits_change(a, a1, root, p, p.len() as int, -1);
    lemma_realloc_shape(a1, a2, root, s, lp, nm, s);
}


impl Chunk {
    /// Sets octant `dir` of node `x`, which path `p` without its last step leads to.
    pub(crate) fn set_leaf(&mut self, x: ArenaNodeIndice, dir: Direction, voxel: Voxel, Ghost(p): Ghost<Seq<Direction>>)
        requires
            old(self).wf(),
            p.len() > 0,
            p.last() == dir,
            old(self).node_at(p.drop_last()) == Some(x),
        ensures
            final(self).wf(),
            final(self).root_spec() == old(self).root_spec(),
            forall|t: Seq<Direction>| #[trigger] final(self).node_at(t) == old(self).node_at(t),
            final(self).value(p) == voxel,
            final(self).arena_view().node(x).data@[dir.bits() as int] == voxel,
            forall|k: int| 1 <= k <= 8 ==> #[trigger] final(self).capacity(k) == old(self).capacity(k),
            forall|q: Seq<Direction>| #[trigger] final(self).value(q) == old(self).written(p, voxel, q),
            forall|t: Seq<Direction>| t != p.drop_last() ==> #[trigger] final(self).shape_at(t) == old(self).shape_at(t),
            forall|t: Seq<Direction>| #[trigger] split_at(&final(self).arena_view(), final(self).root_spec(), t)
                == split_at(&old(self).arena_view(), old(self).root_spec(), t),
            final(self).blocks_in_use() == old(self).blocks_in_use(),
    {
        let ghost a = self.arena;
        proof {
            lemma_not_own_children(&a, self.root_node, p.drop_last());
        }
        self.arena.get_node_mut(x).set_on_dir(dir.to_u8(), voxel);
        proof {
            lemma_data_change_tree(&a, &self.arena, self.root_node, x);
            self.arena.lemma_same_shape(&a);
            lemma_seq_push_drop(p.drop_last(), dir);
            assert(p.drop_last().push(dir) == p) by {
                assert(p.drop_last().push(p.last()) =~= p);
            }
            assert forall|q: Seq<Direction>| #[trigger] self.value(q) == old(self).written(p, voxel, q) by {
                lemma_sample_data_change(&a, &self.arena, self.root_node, x, p.drop_last(), dir, voxel, q);
            }
            assert forall|t: Seq<Direction>| t != p.drop_last() implies #[trigger] self.shape_at(t) == old(self).shape_at(t) by {
                lemma_shape_data_change(&a, &self.arena, self.root_node, x, t);
                if walk(&a, self.root_node, t) == Some(x) {
                    lemma_walk_unique(&a, self.root_node, t, p.drop_last());
                }
            }
            assert forall|t: Seq<Direction>| #[trigger] split_at(&self.arena, self.root_node, t) == split_at(&a, self.root_node, t) by {
                lemma_shape_data_change(&a, &self.arena, self.root_node, x, t);
            }
        }
    }

    /// Starting from the cube that path `p` ends in, and going up: while the
    /// node of the current level has no children and all its octants hold
    /// the same voxel, puts that voxel in its parent's octant and drops the
    /// node.
    #[verifier::spinoff_prover]
    fn condense_path(&mut self, stack: Vec<(ArenaNodeIndice, Direction)>, voxel: Voxel, Ghost(p): Ghost<Seq<Direction>>, Ghost(base): Ghost<Chunk>)
        requires
            old(self).wf(),
            p.len() > 0,
            stack@.len() == p.len(),
            forall|k: int| 0 <= k < p.len() ==> walk(&old(self).arena, old(self).root_node, p.subrange(0, k)) == Some(#[trigger] stack@[k].0)
                && stack@[k].1 == p[k],
            old(self).value(p) == voxel,
            old(self).arena.node(stack@[p.len() - 1].0).data@[p[p.len() - 1].bits() as int] == voxel,
            forall|k: int| 1 <= k <= 8 ==> #[trigger] old(self).capacity(k) >= p.len() - 1,
            forall|q: Seq<Direction>| #[trigger] old(self).value(q) == base.value_after_set(&*old(self), p, voxel, q),
            base.node_at(p) is Some ==> old(self).node_at(p) is Some,
        ensures
            final(self).wf(),
            final(self).value(p) == voxel,
            forall|k: int| 1 <= k <= 8 ==> #[trigger] final(self).capacity(k) >= old(self).capacity(k) - (p.len() - 1),
            forall|q: Seq<Direction>| old(self).parts_at_node(p, q) ==> #[trigger] final(self).value(q) == old(self).value(q),
            forall|k: int| 1 <= k < p.len() ==> !#[trigger] final(self).condensable_at(p.subrange(0, k)),
            forall|q: Seq<Direction>| #[trigger] final(self).value(q) == base.value_after_set(&*final(self), p, voxel, q),
            forall|t: Seq<Direction>| !strictly_below(t, p) ==> #[trigger] final(self).shape_at(t) == old(self).shape_at(t),
            final(self).blocks_in_use() - final(self).splits_on(p) == old(self).blocks_in_use() - old(self).splits_on(p),
    {
        let ghost n = p.len() as int;
        let ghost orig = *self;
        let mut rev: Vec<(ArenaNodeIndice, Direction)> = Vec::new();
        let mut k = stack.len();
        while k > 0
            invariant
                k <= stack@.len(),
                stack@.len() == n,
                rev@.len() == n - k,
                forall|m: int| 0 <= m < n - k ==> #[trigger] rev@[m] == stack@[n - 1 - m],
            decreases k,
        {
            k = k - 1;
            rev.push(stack[k]);
        }
        let mut pairs = rev.tuple_strip();
        let ghost rv = pairs.source();
        let ghost mut m: int = 0;
        loop
            invariant
                pairs.wf(),
                pairs.source() == rv,
                rv.len() == n,
                n == p.len(),
                stack@.len() == n,
                forall|i: int| 0 <= i < n ==> #[trigger] rv[i] == stack@[n - 1 - i],
                pairs.remaining() == pairs_from(rv, m),
                0 <= m <= n - 1,
                self.wf(),
                *old(self) == orig,
                self.root_node == orig.root_node,
                forall|k: int| 0 <= k <= n - 1 - m ==> walk(&self.arena, self.root_node, p.subrange(0, k)) == Some(#[trigger] stack@[k].0)
                    && stack@[k].1 == p[k],
                self.value(p) == voxel,
                self.arena.node(stack@[n - 1 - m].0).data@[p[n - 1 - m].bits() as int] == voxel,
                forall|k: int| 1 <= k <= 8 ==> #[trigger] self.capacity(k) >= orig.capacity(k) - m,
                forall|k: int| 1 <= k <= 8 ==> #[trigger] orig.capacity(k) >= n - 1,
                forall|q: Seq<Direction>| orig.parts_at_node(p, q) ==> #[trigger] self.value(q) == orig.value(q),
                forall|k: int| n - 1 - m < k < n ==> #[trigger] walk(&self.arena, self.root_node, p.subrange(0, k)) is None,
                forall|q: Seq<Direction>| #[trigger] self.value(q) == base.value_after_set(&*self, p, voxel, q),
                base.node_at(p) is Some ==> m == 0 && self.node_at(p) is Some,
                forall|t: Seq<Direction>| !strictly_below(t, p) ==> #[trigger] self.shape_at(t) == orig.shape_at(t),
                self.blocks_in_use() - self.splits_on(p) == orig.blocks_in_use() - orig.splits_on(p),
            decreases n - 1 - m,
        {
            match pairs.next() {
                Some(pair) => {
                    let ((current_index, _), (parent_index, dir)) = pair;
                    let ghost l = n - 1 - m;
                    let ghost i = l - 1;
                    let ghost a = self.arena;
                    let ghost s0 = *self;
                    let ghost root = self.root_node;
                    proof {
                        assert(pairs_from(rv, m).len() > 0);
                        assert(m < n - 1);
                        assert(current_index == stack@[l].0);
                        assert(parent_index == stack@[i].0);
                        assert(dir == p[i]);
                        lemma_not_own_children(&a, root, p.subrange(0, l));
                        lemma_not_own_children(&a, root, p.subrange(0, i));
                        a.lemma_wf();
                    }
                    let current_node = self.arena.get_node(current_index);
                    if !current_node.is_condensable() {
                        proof {
                            assert forall|k: int| 1 <= k < n implies !#[trigger] self.condensable_at(p.subrange(0, k)) by {
                                if k < l {
                                    lemma_walk_step(&a, root, p, k);
                                    lemma_walk_prefix(&a, root, p.subrange(0, l), k + 1);
                                    assert(p.subrange(0, l).subrange(0, k + 1) =~= p.subrange(0, k + 1));
                                    lemma_child_at(&a, stack@[k].0, p[k]);
                                } else if k > l {
                                    assert(walk(&a, root, p.subrange(0, k)) is None);
                                }
                            }
                        }
                        return;
                    }
                    let voxel2 = current_node.data[1]; // Direction::FrontRightBottom; every octant holds it
                    proof {
                        Direction::lemma_of_index_bits(p[l]);
                        assert(voxel2 == voxel);
                        // The sample of `p` stops at the current node, which has no children.
                        lemma_zero_iff_no_bits(0u8);
                        if l + 1 < n {
                            lemma_walk_step(&a, root, p, l);
                        }
                        lemma_sample_stop(&a, root, p, l);
                        lemma_walk_step(&a, root, p, i);
                        assert(p.subrange(0, l) == p.subrange(0, i + 1));
                        lemma_child_at(&a, parent_index, dir);
                        lemma_walk_unique(&a, root, p.subrange(0, l), p.subrange(0, i));
                    }
                    let d = dir.to_u8();
                    let parent_node = self.arena.get_node_mut(parent_index);
                    parent_node.set_on_dir(d, voxel2);
                    let old_mask = parent_node.leaf_mask;
                    let new_mask = old_mask & !(1u8 << d);
                    let ghost a1 = self.arena;
                    proof {
                        lemma_data_change_tree(&a, &a1, root, parent_index);
                        a1.lemma_same_shape(&a);
                        lemma_mask_bit(old_mask, d);
                        lemma_not_own_children(&a1, root, p.subrange(0, i));
                        a1.lemma_wf();
                        if new_mask != 0 {
                            lemma_count8_bound(new_mask, 0, 8);
                            lemma_zero_iff_no_bits(new_mask);
                            let x = ones8(new_mask) as int;
                            assert(1 <= x <= 8);
                            assert(s0.capacity(x) >= orig.capacity(x) - m);
                            assert(orig.capacity(x) >= n - 1);
                            assert(a1.capacity(x) == a.capacity(x));
                        }
                    }
                    self.arena.realloc(parent_index, new_mask);
                    proof {
                        let a2 = self.arena;
                        lemma_realloc_tree(&a1, &a2, root, p.subrange(0, i), parent_index, new_mask);
                        lemma_realloc_depth(&a1, &a2, root, p.subrange(0, i), parent_index, new_mask);
                        lemma_realloc_prefixes(&a1, &a2, root, p, i, parent_index, new_mask);
                        assert(!bit8(new_mask, d as int));
                        lemma_realloc_child(&a1, &a2, root, p.subrange(0, i), parent_index, new_mask, dir, Seq::empty());
                        assert(p.subrange(0, i).push(dir) + Seq::<Direction>::empty() =~= p.subrange(0, i + 1));
                        lemma_sample_stop(&a2, root, p, i);
                        assert(a2.node(parent_index).data == a1.node(parent_index).data);
                        assert forall|k: int| 0 <= k <= n - 1 - (m + 1) implies walk(&a2, root, p.subrange(0, k)) == Some(#[trigger] stack@[k].0)
                            && stack@[k].1 == p[k] by {
                            assert(k <= n - 1 - m);
                            assert(walk(&a, root, p.subrange(0, k)) == Some(stack@[k].0) && stack@[k].1 == p[k]);
                            assert(walk(&a2, root, p.subrange(0, k)) == walk(&a1, root, p.subrange(0, k)));
                            assert(walk(&a1, root, p.subrange(0, k)) == walk(&a, root, p.subrange(0, k)));
                        }
                        assert forall|k: int| 1 <= k <= 8 implies #[trigger] self.capacity(k) >= orig.capacity(k) - (m + 1) by {
                            assert(a1.capacity(k) == a.capacity(k));
                            assert(s0.capacity(k) >= orig.capacity(k) - m);
                            assert(a2.capacity(k) >= a1.capacity(k) - 1);
                        }
                        let cur = p.subrange(0, l);
                        let par = p.subrange(0, i);
                        assert(cur == par.push(dir)) by {
                            assert(par.push(dir) =~= cur);
                        }
                        assert(forall|e: int| 0 <= e < 8 ==> #[trigger] a.node(current_index).data@[e] == voxel2);
                        assert forall|q: Seq<Direction>| orig.parts_at_node(p, q) implies #[trigger] self.value(q) == orig.value(q) by {
                            let w = choose|w: int| 0 <= w < q.len() && w < p.len() && q.subrange(0, w) == p.subrange(0, w) && q[w] != p[w]
                                && #[trigger] orig.node_at(p.subrange(0, w)) is Some;
                            assert(q != cur) by {
                                if q == cur {
                                    assert(q[w] == p[w]);
                                }
                            }
                            assert(walk(&a, root, cur) == Some(current_index));
                            assert(walk(&a, root, par) == Some(parent_index));
                            assert(s0.value(q) == orig.value(q));
                            lemma_sample_data_change(&a, &a1, root, parent_index, par, dir, voxel2, q);
                            assert(sample_spec(&a1, root, q) == sample_spec(&a, root, q));
                            lemma_drop_child_sample(&a1, &a2, root, par, parent_index, dir, q);
                            if strictly_below(cur, q) {
                                lemma_uniform_below(&a, root, cur, current_index, voxel2, q);
                                lemma_seq_push_drop(par, dir);
                                assert(sample_spec(&a1, root, cur) == voxel2);
                            }
                        }
                        assert forall|k: int| n - 1 - (m + 1) < k < n implies #[trigger] walk(&a2, root, p.subrange(0, k)) is None by {
                            if k > l {
                                assert(walk(&a, root, p.subrange(0, k)) is None);
                            }
                            lemma_realloc_child(&a1, &a2, root, par, parent_index, new_mask, dir, p.subrange(l, k));
                            assert(par.push(dir) + p.subrange(l, k) =~= p.subrange(0, k));
                        }
                        // The write's values: only the folded node's own path
                        // and the paths below it change, to what they already
                        // read through it.
                        assert(base.node_at(p) is None) by {
                            if base.node_at(p) is Some {
                                assert(s0.node_at(p) is Some);
                                assert(l == n - 1);
                                lemma_walk_step(&a, root, p, l);
                                assert(p.subrange(0, n) =~= p);
                                lemma_child_at(&a, current_index, p[l]);
                            }
                        }
                        assert forall|q: Seq<Direction>| #[trigger] self.value(q) == base.value_after_set(&*self, p, voxel, q) by {
                            assert(walk(&a, root, cur) == Some(current_index));
                            assert(walk(&a, root, par) == Some(parent_index));
                            assert(s0.value(q) == base.value_after_set(&s0, p, voxel, q));
                            lemma_sample_data_change(&a, &a1, root, parent_index, par, dir, voxel2, q);
                            lemma_drop_child_sample(&a1, &a2, root, par, parent_index, dir, q);
                            assert(strictly_below(cur, p)) by {
                                assert(p.subrange(0, l) =~= cur);
                            }
                            if q == cur {
                                assert(!base.parts_at_node(p, q)) by {
                                    if base.parts_at_node(p, q) {
                                        let w = choose|w: int| 0 <= w < q.len() && w < p.len() && q.subrange(0, w) == p.subrange(0, w) && q[w] != p[w]
                                            && #[trigger] base.node_at(p.subrange(0, w)) is Some;
                                        assert(q[w] == p[w]);
                                    }
                                }
                                lemma_seq_push_drop(par, dir);
                                assert(self.node_at(q) is None);
                            } else if strictly_below(cur, q) {
                                lemma_uniform_below(&a, root, cur, current_index, voxel2, q);
                                if strictly_below(q, p) {
                                    let k = q.len() as int;
                                    assert(q == p.subrange(0, k)) by {
                                        assert(p.subrange(0, k) =~= q);
                                    }
                                    assert(walk(&a, root, p.subrange(0, k)) is None);
                                    assert(walk(&a2, root, p.subrange(0, k)) is None);
                                }
                            } else {
                                assert(sample_spec(&a1, root, q) == sample_spec(&a, root, q));
                                if strictly_below(q, p) {
                                    let k = q.len() as int;
                                    assert(q == p.subrange(0, k)) by {
                                        assert(p.subrange(0, k) =~= q);
                                    }
                                    if k > l {
                                        assert(strictly_below(cur, q)) by {
                                            assert(q.subrange(0, l) =~= cur);
                                        }
                                    }
                                    assert(k < l);
                                    assert(walk(&a2, root, p.subrange(0, k)) == walk(&a, root, p.subrange(0, k)));
                                }
                            }
                        }
                        lemma_fold_shape(&a, &a1, &a2, root, p, i, parent_index, current_index, new_mask);
                        assert forall|t: Seq<Direction>| !strictly_below(t, p) implies #[trigger] self.shape_at(t) == orig.shape_at(t) by {
                            assert(shape(&a2, root, t) == shape(&a, root, t));
                            assert(s0.shape_at(t) == orig.shape_at(t));
                        }
                        assert(self.blocks_in_use() - self.splits_on(p) == orig.blocks_in_use() - orig.splits_on(p)) by {
                            assert(a1.used_blocks() == a.used_blocks());
                            assert(has_kids(&a, parent_index));
                            assert(s0.blocks_in_use() - s0.splits_on(p) == orig.blocks_in_use() - orig.splits_on(p));
                        }
                        assert(pairs.remaining() =~= pairs_from(rv, m + 1));
                        m = m + 1;
                    }
                }
                None => {
                    proof {
                        assert(pairs_from(rv, m).len() == 0);
                        assert forall|k: int| 1 <= k < n implies !#[trigger] self.condensable_at(p.subrange(0, k)) by {
                            assert(walk(&self.arena, self.root_node, p.subrange(0, k)) is None);
                        }
                    }
                    return;
                }
            }
        }
    }
}

/// A node that a write created on its way down: every octant empty, no
/// child but on octant `d`, and none at all when it is the deepest yet.
spec fn fresh_node(n: ArenaNode, d: Direction, deepest: bool) -> bool {
    &&& forall|e: int| 0 <= e < 8 ==> #[trigger] n.data@[e] == Voxel::empty()
    &&& forall|e: int| 0 <= e < 8 && e != d.bits() ==> !#[trigger] bit8(n.leaf_mask, e)
    &&& deepest ==> n.leaf_mask == 0
}

/// The nodes down path `p`, to its `j`-th step, that chunk `orig` did not
/// have are fresh: empty, with no child off the path.
#[verifier::opaque]
spec fn fresh_below(a: &Arena, root: ArenaNodeIndice, orig: Chunk, p: Seq<Direction>, j: int) -> bool {
    forall|k: int| 0 <= k <= j && #[trigger] orig.node_at(p.subrange(0, k)) is None
        ==> fresh_node(a.node(walk(a, root, p.subrange(0, k)).unwrap()), p[k], k == j)
}

/// The nodes down path `p`, to its `j`-th step, that chunk `orig` had are
/// where they were and hold what they held.
#[verifier::opaque]
spec fn kept_above(a: &Arena, root: ArenaNodeIndice, orig: Chunk, p: Seq<Direction>, j: int) -> bool {
    forall|k: int| 0 <= k <= j && #[trigger] orig.node_at(p.subrange(0, k)) is Some
        ==> walk(a, root, p.subrange(0, k)) == orig.node_at(p.subrange(0, k))
            && a.node(walk(a, root, p.subrange(0, k)).unwrap()).data == orig.arena.node(orig.node_at(p.subrange(0, k)).unwrap()).data
}

/// Going down a child that chunk `orig` already had keeps both facts one
/// step further.
proof fn lemma_descend_existing(orig: Chunk, p: Seq<Direction>, j: int)
    requires
        0 <= j,
        j + 1 < p.len(),
        orig.node_at(p.subrange(0, j + 1)) is Some,
    ensures
        fresh_below(&orig.arena, orig.root_node, orig, p, j + 1),
        kept_above(&orig.arena, orig.root_node, orig, p, j + 1),
{
    reveal(fresh_below);
    reveal(kept_above);
    assert forall|k: int| 0 <= k <= j + 1 implies #[trigger] orig.node_at(p.subrange(0, k)) is Some by {
        lemma_walk_prefix(&orig.arena, orig.root_node, p.subrange(0, j + 1), k);
        assert(p.subrange(0, j + 1).subrange(0, k) =~= p.subrange(0, k));
    }
}

/// Giving node `x`, at step `j` of path `p`, a new child on the path keeps
/// both facts one step further: the new child is fresh.
proof fn lemma_descend_realloc(a: &Arena, a2: &Arena, root: ArenaNodeIndice, orig: Chunk, p: Seq<Direction>, j: int, x: ArenaNodeIndice, fm: u8)
    requires
        tree_wf(a, root),
        0 <= j,
        j + 1 < p.len(),
        walk(a, root, p.subrange(0, j)) == Some(x),
        forall|k: int| 0 <= k <= j ==> #[trigger] walk(a, root, p.subrange(0, k)) is Some,
        Arena::realloc_effect(a, a2, x, fm),
        a.node(x).child_spec(p[j].bits() as int) is None,
        forall|e: int| 0 <= e < 8 ==> #[trigger] bit8(fm, e) == (e == p[j].bits() || bit8(a.node(x).leaf_mask, e)),
        orig.node_at(p.subrange(0, j + 1)) is None,
        orig.root_node == root,
        fresh_below(a, root, orig, p, j),
        kept_above(a, root, orig, p, j),
    ensures
        fresh_below(a2, root, orig, p, j + 1),
        kept_above(a2, root, orig, p, j + 1),
{
    reveal(fresh_below);
    reveal(kept_above);
    let dir = p[j];
    let s = p.subrange(0, j);
    let om = a.node(x).leaf_mask;
    let nb = a.next_alloc(ones8(fm) as int);
    Direction::lemma_of_index_bits(dir);
    a.lemma_wf();
    lemma_realloc_prefixes(a, a2, root, p, j, x, fm);
    lemma_realloc_child(a, a2, root, s, x, fm, dir, Seq::empty());
    assert(s.push(dir) + Seq::<Direction>::empty() =~= p.subrange(0, j + 1));
    assert(!bit8(om, dir.bits() as int));
    assert forall|k: int| 0 <= k <= j + 1 && #[trigger] orig.node_at(p.subrange(0, k)) is None implies fresh_node(
        a2.node(walk(a2, root, p.subrange(0, k)).unwrap()), p[k], k == j + 1) by {
        if k == j + 1 {
            let em = ArenaNode::empty();
            assert(a2.node(walk(a2, root, p.subrange(0, k)).unwrap()) == em);
            lemma_zero_iff_no_bits(0u8);
            assert forall|e: int| 0 <= e < 8 implies #[trigger] em.data@[e] == Voxel::empty() by {
                if e == 0 {} else if e == 1 {} else if e == 2 {} else if e == 3 {}
                else if e == 4 {} else if e == 5 {} else if e == 6 {} else {}
            }
        } else {
            assert(walk(a2, root, p.subrange(0, k)) == walk(a, root, p.subrange(0, k)));
            let y = walk(a, root, p.subrange(0, k)).unwrap();
            assert(fresh_node(a.node(y), p[k], k == j));
            if k == j {
                assert(y == x);
                lemma_zero_iff_no_bits(0u8);
                assert(om == 0);
            } else {
                assert(p.subrange(0, k) != s) by {
                    assert(p.subrange(0, k).len() != s.len());
                }
                lemma_walk_unique(a, root, p.subrange(0, k), s);
                assert(a.placed(y));
            }
        }
    }
    assert forall|k: int| 0 <= k <= j + 1 && #[trigger] orig.node_at(p.subrange(0, k)) is Some implies
        walk(a2, root, p.subrange(0, k)) == orig.node_at(p.subrange(0, k))
        && a2.node(walk(a2, root, p.subrange(0, k)).unwrap()).data
            == orig.arena.node(orig.node_at(p.subrange(0, k)).unwrap()).data by {
        assert(k <= j);
        assert(walk(a2, root, p.subrange(0, k)) == walk(a, root, p.subrange(0, k)));
        let y = walk(a, root, p.subrange(0, k)).unwrap();
        if k < j {
            assert(p.subrange(0, k) != s) by {
                assert(p.subrange(0, k).len() != s.len());
            }
            lemma_walk_unique(a, root, p.subrange(0, k), s);
            assert(a.placed(y));
        }
    }
}

/// Once the leaf is written, every path reads what the whole write leaves
/// it, folding aside: chunk `s0` is the chunk after the way down, `s1` after
/// the leaf is written.
proof fn lemma_leaf_values(orig: Chunk, s0: Chunk, s1: Chunk, p: Seq<Direction>, v: Voxel)
    requires
        p.len() > 0,
        s0.root_node == orig.root_node,
        forall|k: int| 0 <= k < p.len() ==> #[trigger] walk(&s0.arena, s0.root_node, p.subrange(0, k)) is Some,
        fresh_below(&s0.arena, s0.root_node, orig, p, p.len() - 1),
        kept_above(&s0.arena, s0.root_node, orig, p, p.len() - 1),
        orig.node_at(p.subrange(0, p.len() - 1)) is Some ==> s0 == orig,
        forall|q: Seq<Direction>| orig.parts_at_node(p, q) ==> #[trigger] s1.value(q) == orig.value(q),
        forall|q: Seq<Direction>| #[trigger] s1.value(q) == s0.written(p, v, q),
        forall|t: Seq<Direction>| #[trigger] s1.node_at(t) == s0.node_at(t),
    ensures
        forall|q: Seq<Direction>| #[trigger] s1.value(q) == orig.value_after_set(&s1, p, v, q),
        orig.node_at(p) is Some ==> s1.node_at(p) is Some,
{
    reveal(fresh_below);
    reveal(kept_above);
    let n = p.len() as int;
    let j = n - 1;
    let a = s0.arena;
    let root = s0.root_node;
    let x = walk(&a, root, p.subrange(0, j)).unwrap();
    assert(p.subrange(0, n) =~= p);
    assert(orig.node_at(p) is Some ==> s0 == orig) by {
        if orig.node_at(p) is Some {
            lemma_walk_prefix(&orig.arena, root, p, j);
        }
    }
    assert(s0.node_at(p) is Some ==> orig.node_at(p) is Some) by {
        if s0.node_at(p) is Some {
            lemma_walk_step(&a, root, p, j);
            lemma_child_at(&a, x, p[j]);
            if orig.node_at(p.subrange(0, j)) is None {
                assert(fresh_node(a.node(x), p[j], true));
            }
        }
    }
    assert forall|q: Seq<Direction>| #[trigger] s1.value(q) == orig.value_after_set(&s1, p, v, q) by {
        assert(s1.value(q) == s0.written(p, v, q));
        if q == p {
        } else if strictly_below(p, q) {
            if orig.node_at(p) is Some {
                assert(s0 == orig);
            }
        } else if q.len() == 0 {
        } else if orig.parts_at_node(p, q) {
            assert(s1.value(q) == orig.value(q));
        } else if strictly_below(q, p) {
            let k = q.len() as int;
            assert(q == p.subrange(0, k)) by {
                assert(p.subrange(0, k) =~= q);
            }
            assert(q.drop_last() == p.subrange(0, k - 1)) by {
                assert(q.drop_last() =~= p.subrange(0, k - 1));
            }
            assert(q.last() == p[k - 1]);
            let y = walk(&a, root, p.subrange(0, k - 1)).unwrap();
            assert(walk(&a, root, p.subrange(0, k)) is Some);
            assert(s0.value(q) == a.node(y).data@[p[k - 1].bits() as int]);
            assert(s1.node_at(q) is Some);
            if orig.node_at(p.subrange(0, k - 1)) is Some {
                assert(walk(&orig.arena, root, q.drop_last()) == Some(y));
                assert(orig.value(q) == orig.arena.node(y).data@[p[k - 1].bits() as int]);
            } else {
                assert(fresh_node(a.node(y), p[k - 1], k - 1 == j));
                Direction::lemma_of_index_bits(p[k - 1]);
            }
        } else {
            let i = lemma_first_diff(p, q);
            assert(orig.node_at(p.subrange(0, i)) is None);
            let y = walk(&a, root, p.subrange(0, i)).unwrap();
            assert(fresh_node(a.node(y), p[i], i == j));
            lemma_created_reads_empty(&a, root, p, i, y, q);
        }
    }
}

impl Chunk {
    /// Writes `voxel` at `path`: walks down the path, giving nodes children
    /// where the path needs them, sets the octant of its last step, then
    /// folds back up every node on the path that ends up with no children
    /// and eight equal octants.
    pub fn set(&mut self, path: IndexPath, voxel: Voxel)
        requires
            old(self).wf(),
            path@.len() > 0,
            forall|k: int| 1 <= k <= 8 ==> #[trigger] old(self).capacity(k) >= 2 * path@.len(),
        ensures
            final(self).wf(),
            final(self).value(path@) == voxel,
            forall|k: int| 1 <= k <= 8 ==> #[trigger] final(self).capacity(k) >= old(self).capacity(k) - 2 * path@.len(),
            forall|q: Seq<Direction>| old(self).parts_at_node(path@, q) ==> #[trigger] final(self).value(q) == old(self).value(q),
            forall|k: int| 1 <= k < path@.len() ==> !#[trigger] final(self).condensable_at(path@.subrange(0, k)),
            forall|q: Seq<Direction>| #[trigger] final(self).value(q) == old(self).value_after_set(&*final(self), path@, voxel, q),
            forall|t: Seq<Direction>| !strictly_below(t, path@) ==> #[trigger] final(self).shape_at(t) == old(self).shape_at(t),
            final(self).blocks_in_use() - final(self).splits_on(path@) == old(self).blocks_in_use() - old(self).splits_on(path@),
            old(self).no_leak() ==> final(self).no_leak(),
            (forall|t: Seq<Direction>| t.len() > 0 ==> !#[trigger] old(self).condensable_at(t))
                ==> (forall|t: Seq<Direction>| t.len() > 0 ==> !#[trigger] final(self).condensable_at(t)),
    {
        let ghost p = path@;
        let ghost n = p.len() as int;
        let ghost orig = *self;
        proof {
            use_type_invariant(&path);
            path.lemma_view();
        }
        let mut current = path;
        let mut node_index = self.root_node;
        // The node met at each level, with the direction taken from it.
        let mut node_index_stack: Vec<(ArenaNodeIndice, Direction)> = Vec::new();
        let ghost mut j: int = 0;
        proof {
            assert(p.subrange(0, 0) =~= Seq::<Direction>::empty());
            assert(p.subrange(0, n) =~= p);
            reveal(fresh_below);
            reveal(kept_above);
            assert(orig.node_at(p.subrange(0, 0)) is Some);
        }
        loop
            invariant
                self.wf(),
                *old(self) == orig,
                self.root_node == orig.root_node,
                p == path@,
                n == p.len(),
                n <= 21,
                0 <= j < n,
                current@ == p.subrange(j, n),
                walk(&self.arena, self.root_node, p.subrange(0, j)) == Some(node_index),
                node_index_stack@.len() == j,
                forall|k: int| 0 <= k < j ==> walk(&self.arena, self.root_node, p.subrange(0, k)) == Some(#[trigger] node_index_stack@[k].0)
                    && node_index_stack@[k].1 == p[k],
                forall|k: int| 1 <= k <= 8 ==> #[trigger] self.capacity(k) >= orig.capacity(k) - j,
                forall|k: int| 1 <= k <= 8 ==> #[trigger] orig.capacity(k) >= 2 * n,
                forall|k: int| 0 <= k <= n && #[trigger] orig.node_at(p.subrange(0, k)) is Some ==> self.node_at(p.subrange(0, k)) is Some,
                forall|q: Seq<Direction>| orig.parts_at_node(p, q) ==> #[trigger] self.value(q) == orig.value(q),
                fresh_below(&self.arena, self.root_node, orig, p, j),
                kept_above(&self.arena, self.root_node, orig, p, j),
                orig.node_at(p.subrange(0, j)) is Some ==> *self == orig,
                forall|t: Seq<Direction>| !strictly_below(t, p) ==> #[trigger] self.shape_at(t) == orig.shape_at(t),
                self.blocks_in_use() - self.splits_on(p) == orig.blocks_in_use() - orig.splits_on(p),
            decreases n - j,
        {
            // Strip the top most path element
            let dir = current.peek();
            node_index_stack.push((node_index, dir));
            current = current.pop();
            let d = dir.to_u8();
            let ghost a = self.arena;
            let ghost s0 = *self;
            let ghost root = self.root_node;
            proof {
                assert(dir == p[j]);
                assert(current@ =~= p.subrange(j + 1, n));
                lemma_not_own_children(&a, root, p.subrange(0, j));
                a.lemma_wf();
            }
            if current.is_empty() {
                // If this is the final path: set the leaf, then condense the octree
                proof {
                    assert(j == n - 1);
                    assert(p.drop_last() =~= p.subrange(0, j));
                    assert(p.last() == dir);
                }
                self.set_leaf(node_index, dir, voxel, Ghost(p));
                proof {
                    assert forall|k: int| 0 <= k < n implies walk(&self.arena, self.root_node, p.subrange(0, k)) == Some(#[trigger] node_index_stack@[k].0)
                        && node_index_stack@[k].1 == p[k] by {
                        assert(self.node_at(p.subrange(0, k)) == s0.node_at(p.subrange(0, k)));
                        if k < j {
                            assert(walk(&a, root, p.subrange(0, k)) == Some(node_index_stack@[k].0));
                        } else {
                            assert(node_index_stack@[k].0 == node_index);
                        }
                    }
                    assert forall|k: int| 1 <= k <= 8 implies #[trigger] self.capacity(k) >= n - 1 by {
                        assert(s0.capacity(k) >= orig.capacity(k) - j);
                    }
                }
                let ghost s1 = *self;
                proof {
                    assert forall|q: Seq<Direction>| orig.parts_at_node(p, q) implies s1.parts_at_node(p, q) && s1.value(q) == orig.value(q) by {
                        let w = choose|w: int| 0 <= w < q.len() && w < p.len() && q.subrange(0, w) == p.subrange(0, w) && q[w] != p[w]
                            && #[trigger] orig.node_at(p.subrange(0, w)) is Some;
                        assert(s0.node_at(p.subrange(0, w)) is Some);
                        assert(s1.node_at(p.subrange(0, w)) == s0.node_at(p.subrange(0, w)));
                        assert(q != p);
                        assert(!strictly_below(p, q)) by {
                            if strictly_below(p, q) {
                                assert(q.subrange(0, n)[w] == q[w]);
                            }
                        }
                        assert(s1.value(q) == s0.written(p, voxel, q));
                        assert(s0.value(q) == orig.value(q));
                    }
                }
                proof {
                    assert forall|k: int| 0 <= k < n implies #[trigger] walk(&s0.arena, s0.root_node, p.subrange(0, k)) is Some by {
                        if k < j {
                            assert(walk(&a, root, p.subrange(0, k)) == Some(node_index_stack@[k].0));
                        }
                    }
                    lemma_leaf_values(orig, s0, s1, p, voxel);
                }
                proof {
                    assert forall|t: Seq<Direction>| !strictly_below(t, p) implies #[trigger] s1.shape_at(t) == orig.shape_at(t) by {
                        if t == p.drop_last() {
                            assert(p.subrange(0, j) =~= t);
                            assert(strictly_below(t, p));
                        }
                        assert(s0.shape_at(t) == orig.shape_at(t));
                    }
                    lemma_path_splits_change(&s0.arena, &s1.arena, root, p, n, -1);
                }
                self.condense_path(node_index_stack, voxel, Ghost(p), Ghost(orig));
                proof {
                    assert forall|t: Seq<Direction>| t.len() > 0 && strictly_below(t, p) implies !#[trigger] self.condensable_at(t) by {
                        assert(t =~= p.subrange(0, t.len() as int));
                    }
                    assert((forall|t: Seq<Direction>| t.len() > 0 ==> !#[trigger] orig.condensable_at(t))
                        ==> (forall|t: Seq<Direction>| t.len() > 0 ==> !#[trigger] self.condensable_at(t))) by {
                        if forall|t: Seq<Direction>| t.len() > 0 ==> !#[trigger] orig.condensable_at(t) {
                            assert forall|t: Seq<Direction>| t.len() > 0 implies !#[trigger] self.condensable_at(t) by {
                                if !strictly_below(t, p) {
                                    assert(self.shape_at(t) == orig.shape_at(t));
                                    assert(!orig.condensable_at(t));
                                }
                            }
                        }
                    }
                    assert forall|k: int| 1 <= k <= 8 implies #[trigger] self.capacity(k) >= orig.capacity(k) - 2 * n by {
                        assert(s0.capacity(k) >= orig.capacity(k) - j);
                    }
                    if orig.no_leak() {
                        assert forall|t: Seq<Direction>| !strictly_below(t, p) implies #[trigger] self.shape_at(t) == orig.shape_at(t) by {
                            assert(s1.shape_at(t) == orig.shape_at(t));
                        }
                        orig.lemma_write_keeps_no_leak(self, p);
                    }
                }
                return;
            } else if let Some(child) = self.arena.get_node(node_index).child_on_dir(d) {
                // If there is already a child there
                proof {
                    lemma_walk_step(&a, root, p, j);
                    assert(orig.node_at(p.subrange(0, j)) is Some) by {
                        if orig.node_at(p.subrange(0, j)) is None {
                            reveal(fresh_below);
                            assert(fresh_node(a.node(node_index), p[j], true));
                            lemma_child_at(&a, node_index, dir);
                        }
                    }
                    assert(s0 == orig);
                    assert(orig.node_at(p.subrange(0, j + 1)) is Some);
                    lemma_descend_existing(orig, p, j);
                    j = j + 1;
                }
                node_index = child;
            } else {
                // Give the node a child on that octant
                let old_freemask = self.arena.get_node(node_index).leaf_mask;
                let new_freemask = old_freemask | (1u8 << d);
                proof {
                    lemma_mask_bit(old_freemask, d);
                    lemma_count8_bound(new_freemask, 0, 8);
                    lemma_zero_iff_no_bits(new_freemask);
                    let x = ones8(new_freemask) as int;
                    assert(s0.capacity(x) >= orig.capacity(x) - j);
                }
                self.arena.realloc(node_index, new_freemask);
                proof {
                    let a2 = self.arena;
                    let s = p.subrange(0, j);
                    lemma_realloc_tree(&a, &a2, root, s, node_index, new_freemask);
                    lemma_realloc_depth(&a, &a2, root, s, node_index, new_freemask);
                    lemma_realloc_prefixes(&a, &a2, root, p, j, node_index, new_freemask);
                    lemma_realloc_child(&a, &a2, root, s, node_index, new_freemask, dir, Seq::empty());
                    assert(s.push(dir) + Seq::<Direction>::empty() =~= p.subrange(0, j + 1));
                    lemma_walk_step(&a2, root, p, j);
                    assert(walk(&a2, root, s) == Some(node_index));
                    assert forall|k: int| 1 <= k <= 8 implies #[trigger] self.capacity(k) >= orig.capacity(k) - (j + 1) by {
                        assert(s0.capacity(k) >= orig.capacity(k) - j);
                    }
                    // The octant had no child, so no path of the chunk as it was
                    // runs below it.
                    lemma_walk_step(&a, root, p, j);
                    assert(walk(&a, root, p.subrange(0, j + 1)) is None);
                    assert forall|k: int| 0 <= k <= n && #[trigger] orig.node_at(p.subrange(0, k)) is Some implies self.node_at(p.subrange(0, k)) is Some by {
                        if k > j {
                            lemma_walk_prefix(&orig.arena, root, p.subrange(0, k), j + 1);
                            assert(p.subrange(0, k).subrange(0, j + 1) =~= p.subrange(0, j + 1));
                            assert(orig.node_at(p.subrange(0, j + 1)) is Some);
                            assert(s0.node_at(p.subrange(0, j + 1)) is Some);
                            assert(false);
                        } else {
                            assert(s0.node_at(p.subrange(0, k)) is Some);
                        }
                    }
                    assert forall|q: Seq<Direction>| orig.parts_at_node(p, q) implies #[trigger] self.value(q) == orig.value(q) by {
                        let w = choose|w: int| 0 <= w < q.len() && w < p.len() && q.subrange(0, w) == p.subrange(0, w) && q[w] != p[w]
                            && #[trigger] orig.node_at(p.subrange(0, w)) is Some;
                        assert(s0.node_at(p.subrange(0, w)) is Some);
                        assert(w <= j) by {
                            if w > j {
                                lemma_walk_prefix(&a, root, p.subrange(0, w), j + 1);
                                assert(p.subrange(0, w).subrange(0, j + 1) =~= p.subrange(0, j + 1));
                            }
                        }
                        assert(!strictly_below(p.subrange(0, j + 1), q)) by {
                            if strictly_below(p.subrange(0, j + 1), q) {
                                assert(q.subrange(0, j + 1)[w] == q[w]);
                            }
                        }
                        assert(forall|e: int| 0 <= e < 8 && e != dir.bits() ==> #[trigger] bit8(new_freemask, e) == bit8(old_freemask, e));
                        lemma_realloc_keep_sample(&a, &a2, root, s, node_index, new_freemask, dir, q);
                        assert(s0.value(q) == orig.value(q));
                    }
                }
                proof {
                    let a2 = self.arena;
                    assert(orig.node_at(p.subrange(0, j + 1)) is None) by {
                        if orig.node_at(p.subrange(0, j + 1)) is Some {
                            assert(s0.node_at(p.subrange(0, j + 1)) is Some);
                        }
                    }
                    assert forall|k: int| 0 <= k <= j implies #[trigger] walk(&a, root, p.subrange(0, k)) is Some by {
                        if k < j {
                            assert(walk(&a, root, p.subrange(0, k)) == Some(node_index_stack@[k].0));
                        }
                    }
                    lemma_descend_realloc(&a, &a2, root, orig, p, j, node_index, new_freemask);
                }
                proof {
                    let a2 = self.arena;
                    assert(j + 1 < n);
                    lemma_walk_step(&a, root, p, j);
                    lemma_grow_shape(&a, &a2, root, p, j, node_index, new_freemask);
                    assert forall|t: Seq<Direction>| !strictly_below(t, p) implies #[trigger] self.shape_at(t) == orig.shape_at(t) by {
                        assert(s0.shape_at(t) == orig.shape_at(t));
                    }
                }
                node_index = self.arena.get_node(node_index).child_on_dir(d).unwrap();
                proof {
                    j = j + 1;
                }
            }
        }
    }
}

/// The steps taken from the root to frame `k` of a walk's stack.
pub open spec fn frame_path(st: Seq<(Direction, ArenaNodeIndice)>, k: int) -> Seq<Direction> {
    Seq::new(k as nat, |i: int| st[i + 1].0)
}

/// The leaves that the frames below frame `k` of a walk's stack still have
/// to yield once frame `k` is done.
pub open spec fn frames_rest(a: &Arena, st: Seq<(Direction, ArenaNodeIndice)>, k: int) -> Seq<(Seq<Direction>, Voxel, ArenaNodeIndice)>
    decreases k,
{
    if k <= 0 {
        Seq::empty()
    } else {
        leaf_seq(a, st[k - 1].1, frame_path(st, k - 1), st[k].0.bits() + 1, (22 - k) as nat) + frames_rest(a, st, k - 1)
    }
}

/// The steps that the frames below frame `k` still have to take.
pub open spec fn frames_steps(a: &Arena, st: Seq<(Direction, ArenaNodeIndice)>, k: int) -> nat
    decreases k,
{
    if k <= 0 {
        0
    } else {
        leaf_steps(a, st[k - 1].1, st[k].0.bits() + 1, (22 - k) as nat) + frames_steps(a, st, k - 1)
    }
}

/// Two stacks that agree up to frame `k` have the same paths and the same
/// work left below it.
proof fn lemma_frames_prefix(a: &Arena, st1: Seq<(Direction, ArenaNodeIndice)>, st2: Seq<(Direction, ArenaNodeIndice)>, k: int)
    requires
        0 <= k < st1.len(),
        k < st2.len(),
        forall|i: int| 0 <= i <= k ==> st1[i] == st2[i],
    ensures
        forall|j: int| 0 <= j <= k ==> #[trigger] frame_path(st1, j) == frame_path(st2, j),
        frames_rest(a, st1, k) == frames_rest(a, st2, k),
        frames_steps(a, st1, k) == frames_steps(a, st2, k),
    decreases k,
{
    assert forall|j: int| 0 <= j <= k implies #[trigger] frame_path(st1, j) == frame_path(st2, j) by {
        assert(frame_path(st1, j) =~= frame_path(st2, j));
    }
    if k > 0 {
        lemma_frames_prefix(a, st1, st2, k - 1);
    }
}

/// Walks the leaves of a chunk depth first: every octant that has no
/// child, as a leaf node.
pub struct ChunkVoxelIterator<'a> {
    chunk: &'a Chunk,
    /// For each level entered, the octant it was entered by and its node.
    stack: Vec<(Direction, ArenaNodeIndice)>,
    /// Next voxel to emit
    dir: u8,
}

impl<'a> ChunkVoxelIterator<'a> {
    /// The chunk walked.
    pub closed spec fn chunk_spec(&self) -> Chunk {
        *self.chunk
    }

    pub closed spec fn wf(&self) -> bool {
        let st = self.stack@;
        &&& self.chunk.wf()
        &&& st.len() <= 21
        &&& self.dir <= 8
        &&& forall|k: int| 0 <= k < st.len() ==> walk(&self.chunk.arena, self.chunk.root_node, frame_path(st, k)) == Some(#[trigger] st[k].1)
    }

    /// The leaves still to come, in order.
    pub closed spec fn remaining(&self) -> Seq<(Seq<Direction>, Voxel, ArenaNodeIndice)> {
        let st = self.stack@;
        if st.len() == 0 {
            Seq::empty()
        } else {
            let t = st.len() - 1;
            leaf_seq(&self.chunk.arena, st[t].1, frame_path(st, t), self.dir as int, (21 - t) as nat)
                + frames_rest(&self.chunk.arena, st, t)
        }
    }

    closed spec fn steps(&self) -> nat {
        let st = self.stack@;
        if st.len() == 0 {
            0
        } else {
            let t = st.len() - 1;
            leaf_steps(&self.chunk.arena, st[t].1, self.dir as int, (21 - t) as nat)
                + frames_steps(&self.chunk.arena, st, t)
        }
    }

    /// Iterates all leaf nodes: yields the next leaf, with its path, its
    /// voxel and its parent, or `None` when every leaf was yielded.
    #[verifier::spinoff_prover]
    #[verifier::rlimit(50)]
    pub fn next(&mut self) -> (r: Option<Node>)
        requires
            old(self).wf(),
        ensures
            final(self).wf(),
            final(self).chunk_spec() == old(self).chunk_spec(),
            old(self).remaining().len() == 0 ==> r is None && final(self).remaining().len() == 0,
            old(self).remaining().len() > 0 ==> r is Some && ({
                let x = old(self).remaining()[0];
                let node = r->0;
                &&& node.index_path@ == x.0
                &&& node.voxel == x.1
                &&& node.parent_node == Some(x.2)
                &&& node.arena_node is None
                &&& node.bounds == Bounds::of_path(x.0)
                &&& final(self).remaining() == old(self).remaining().drop_first()
            }),
    {
        let chunk = self.chunk;
        let ghost a = chunk.arena;
        let ghost root = chunk.root_node;
        loop
            invariant
                self.wf(),
                self.chunk == chunk,
                a == chunk.arena,
                root == chunk.root_node,
                self.chunk == old(self).chunk,
                self.remaining() == old(self).remaining(),
            decreases self.steps(),
        {
            let len = self.stack.len();
            if len == 0 {
                // The stack is empty meaning that there is no more nodes.
                return None;
            }
            // Peek the last node on the stack, which stores the indice to that arena node,
            // as well as how we get to this node (from the parent node)
            let (fromdir, indice) = self.stack[len - 1];
            let ghost st = self.stack@;
            let ghost t = len - 1;
            let ghost pre = frame_path(st, t);
            proof {
                chunk.arena.lemma_wf();
                assert(walk(&a, root, pre) == Some(indice));
            }
            if self.dir >= 8 {
                // We've finished iterating all dirs on this node.
                // Pop from stack, and continue from where we left off on the parent node
                self.stack.pop();
                self.dir = fromdir.to_u8() + 1;
                proof {
                    let st2 = self.stack@;
                    assert(st2 =~= st.drop_last());
                    if t > 0 {
                        lemma_frames_prefix(&a, st, st2, t - 1);
                    }
                }
                continue;
            }
            // Fetch the reference to that node
            let node = chunk.arena.get_node(indice);
            let d = self.dir;
            let dir = Direction::from(d);
            proof {
                Direction::lemma_bits_of_index(d as int);
                lemma_seq_push_drop(pre, dir);
                assert(walk(&a, root, pre.push(dir)) == child_at(&a, indice, dir));
            }
            if let Some(subnode) = node.child_on_dir(d) {
                // Has a child on that dir, needs to go deeper
                proof {
                    if t + 1 >= 21 {
                        lemma_depth_ok_long(&a, root, pre.push(dir));
                    }
                }
                self.stack.push((dir, subnode));
                self.dir = 0;
                proof {
                    let st2 = self.stack@;
                    assert(st2.drop_last() =~= st);
                    lemma_frames_prefix(&a, st, st2, t);
                    assert(frame_path(st2, t + 1) =~= pre.push(dir));
                    let f = (21 - t) as nat;
                    let first = leaf_seq(&a, subnode, pre.push(dir), 0, (f - 1) as nat);
                    let rest = leaf_seq(&a, indice, pre, d + 1, f);
                    assert(frames_rest(&a, st2, t + 1) == rest + frames_rest(&a, st, t));
                    assert(first + (rest + frames_rest(&a, st, t)) =~= (first + rest) + frames_rest(&a, st, t));
                }
                continue;
            } else {
                let voxel = node.data[d as usize];
                self.dir = d + 1;
                let mut index_path = IndexPath::new(dir);
                let mut k = len - 1;
                while k > 0
                    invariant
                        k <= t,
                        t == len - 1,
                        t <= 20,
                        st == self.stack@,
                        st.len() == len,
                        index_path@ == frame_path(st, t).subrange(k as int, t).push(dir),
                    decreases k,
                {
                    let (dk, _) = self.stack[k];
                    proof {
                        assert(seq![dk] + frame_path(st, t).subrange(k as int, t).push(dir)
                            =~= frame_path(st, t).subrange(k - 1, t).push(dir));
                    }
                    index_path = index_path.push(dk);
                    k = k - 1;
                }
                proof {
                    assert(frame_path(st, t).subrange(0, t) =~= pre);
                    let f = (21 - t) as nat;
                    let rest = leaf_seq(&a, indice, pre, d + 1, f);
                    let head = seq![(pre.push(dir), a.node(indice).data@[d as int], indice)];
                    assert((head + rest) + frames_rest(&a, st, t) =~= head + (rest + frames_rest(&a, st, t)));
                    assert((head + (rest + frames_rest(&a, st, t))).drop_first() =~= rest + frames_rest(&a, st, t));
                }
                let bounds = Bounds::from_index_path(index_path);
                return Some(Node {
                    index_path,
                    voxel,
                    parent_node: Some(indice),
                    arena_node: None, // leaf node iterator guarantees that all nodes emitted are leaf nodes
                    bounds,
                });
            }
        }
    }

    /// The bounds it reports: the number of blocks in use in the arena, and
    /// eight times that. They count blocks, not leaves, so they are no
    /// bound on the leaves still to come.
    pub fn size_hint(&self) -> (r: (usize, Option<usize>))
        requires
            self.wf(),
        ensures
            r == (self.chunk_spec().blocks_in_use() as usize, Some((8 * self.chunk_spec().blocks_in_use()) as usize)),
    {
        let num_nodes = self.chunk.arena.count_nodes();
        (num_nodes, Some(num_nodes * 8))
    }
}

impl Chunk {
    /// A walk over the chunk's leaves, from the first octant of the root.
    pub fn iter_leaf(&self) -> (r: ChunkVoxelIterator)
        requires
            self.wf(),
        ensures
            r.wf(),
            r.chunk_spec() == *self,
            r.remaining() == self.leaves(),
    {
        let r = ChunkVoxelIterator {
            chunk: self,
            stack: vec![(Direction::FrontLeftBottom, self.root_node)],
            dir: 0,
        };
        proof {
            assert(frame_path(r.stack@, 0) =~= Seq::<Direction>::empty());
            assert(r.remaining() =~= self.leaves());
        }
        r
    }
}

impl Chunk {
    /// Every leaf that the walk over a chunk yields holds the voxel that
    /// sampling its path reads, and its path fits in an `IndexPath`.
    pub proof fn lemma_leaves_read_back(&self)
        requires
            self.wf(),
        ensures
            forall|i: int| 0 <= i < self.leaves().len() ==> {
                let x = #[trigger] self.leaves()[i];
                &&& 1 <= x.0.len() <= 21
                &&& self.value(x.0) == x.1
            },
    {
        lemma_leaf_seq_reads(&self.arena, self.root_node, self.root_node, Seq::empty(), 0, 21);
    }
}

/// Paths `p` and `q` agree before position `i` and there `p` takes the
/// lower octant.
pub open spec fn differs_at(p: Seq<Direction>, q: Seq<Direction>, i: int) -> bool {
    &&& 0 <= i < p.len()
    &&& i < q.len()
    &&& p.subrange(0, i) == q.subrange(0, i)
    &&& p[i].bits() < q[i].bits()
}

/// `p` comes before `q` in the order of octant numbers, step by step.
pub open spec fn path_lt(p: Seq<Direction>, q: Seq<Direction>) -> bool {
    exists|i: int| #[trigger] differs_at(p, q, i)
}

/// `p` runs on below `prefix`, with an octant numbered `d` or more as its
/// next step.
pub open spec fn below_from(p: Seq<Direction>, prefix: Seq<Direction>, d: int) -> bool {
    &&& p.len() > prefix.len()
    &&& p.subrange(0, prefix.len() as int) == prefix
    &&& p[prefix.len() as int].bits() >= d
}

impl Chunk {
    /// `p` names an octant of a node that has no child there: a leaf.
    pub open spec fn is_leaf_slot(&self, p: Seq<Direction>) -> bool {
        &&& p.len() > 0
        &&& self.node_at(p.drop_last()) is Some
        &&& self.node_at(p) is None
    }

    proof fn lemma_leaf_seq_exact(&self, n: ArenaNodeIndice, prefix: Seq<Direction>, d: int, fuel: nat)
        requires
            self.wf(),
            self.node_at(prefix) == Some(n),
            0 <= d <= 8,
            fuel + prefix.len() >= 21,
        ensures
            forall|i: int| 0 <= i < leaf_seq(&self.arena, n, prefix, d, fuel).len() ==>
                self.is_leaf_slot(#[trigger] leaf_seq(&self.arena, n, prefix, d, fuel)[i].0)
                && below_from(leaf_seq(&self.arena, n, prefix, d, fuel)[i].0, prefix, d),
            forall|p: Seq<Direction>| #[trigger] self.is_leaf_slot(p) && below_from(p, prefix, d) ==>
                exists|i: int| 0 <= i < leaf_seq(&self.arena, n, prefix, d, fuel).len()
                    && #[trigger] leaf_seq(&self.arena, n, prefix, d, fuel)[i].0 == p,
            forall|i: int, j: int| 0 <= i < j < leaf_seq(&self.arena, n, prefix, d, fuel).len() ==>
                path_lt(#[trigger] leaf_seq(&self.arena, n, prefix, d, fuel)[i].0, #[trigger] leaf_seq(&self.arena, n, prefix, d, fuel)[j].0),
        decreases fuel, 8 - d,
    {
        let a = &self.arena;
        let s = leaf_seq(a, n, prefix, d, fuel);
        let l = prefix.len() as int;
        self.lemma_node_at(prefix, Direction::FrontLeftBottom);
        if d >= 8 {
            assert(s.len() == 0);
            assert forall|p: Seq<Direction>| #[trigger] self.is_leaf_slot(p) && below_from(p, prefix, d) implies
                exists|i: int| 0 <= i < s.len() && #[trigger] s[i].0 == p by {
                Direction::lemma_of_index_bits(p[l]);
            }
            return;
        }
        assert(fuel > 0);
        let dir = Direction::of_index(d);
        Direction::lemma_bits_of_index(d);
        let rest = leaf_seq(a, n, prefix, d + 1, fuel);
        self.lemma_leaf_seq_exact(n, prefix, d + 1, fuel);
        self.lemma_node_at(prefix, dir);
        let q = prefix.push(dir);
        assert(q.drop_last() =~= prefix);
        assert(q.subrange(0, l) =~= prefix);
        let head = match a.node(n).child_spec(d) {
            Some(c) => leaf_seq(a, c, q, 0, (fuel - 1) as nat),
            None => seq![(q, a.node(n).data@[d], n)],
        };
        assert(s == head + rest);
        // Every path of `head` runs below `q`, so below `prefix` with step `d`.
        assert forall|i: int| 0 <= i < head.len() implies {
            &&& self.is_leaf_slot(#[trigger] head[i].0)
            &&& head[i].0.len() > l
            &&& head[i].0.subrange(0, l) == prefix
            &&& head[i].0[l] == dir
        } by {
            match a.node(n).child_spec(d) {
                Some(c) => {
                    self.lemma_leaf_seq_exact(c, q, 0, (fuel - 1) as nat);
                    let p = head[i].0;
                    assert(below_from(p, q, 0));
                    assert(p.subrange(0, l) =~= p.subrange(0, l + 1).subrange(0, l));
                    assert(p[l] == p.subrange(0, l + 1)[l]);
                }
                None => {}
            }
        }
        assert forall|i: int| 0 <= i < s.len() implies
            self.is_leaf_slot(#[trigger] s[i].0) && below_from(s[i].0, prefix, d) by {
            if i < head.len() {
                assert(s[i] == head[i]);
            } else {
                assert(s[i] == rest[i - head.len()]);
            }
        }
        assert forall|p: Seq<Direction>| #[trigger] self.is_leaf_slot(p) && below_from(p, prefix, d) implies
            exists|i: int| 0 <= i < s.len() && #[trigger] s[i].0 == p by {
            if p[l].bits() > d {
                assert(below_from(p, prefix, d + 1));
                let i = choose|i: int| 0 <= i < rest.len() && #[trigger] rest[i].0 == p;
                assert(s[head.len() + i] == rest[i]);
                assert(0 <= head.len() + i < s.len() && s[head.len() + i].0 == p);
            } else {
                Direction::lemma_of_index_bits(p[l]);
                assert(p[l] == dir);
                assert(p.subrange(0, l + 1) =~= q);
                match a.node(n).child_spec(d) {
                    Some(c) => {
                        self.lemma_leaf_seq_exact(c, q, 0, (fuel - 1) as nat);
                        if p.len() == l + 1 {
                            assert(p =~= q);
                            assert(false);
                        }
                        Direction::lemma_of_index_bits(p[l + 1]);
                        assert(below_from(p, q, 0));
                        let i = choose|i: int| 0 <= i < head.len() && #[trigger] head[i].0 == p;
                        assert(s[i] == head[i]);
                        assert(0 <= i < s.len() && s[i].0 == p);
                    }
                    None => {
                        if p.len() > l + 1 {
                            self.lemma_node_at_prefix(p.drop_last(), l + 1);
                            assert(p.drop_last().subrange(0, l + 1) =~= q);
                            assert(false);
                        }
                        assert(p =~= q);
                        assert(s[0] == head[0]);
                        assert(0 < s.len() && s[0].0 == p);
                    }
                }
            }
        }
        assert forall|i: int, j: int| 0 <= i < j < s.len() implies path_lt(#[trigger] s[i].0, #[trigger] s[j].0) by {
            if j < head.len() {
                assert(s[i] == head[i] && s[j] == head[j]);
                match a.node(n).child_spec(d) {
                    Some(c) => {
                        self.lemma_leaf_seq_exact(c, q, 0, (fuel - 1) as nat);
                        assert(path_lt(head[i].0, head[j].0));
                    }
                    None => {}
                }
            } else if i >= head.len() {
                assert(s[i] == rest[i - head.len()] && s[j] == rest[j - head.len()]);
                assert(path_lt(rest[i - head.len()].0, rest[j - head.len()].0));
            } else {
                assert(s[i] == head[i] && s[j] == rest[j - head.len()]);
                let x = head[i].0;
                let y = rest[j - head.len()].0;
                assert(below_from(y, prefix, d + 1));
                assert(x.subrange(0, l) == y.subrange(0, l));
                assert(differs_at(x, y, l));
            }
        }
    }

    /// The leaves of the chunk are its leaf octants, each exactly once, in
    /// increasing order of their paths.
    pub proof fn lemma_leaves_exact(&self)
        requires
            self.wf(),
        ensures
            forall|i: int| 0 <= i < self.leaves().len() ==> self.is_leaf_slot(#[trigger] self.leaves()[i].0),
            forall|p: Seq<Direction>| #[trigger] self.is_leaf_slot(p) ==>
                exists|i: int| 0 <= i < self.leaves().len() && #[trigger] self.leaves()[i].0 == p,
            forall|i: int, j: int| 0 <= i < j < self.leaves().len() ==>
                path_lt(#[trigger] self.leaves()[i].0, #[trigger] self.leaves()[j].0),
            forall|i: int, j: int| 0 <= i < self.leaves().len() && 0 <= j < self.leaves().len() && i != j ==>
                #[trigger] self.leaves()[i].0 != #[trigger] self.leaves()[j].0,
            forall|i: int| 0 <= i < self.leaves().len() ==>
                self.node_at((#[trigger] self.leaves()[i]).0.drop_last()) == Some(self.leaves()[i].2),
    {
        lemma_leaf_seq_reads(&self.arena, self.root_node, self.root_node, Seq::empty(), 0, 21);
        let e = Seq::<Direction>::empty();
        self.lemma_root_node();
        self.lemma_leaf_seq_exact(self.root_node, e, 0, 21);
        assert forall|p: Seq<Direction>| #[trigger] self.is_leaf_slot(p) implies
            exists|i: int| 0 <= i < self.leaves().len() && #[trigger] self.leaves()[i].0 == p by {
            assert(p.subrange(0, 0) =~= e);
            Direction::lemma_of_index_bits(p[0]);
            assert(below_from(p, e, 0));
            let s = leaf_seq(&self.arena, self.root_node, e, 0, 21);
            assert(s == self.leaves());
            let i = choose|i: int| 0 <= i < s.len() && #[trigger] s[i].0 == p;
            assert(0 <= i < self.leaves().len() && self.leaves()[i].0 == p);
        }
        assert forall|i: int, j: int| 0 <= i < self.leaves().len() && 0 <= j < self.leaves().len() && i != j implies
            #[trigger] self.leaves()[i].0 != #[trigger] self.leaves()[j].0 by {
            let (x, y) = if i < j { (i, j) } else { (j, i) };
            assert(path_lt(self.leaves()[x].0, self.leaves()[y].0));
            let k = choose|k: int| #[trigger] differs_at(self.leaves()[x].0, self.leaves()[y].0, k);
        }
    }
}

/// The first `m` prefixes of `p` (lengths 0 to `m - 1`).
pub open spec fn prefix_set(p: Seq<Direction>, m: int) -> Set<Seq<Direction>>
    decreases m,
{
    if m <= 0 {
        Set::empty()
    } else {
        prefix_set(p, m - 1).insert(p.subrange(0, m - 1))
    }
}

proof fn lemma_prefix_set(p: Seq<Direction>, m: int)
    requires
        0 <= m <= p.len(),
    ensures
        prefix_set(p, m).finite(),
        forall|t: Seq<Direction>| #[trigger] prefix_set(p, m).contains(t) <==> (t.len() < m && p.subrange(0, t.len() as int) == t),
    decreases m,
{
    if m > 0 {
        lemma_prefix_set(p, m - 1);
        assert forall|t: Seq<Direction>| #[trigger] prefix_set(p, m).contains(t) <==> (t.len() < m && p.subrange(0, t.len() as int) == t) by {
            if t.len() == m - 1 && p.subrange(0, t.len() as int) == t {
                assert(t == p.subrange(0, m - 1));
            }
        }
    }
}

/// Of the first `m` prefixes of `p`, those that lead to a node with
/// children number `path_splits`.
proof fn lemma_prefix_splits(a: &Arena, root: ArenaNodeIndice, p: Seq<Direction>, m: int)
    requires
        0 <= m <= p.len(),
    ensures
        prefix_set(p, m).filter(|t: Seq<Direction>| split_at(a, root, t)).finite(),
        prefix_set(p, m).filter(|t: Seq<Direction>| split_at(a, root, t)).len() == path_splits(a, root, p, m),
    decreases m,
{
    lemma_prefix_set(p, m);
    let f = |t: Seq<Direction>| split_at(a, root, t);
    if m > 0 {
        lemma_prefix_splits(a, root, p, m - 1);
        lemma_prefix_set(p, m - 1);
        let x = p.subrange(0, m - 1);
        let prev = prefix_set(p, m - 1).filter(f);
        assert(!prefix_set(p, m - 1).contains(x));
        if split_at(a, root, x) {
            assert(prefix_set(p, m).filter(f) =~= prev.insert(x));
        } else {
            assert(prefix_set(p, m).filter(f) =~= prev);
        }
    } else {
        assert(prefix_set(p, m).filter(f) =~= Set::empty());
    }
}

impl Chunk {
    /// The paths that lead to a node with children.
    pub open spec fn split_paths(&self) -> Set<Seq<Direction>> {
        Set::new(|t: Seq<Direction>| split_at(&self.arena_view(), self.root_spec(), t))
    }

    /// No block is lost: the blocks in use are the root's own and one block
    /// of children for each node that has children.
    pub open spec fn no_leak(&self) -> bool {
        &&& self.split_paths().finite()
        &&& self.blocks_in_use() == 1 + self.split_paths().len()
    }

    /// A write that keeps every node off the proper prefixes of its path,
    /// and changes the blocks in use by as much as it changes the count of
    /// those prefixes that lead to a node with children, loses no block.
    proof fn lemma_write_keeps_no_leak(&self, after: &Chunk, p: Seq<Direction>)
        requires
            self.no_leak(),
            forall|t: Seq<Direction>| !strictly_below(t, p) ==> #[trigger] after.shape_at(t) == self.shape_at(t),
            after.blocks_in_use() - after.splits_on(p) == self.blocks_in_use() - self.splits_on(p),
        ensures
            after.no_leak(),
    {
        let n = p.len() as int;
        let pp = prefix_set(p, n);
        let sa = self.split_paths();
        let sb = after.split_paths();
        lemma_prefix_set(p, n);
        lemma_prefix_splits(&self.arena_view(), self.root_spec(), p, n);
        lemma_prefix_splits(&after.arena_view(), after.root_spec(), p, n);
        let fa = |t: Seq<Direction>| split_at(&self.arena_view(), self.root_spec(), t);
        let fb = |t: Seq<Direction>| split_at(&after.arena_view(), after.root_spec(), t);
        assert forall|t: Seq<Direction>| !pp.contains(t) implies (sa.contains(t) <==> sb.contains(t)) by {
            assert(!strictly_below(t, p));
            assert(after.shape_at(t) == self.shape_at(t));
        }
        assert(sa.difference(pp) =~= sb.difference(pp));
        assert(sb.subset_of(sa.difference(pp) + pp));
        vstd::set_lib::lemma_set_subset_finite(sa.difference(pp) + pp, sb);
        assert(sa.intersect(pp) =~= pp.filter(fa));
        assert(sb.intersect(pp) =~= pp.filter(fb));
        vstd::set_lib::lemma_set_difference_len(sa, pp);
        vstd::set_lib::lemma_set_difference_len(sb, pp);
    }
}

impl Chunk {
    /// The empty path leads to the root node, and a path leads to a node
    /// exactly where `node_at` names one.
    pub proof fn lemma_root_node(&self)
        ensures
            self.node_at(Seq::empty()) == Some(self.root_spec()),
            self.has_node(Seq::empty()),
            forall|p: Seq<Direction>| #[trigger] self.has_node(p) == (self.node_at(p) is Some),
    {
    }

    /// A path that leads to a node passes through a node at each of its
    /// prefixes.
    pub proof fn lemma_node_at_prefix(&self, p: Seq<Direction>, n: int)
        requires
            self.node_at(p) is Some,
            0 <= n <= p.len(),
        ensures
            self.node_at(p.subrange(0, n)) is Some,
        decreases p.len() - n,
    {
        if n < p.len() {
            assert(p.drop_last() =~= p.subrange(0, p.len() - 1));
            self.lemma_node_at_prefix(p.drop_last(), n);
            assert(p.drop_last().subrange(0, n) =~= p.subrange(0, n));
        } else {
            assert(p.subrange(0, n) =~= p);
        }
    }

    /// What the node at path `p` tells of its octant `d`: the node below it
    /// and the voxel sampled there.
    pub proof fn lemma_node_at(&self, p: Seq<Direction>, d: Direction)
        requires
            self.wf(),
            self.node_at(p) is Some,
        ensures
            self.arena_view().valid(self.node_at(p).unwrap()),
            self.arena_view().wf(),
            p.len() < 21,
            self.node_at(p.push(d)) == self.arena_view().node(self.node_at(p).unwrap()).child_spec(d.bits() as int),
            self.value(p.push(d)) == self.arena_view().node(self.node_at(p).unwrap()).data@[d.bits() as int],
    {
        if p.len() >= 21 {
            lemma_depth_ok_long(&self.arena, self.root_node, p);
        }
        lemma_seq_push_drop(p, d);
    }
}

impl Chunk {
    /// The number of blocks of nodes in use in the chunk's arena: the root's
    /// own block and one per node with children, where no block was lost.
    pub fn count_nodes(&self) -> (r: usize)
        requires
            self.wf(),
        ensures
            r == self.blocks_in_use(),
            self.no_leak() ==> r == 1 + self.split_paths().len(),
    {
        self.arena.count_nodes()
    }

    /// The arena node `indice`.
    pub(crate) fn arena_node(&self, indice: ArenaNodeIndice) -> (r: &ArenaNode)
        requires
            self.wf(),
            self.arena_view().valid(indice),
        ensures
            *r == self.arena_view().node(indice),
    {
        self.arena.get_node(indice)
    }
}

/// Mask `m` without the bit of octant `d`.
pub open spec fn mask_without(m: u8, d: Direction) -> u8 {
    m & !(1u8 << d.bits())
}

/// One block of `k` nodes for a node whose children mask is `m` (none
/// when `m` is 0).
pub open spec fn block_of(m: u8, k: int) -> int {
    if m != 0 && k == ones8(m) { 1 } else { 0 }
}

/// What taking the child on octant `d` of node `x` (which `s` leads to)
/// out of the tree does to a sample: below that octant it reads the
/// voxel `x` holds for the octant; elsewhere it is as before.
proof fn lemma_drop_child_sample(a: &Arena, a2: &Arena, root: ArenaNodeIndice, s: Seq<Direction>, x: ArenaNodeIndice, d: Direction, q: Seq<Direction>)
    requires
        tree_wf(a, root),
        walk(a, root, s) == Some(x),
        Arena::realloc_effect(a, a2, x, mask_without(a.node(x).leaf_mask, d)),
    ensures
        sample_spec(a2, root, q) == (if strictly_below(s.push(d), q) { sample_spec(a, root, s.push(d)) } else { sample_spec(a, root, q) }),
        !strictly_below(s, q) ==> walk(a2, root, q) == walk(a, root, q),
{
    let om = a.node(x).leaf_mask;
    let fm = mask_without(om, d);
    Direction::lemma_of_index_bits(d);
    lemma_mask_bit(om, d.bits());
    lemma_seq_push_drop(s, d);
    if !strictly_below(s, q) {
        lemma_realloc_above(a, a2, root, s, x, fm, q);
        if q.len() > 0 && strictly_below(s, q.drop_last()) {
            assert(q.subrange(0, s.len() as int) =~= q.drop_last().subrange(0, s.len() as int));
        }
        if strictly_below(s.push(d), q) {
            assert(q.subrange(0, s.len() as int) =~= s.push(d).subrange(0, s.len() as int));
            assert(s.push(d).subrange(0, s.len() as int) =~= s);
        }
    } else {
        lemma_split_below(s, q);
        let e = q[s.len() as int];
        let r = q.subrange(s.len() as int + 1, q.len() as int);
        Direction::lemma_of_index_bits(e);
        if r.len() == 0 {
            assert(q =~= s.push(e));
            lemma_realloc_above(a, a2, root, s, x, fm, s);
            lemma_seq_push_drop(s, e);
            assert(a2.node(x).data == a.node(x).data);
            assert(!strictly_below(s.push(d), q));
        } else {
            lemma_realloc_child_sample(a, a2, root, s, x, fm, e, r);
            if e == d {
                assert(strictly_below(s.push(d), q)) by {
                    assert(q.subrange(0, s.len() as int + 1) =~= s.push(d));
                }
            } else {
                assert(!strictly_below(s.push(d), q)) by {
                    if strictly_below(s.push(d), q) {
                        assert(q.subrange(0, s.len() as int + 1)[s.len() as int] == q[s.len() as int]);
                        assert(s.push(d)[s.len() as int] == d);
                    }
                }
                if e.bits() == d.bits() {
                    assert(Direction::of_index(e.bits() as int) == Direction::of_index(d.bits() as int));
                }
                if !bit8(om, e.bits() as int) {
                    let k = s.len() as int;
                    assert(q.subrange(0, k) =~= s);
                    assert(q.subrange(0, k + 1) =~= s.push(e));
                    lemma_seq_push_drop(s, e);
                    assert(walk(a, root, s.push(e)) == child_at(a, x, e));
                    lemma_sample_stop(a, root, q, k);
                }
            }
        }
    }
}

/// A realloc of node `x`, which `s` leads to, that keeps every octant's
/// child but perhaps the one of octant `d` leaves every sample that does not
/// run below octant `d` of `x` as it was.
proof fn lemma_realloc_keep_sample(a: &Arena, a2: &Arena, root: ArenaNodeIndice, s: Seq<Direction>, x: ArenaNodeIndice, fm: u8, d: Direction, q: Seq<Direction>)
    requires
        tree_wf(a, root),
        walk(a, root, s) == Some(x),
        Arena::realloc_effect(a, a2, x, fm),
        forall|e: int| 0 <= e < 8 && e != d.bits() ==> #[trigger] bit8(fm, e) == bit8(a.node(x).leaf_mask, e),
        !strictly_below(s.push(d), q),
    ensures
        sample_spec(a2, root, q) == sample_spec(a, root, q),
{
    let om = a.node(x).leaf_mask;
    Direction::lemma_of_index_bits(d);
    lemma_seq_push_drop(s, d);
    if !strictly_below(s, q) {
        lemma_realloc_above(a, a2, root, s, x, fm, q);
        if q.len() > 0 && strictly_below(s, q.drop_last()) {
            assert(q.subrange(0, s.len() as int) =~= q.drop_last().subrange(0, s.len() as int));
        }
    } else {
        lemma_split_below(s, q);
        let e = q[s.len() as int];
        let r = q.subrange(s.len() as int + 1, q.len() as int);
        Direction::lemma_of_index_bits(e);
        if r.len() == 0 {
            assert(q =~= s.push(e));
            lemma_realloc_above(a, a2, root, s, x, fm, s);
            lemma_seq_push_drop(s, e);
            assert(a2.node(x).data == a.node(x).data);
        } else {
            assert(e != d) by {
                if e == d {
                    assert(q.subrange(0, s.len() as int + 1) =~= s.push(d));
                }
            }
            if e.bits() == d.bits() {
                assert(Direction::of_index(e.bits() as int) == Direction::of_index(d.bits() as int));
            }
            lemma_realloc_child_sample(a, a2, root, s, x, fm, e, r);
            if !bit8(om, e.bits() as int) {
                let k = s.len() as int;
                assert(q.subrange(0, k) =~= s);
                assert(q.subrange(0, k + 1) =~= s.push(e));
                lemma_seq_push_drop(s, e);
                assert(walk(a, root, s.push(e)) == child_at(a, x, e));
                lemma_sample_stop(a, root, q, k);
            }
        }
    }
}

/// Below a node with no children whose octants all hold `v`, every path
/// reads `v`.
proof fn lemma_uniform_below(a: &Arena, root: ArenaNodeIndice, s: Seq<Direction>, x: ArenaNodeIndice, v: Voxel, q: Seq<Direction>)
    requires
        walk(a, root, s) == Some(x),
        a.node(x).leaf_mask == 0,
        forall|e: int| 0 <= e < 8 ==> #[trigger] a.node(x).data@[e] == v,
        strictly_below(s, q),
    ensures
        sample_spec(a, root, q) == v,
{
    lemma_split_below(s, q);
    let k = s.len() as int;
    let e = q[k];
    Direction::lemma_of_index_bits(e);
    lemma_zero_iff_no_bits(0u8);
    assert(q.subrange(0, k) =~= s);
    lemma_seq_push_drop(s, e);
    if q.len() > k + 1 {
        assert(q.subrange(0, k + 1) =~= s.push(e));
        assert(walk(a, root, s.push(e)) == child_at(a, x, e));
    }
    lemma_sample_stop(a, root, q, k);
}

impl Chunk {
    /// Takes the child on octant `octant` of node `x`, which path `s` leads
    /// to, out of the tree, with all below it: the octant then reads the
    /// voxel that `x` holds for it.
    pub(crate) fn drop_child(&mut self, x: ArenaNodeIndice, octant: Direction, Ghost(s): Ghost<Seq<Direction>>)
        requires
            old(self).wf(),
            old(self).node_at(s) == Some(x),
            forall|k: int| 1 <= k <= 8 ==> #[trigger] old(self).capacity(k) >= 1,
        ensures
            final(self).wf(),
            final(self).node_at(s.push(octant)) is None,
            final(self).arena_view().node(x).leaf_mask == mask_without(old(self).arena_view().node(x).leaf_mask, octant),
            forall|t: Seq<Direction>| !strictly_below(s, t) ==> #[trigger] final(self).node_at(t) == old(self).node_at(t),
            final(self).keeps_nodes_outside(&*old(self), s),
            forall|q: Seq<Direction>| #[trigger] final(self).value(q) == (if strictly_below(s.push(octant), q) {
                old(self).value(s.push(octant))
            } else {
                old(self).value(q)
            }),
            forall|k: int| 1 <= k <= 8 ==> #[trigger] final(self).capacity(k) == old(self).capacity(k)
                - block_of(mask_without(old(self).arena_view().node(x).leaf_mask, octant), k)
                + block_of(old(self).arena_view().node(x).leaf_mask, k),
    {
        let ghost a = self.arena;
        let ghost root = self.root_node;
        let d = octant.to_u8();
        proof {
            lemma_not_own_children(&a, root, s);
            a.lemma_wf();
        }
        let old_mask = self.arena.get_node(x).leaf_mask;
        let new_mask = old_mask & !(1u8 << d);
        proof {
            lemma_mask_bit(old_mask, d);
            lemma_count8_bound(new_mask, 0, 8);
            lemma_zero_iff_no_bits(new_mask);
            if new_mask != 0 {
                assert(old(self).capacity(ones8(new_mask) as int) >= 1);
            }
        }
        self.arena.realloc(x, new_mask);
        proof {
            let a2 = self.arena;
            lemma_realloc_tree(&a, &a2, root, s, x, new_mask);
            lemma_realloc_depth(&a, &a2, root, s, x, new_mask);
            lemma_realloc_child(&a, &a2, root, s, x, new_mask, octant, Seq::empty());
            assert(s.push(octant) + Seq::<Direction>::empty() =~= s.push(octant));
            Direction::lemma_of_index_bits(octant);
            assert forall|t: Seq<Direction>| !strictly_below(s, t) implies #[trigger] self.node_at(t) == old(self).node_at(t) by {
                lemma_realloc_above(&a, &a2, root, s, x, new_mask, t);
            }
            assert forall|q: Seq<Direction>| #[trigger] self.value(q) == (if strictly_below(s.push(octant), q) {
                old(self).value(s.push(octant))
            } else {
                old(self).value(q)
            }) by {
                lemma_drop_child_sample(&a, &a2, root, s, x, octant, q);
            }
            assert(a2.node(x).leaf_mask == new_mask);
            assert forall|t: Seq<Direction>| !strictly_below(s, t) && t != s && #[trigger] old(self).node_at(t) is Some
                implies self.node_at(t) == old(self).node_at(t)
                    && self.arena_view().node(old(self).node_at(t).unwrap()) == old(self).arena_view().node(old(self).node_at(t).unwrap()) by {
                lemma_realloc_above(&a, &a2, root, s, x, new_mask, t);
                let l = walk(&a, root, t).unwrap();
                lemma_walk_unique(&a, root, t, s);
                assert(a.placed(l));
            }
        }
    }
}

} // verus!
