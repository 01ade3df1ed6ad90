use vstd::prelude::*;
use super::chunk::Chunk;
use super::direction::{Direction, DirectionMapper};
use super::node::Node;
use super::bounds::Bounds;
use super::voxel::Voxel;
use crate::util::bits::bit8;

verus! {

/// The two groups of four cells that share an edge along the X axis.
pub const EDGE_PROC_DIR_GROUPS_X: [[Direction; 4]; 2] = [
                [Direction::RearLeftBottom, Direction::FrontLeftBottom, Direction::FrontLeftTop, Direction::RearLeftTop],
                [Direction::RearRightBottom, Direction::FrontRightBottom, Direction::FrontRightTop, Direction::RearRightTop],
            ];

/// The two groups of four cells that share an edge along the Y axis.
pub const EDGE_PROC_DIR_GROUPS_Y: [[Direction; 4]; 2] = [
                [Direction::RearLeftBottom, Direction::RearRightBottom, Direction::FrontRightBottom, Direction::FrontLeftBottom],
                [Direction::RearLeftTop, Direction::RearRightTop, Direction::FrontRightTop, Direction::FrontLeftTop],
            ];

/// The two groups of four cells that share an edge along the Z axis.
pub const EDGE_PROC_DIR_GROUPS_Z: [[Direction; 4]; 2] = [
                [Direction::FrontLeftTop, Direction::FrontRightTop, Direction::FrontRightBottom, Direction::FrontLeftBottom],
                [Direction::RearLeftTop, Direction::RearRightTop, Direction::RearRightBottom, Direction::RearLeftBottom],
            ];

/// For each octant of the cell group around an edge along the X axis:
/// which of the four cells it is taken from, and by which octant.
pub const EDGE_PROC_DIR_TUPLES_X: [(usize, Direction); 8] = [
                (1, Direction::RearLeftTop),
                (1, Direction::RearRightTop),
                (0, Direction::FrontLeftTop),
                (0, Direction::FrontRightTop),
                (2, Direction::RearLeftBottom),
                (2, Direction::RearRightBottom),
                (3, Direction::FrontLeftBottom),
                (3, Direction::FrontRightBottom),
            ];

/// For each octant of the cell group around an edge along the Y axis:
/// which of the four cells it is taken from, and by which octant.
pub const EDGE_PROC_DIR_TUPLES_Y: [(usize, Direction); 8] = [
                (3, Direction::RearRightBottom),
                (2, Direction::RearLeftBottom),
                (0, Direction::FrontRightBottom),
                (1, Direction::FrontLeftBottom),
                (3, Direction::RearRightTop),
                (2, Direction::RearLeftTop),
                (0, Direction::FrontRightTop),
                (1, Direction::FrontLeftTop),
            ];

/// For each octant of the cell group around an edge along the Z axis:
/// which of the four cells it is taken from, and by which octant.
pub const EDGE_PROC_DIR_TUPLES_Z: [(usize, Direction); 8] = [
                (3, Direction::FrontRightTop),
                (2, Direction::FrontLeftTop),
                (3, Direction::RearRightTop),
                (2, Direction::RearLeftTop),
                (0, Direction::FrontRightBottom),
                (1, Direction::FrontLeftBottom),
                (0, Direction::RearRightBottom),
                (1, Direction::RearLeftBottom),
            ];

/// The four pairs of cells that share a face across the X axis.
pub const FACE_PROC_DIR_GROUPS_X: [(Direction, Direction); 4] = [
                (Direction::RearLeftBottom, Direction::FrontLeftBottom),
                (Direction::RearRightBottom, Direction::FrontRightBottom),
                (Direction::RearLeftTop, Direction::FrontLeftTop),
                (Direction::RearRightTop, Direction::FrontRightTop),
            ];

/// The four pairs of cells that share a face across the Y axis.
pub const FACE_PROC_DIR_GROUPS_Y: [(Direction, Direction); 4] = [
                (Direction::RearLeftBottom, Direction::RearRightBottom),
                (Direction::FrontLeftBottom, Direction::FrontRightBottom),
                (Direction::RearLeftTop, Direction::RearRightTop),
                (Direction::FrontLeftTop, Direction::FrontRightTop),
            ];

/// The four pairs of cells that share a face across the Z axis.
pub const FACE_PROC_DIR_GROUPS_Z: [(Direction, Direction); 4] = [
                (Direction::RearLeftTop, Direction::RearLeftBottom),
                (Direction::RearRightTop, Direction::RearRightBottom),
                (Direction::FrontLeftTop, Direction::FrontLeftBottom),
                (Direction::FrontRightTop, Direction::FrontRightBottom),
            ];

/// For each octant of the cell group across a face along the X axis:
/// which of the two cells it is taken from, and by which octant.
pub const FACE_PROC_DIR_TUPLES_X: [(usize, Direction); 8] = [
                (1, Direction::RearLeftBottom),
                (1, Direction::RearRightBottom),
                (0, Direction::FrontLeftBottom),
                (0, Direction::FrontRightBottom),
                (1, Direction::RearLeftTop),
                (1, Direction::RearRightTop),
                (0, Direction::FrontLeftTop),
                (0, Direction::FrontRightTop),
            ];

/// For each octant of the cell group across a face along the Y axis:
/// which of the two cells it is taken from, and by which octant.
pub const FACE_PROC_DIR_TUPLES_Y: [(usize, Direction); 8] = [
                (0, Direction::FrontRightBottom),
                (1, Direction::FrontLeftBottom),
                (0, Direction::RearRightBottom),
                (1, Direction::RearLeftBottom),
                (0, Direction::FrontRightTop),
                (1, Direction::FrontLeftTop),
                (0, Direction::RearRightTop),
                (1, Direction::RearLeftTop),
            ];

/// For each octant of the cell group across a face along the Z axis:
/// which of the two cells it is taken from, and by which octant.
pub const FACE_PROC_DIR_TUPLES_Z: [(usize, Direction); 8] = [
                (1, Direction::FrontLeftTop),
                (1, Direction::FrontRightTop),
                (1, Direction::RearLeftTop),
                (1, Direction::RearRightTop),
                (0, Direction::FrontLeftBottom),
                (0, Direction::FrontRightBottom),
                (0, Direction::RearLeftBottom),
                (0, Direction::RearRightBottom),
            ];

/// The three axes of the cube, along which the dual grid walk pairs up
/// neighbouring cells.
#[derive(Copy, Clone, Debug, PartialEq, Eq, Structural)]
pub enum Axis {
    X,
    Y,
    Z,
}

impl Axis {
    /// The axis of the first group of edges that a face along this axis has.
    pub open spec fn first_edge_axis(self) -> Axis {
        match self { Axis::X => Axis::X, Axis::Y => Axis::Z, Axis::Z => Axis::X }
    }

    /// The axis of the second group of edges that a face along this axis has.
    pub open spec fn second_edge_axis(self) -> Axis {
        match self { Axis::X => Axis::Y, Axis::Y => Axis::Y, Axis::Z => Axis::Z }
    }

    /// The table of edge groups along this axis.
    pub open spec fn edge_groups(self) -> [[Direction; 4]; 2] {
        match self { Axis::X => EDGE_PROC_DIR_GROUPS_X, Axis::Y => EDGE_PROC_DIR_GROUPS_Y, Axis::Z => EDGE_PROC_DIR_GROUPS_Z }
    }

    /// The table of octants around an edge along this axis.
    pub open spec fn edge_tuples(self) -> [(usize, Direction); 8] {
        match self { Axis::X => EDGE_PROC_DIR_TUPLES_X, Axis::Y => EDGE_PROC_DIR_TUPLES_Y, Axis::Z => EDGE_PROC_DIR_TUPLES_Z }
    }

    /// The table of face pairs across this axis.
    pub open spec fn face_groups(self) -> [(Direction, Direction); 4] {
        match self { Axis::X => FACE_PROC_DIR_GROUPS_X, Axis::Y => FACE_PROC_DIR_GROUPS_Y, Axis::Z => FACE_PROC_DIR_GROUPS_Z }
    }

    /// The table of octants across a face along this axis.
    pub open spec fn face_tuples(self) -> [(usize, Direction); 8] {
        match self { Axis::X => FACE_PROC_DIR_TUPLES_X, Axis::Y => FACE_PROC_DIR_TUPLES_Y, Axis::Z => FACE_PROC_DIR_TUPLES_Z }
    }

    /// The axis of the first group of edges that a face along this axis has.
    pub fn face_edges1(&self) -> (r: Axis)
        ensures
            r == self.first_edge_axis(),
    {
        match self {
            Axis::X => Axis::X,
            Axis::Y => Axis::Z,
            Axis::Z => Axis::X,
        }
    }

    /// The axis of the second group of edges that a face along this axis has.
    pub fn face_edges2(&self) -> (r: Axis)
        ensures
            r == self.second_edge_axis(),
    {
        match self {
            Axis::X => Axis::Y,
            Axis::Y => Axis::Y,
            Axis::Z => Axis::Z,
        }
    }

    /// The two groups of four cells that share an edge along this axis.
    pub fn edge_proc_dir_groups(&self) -> (r: [[Direction; 4]; 2])
        ensures
            r == self.edge_groups(),
    {
        match self {
            Axis::X => EDGE_PROC_DIR_GROUPS_X,
            Axis::Y => EDGE_PROC_DIR_GROUPS_Y,
            Axis::Z => EDGE_PROC_DIR_GROUPS_Z,
        }
    }

    /// For each octant of the cell group around an edge along this axis:
    /// which of the four cells it is taken from, and by which octant.
    pub fn edge_proc_dir_tuples(&self) -> (r: [(usize, Direction); 8])
        ensures
            r == self.edge_tuples(),
            forall|k: int| 0 <= k < 8 ==> #[trigger] r@[k].0 < 4,
    {
        match self {
            Axis::X => EDGE_PROC_DIR_TUPLES_X,
            Axis::Y => EDGE_PROC_DIR_TUPLES_Y,
            Axis::Z => EDGE_PROC_DIR_TUPLES_Z,
        }
    }

    /// The four pairs of cells that share a face across this axis.
    pub fn face_proc_dir_groups(&self) -> (r: [(Direction, Direction); 4])
        ensures
            r == self.face_groups(),
    {
        match self {
            Axis::X => FACE_PROC_DIR_GROUPS_X,
            Axis::Y => FACE_PROC_DIR_GROUPS_Y,
            Axis::Z => FACE_PROC_DIR_GROUPS_Z,
        }
    }

    /// For each octant of the cell group across a face along this axis:
    /// which of the two cells it is taken from, and by which octant.
    pub fn face_proc_dir_tuples(&self) -> (r: [(usize, Direction); 8])
        ensures
            r == self.face_tuples(),
            forall|k: int| 0 <= k < 8 ==> #[trigger] r@[k].0 < 2,
    {
        match self {
            Axis::X => FACE_PROC_DIR_TUPLES_X,
            Axis::Y => FACE_PROC_DIR_TUPLES_Y,
            Axis::Z => FACE_PROC_DIR_TUPLES_Z,
        }
    }
}

/// Bit `i` (0 for x, 1 for y, 2 for z) of octant number `c`: on which
/// side of that axis the octant lies.
pub open spec fn side(c: int, i: int) -> int {
    if i == 0 { c % 2 } else if i == 1 { (c / 2) % 2 } else { (c / 4) % 2 }
}

/// Octants `a` and `b` lie on different sides of axis bit `n` alone.
pub open spec fn across(a: Direction, b: Direction, n: int) -> bool {
    forall|i: int| 0 <= i < 3 ==> (#[trigger] side(a.bits() as int, i) != side(b.bits() as int, i)) == (i == n)
}

/// Every pair of the face table of `axis` is two octants on the two sides
/// of axis bit `n`: the faces that table walks are square to bit `n`.
pub open spec fn faces_across(axis: Axis, n: int) -> bool {
    forall|g: int| 0 <= g < 4 ==> across((#[trigger] axis.face_groups()@[g]).0, axis.face_groups()@[g].1, n)
}

/// Every group of the edge table of `axis` is four different octants on
/// one side of axis bit `n`: the edges that table walks run along bit `n`.
pub open spec fn edges_along(axis: Axis, n: int) -> bool {
    forall|g: int| 0 <= g < 2 ==> {
        let q = (#[trigger] axis.edge_groups()@[g])@;
        &&& forall|k: int| 0 <= k < 4 ==> side(#[trigger] q[k].bits() as int, n) == side(q[0].bits() as int, n)
        &&& forall|j: int, k: int| 0 <= j < k < 4 ==> #[trigger] q[j] != #[trigger] q[k]
    }
}

/// Inside a face, the walk visits the edges that lie in that face: the
/// two edge axes of a face run along the two axis bits other than the one
/// the face is square to, the first along the lower bit.
pub proof fn lemma_face_edges_lie_in_face(axis: Axis)
    ensures
        exists|n: int| 0 <= n < 3 && #[trigger] faces_across(axis, n),
        exists|m: int| 0 <= m < 3 && #[trigger] edges_along(axis.first_edge_axis(), m),
        exists|m: int| 0 <= m < 3 && #[trigger] edges_along(axis.second_edge_axis(), m),
        forall|n: int, m1: int, m2: int| 0 <= n < 3 && 0 <= m1 < 3 && 0 <= m2 < 3
            && #[trigger] faces_across(axis, n)
            && #[trigger] edges_along(axis.first_edge_axis(), m1)
            && #[trigger] edges_along(axis.second_edge_axis(), m2)
            ==> m1 != n && m2 != n && m1 < m2,
{
    lemma_tables_geometry();
    let (n, m1, m2) = match axis {
        Axis::X => (1int, 0int, 2int),
        Axis::Y => (0int, 1int, 2int),
        Axis::Z => (2int, 0int, 1int),
    };
    assert(faces_across(axis, n));
    assert(edges_along(axis.first_edge_axis(), m1));
    assert(edges_along(axis.second_edge_axis(), m2));
}

/// The bit each table runs along, and no other.
proof fn lemma_tables_geometry()
    ensures
        faces_across(Axis::X, 1), faces_across(Axis::Y, 0), faces_across(Axis::Z, 2),
        edges_along(Axis::X, 0), edges_along(Axis::Y, 2), edges_along(Axis::Z, 1),
        forall|n: int| 0 <= n < 3 && n != 1 ==> !#[trigger] faces_across(Axis::X, n),
        forall|n: int| 0 <= n < 3 && n != 0 ==> !#[trigger] faces_across(Axis::Y, n),
        forall|n: int| 0 <= n < 3 && n != 2 ==> !#[trigger] faces_across(Axis::Z, n),
        forall|n: int| 0 <= n < 3 && n != 0 ==> !#[trigger] edges_along(Axis::X, n),
        forall|n: int| 0 <= n < 3 && n != 2 ==> !#[trigger] edges_along(Axis::Y, n),
        forall|n: int| 0 <= n < 3 && n != 1 ==> !#[trigger] edges_along(Axis::Z, n),
{
    assert(faces_across(Axis::X, 1)) by {
        assert forall|g: int| 0 <= g < 4 implies across((#[trigger] Axis::X.face_groups()@[g]).0, Axis::X.face_groups()@[g].1, 1) by {
            if g == 0 {} else if g == 1 {} else if g == 2 {} else {}
        }
    }
    assert(faces_across(Axis::Y, 0)) by {
        assert forall|g: int| 0 <= g < 4 implies across((#[trigger] Axis::Y.face_groups()@[g]).0, Axis::Y.face_groups()@[g].1, 0) by {
            if g == 0 {} else if g == 1 {} else if g == 2 {} else {}
        }
    }
    assert(faces_across(Axis::Z, 2)) by {
        assert forall|g: int| 0 <= g < 4 implies across((#[trigger] Axis::Z.face_groups()@[g]).0, Axis::Z.face_groups()@[g].1, 2) by {
            if g == 0 {} else if g == 1 {} else if g == 2 {} else {}
        }
    }
    assert(edges_along(Axis::X, 0)) by {
        assert(Axis::X.edge_groups()@[0]@ =~= seq![Direction::RearLeftBottom, Direction::FrontLeftBottom, Direction::FrontLeftTop, Direction::RearLeftTop]);
        assert(Axis::X.edge_groups()@[1]@ =~= seq![Direction::RearRightBottom, Direction::FrontRightBottom, Direction::FrontRightTop, Direction::RearRightTop]);
    }
    assert(edges_along(Axis::Y, 2)) by {
        assert(Axis::Y.edge_groups()@[0]@ =~= seq![Direction::RearLeftBottom, Direction::RearRightBottom, Direction::FrontRightBottom, Direction::FrontLeftBottom]);
        assert(Axis::Y.edge_groups()@[1]@ =~= seq![Direction::RearLeftTop, Direction::RearRightTop, Direction::FrontRightTop, Direction::FrontLeftTop]);
    }
    assert(edges_along(Axis::Z, 1)) by {
        assert(Axis::Z.edge_groups()@[0]@ =~= seq![Direction::FrontLeftTop, Direction::FrontRightTop, Direction::FrontRightBottom, Direction::FrontLeftBottom]);
        assert(Axis::Z.edge_groups()@[1]@ =~= seq![Direction::RearLeftTop, Direction::RearRightTop, Direction::RearRightBottom, Direction::RearLeftBottom]);
    }
    assert forall|n: int| 0 <= n < 3 && n != 1 implies !#[trigger] faces_across(Axis::X, n) by {
        let g = Axis::X.face_groups()@[0];
        assert(side(g.0.bits() as int, 1) != side(g.1.bits() as int, 1));
    }
    assert forall|n: int| 0 <= n < 3 && n != 0 implies !#[trigger] faces_across(Axis::Y, n) by {
        let g = Axis::Y.face_groups()@[0];
        assert(side(g.0.bits() as int, 0) != side(g.1.bits() as int, 0));
    }
    assert forall|n: int| 0 <= n < 3 && n != 2 implies !#[trigger] faces_across(Axis::Z, n) by {
        let g = Axis::Z.face_groups()@[0];
        assert(side(g.0.bits() as int, 2) != side(g.1.bits() as int, 2));
    }
    assert forall|n: int| 0 <= n < 3 && n != 0 implies !#[trigger] edges_along(Axis::X, n) by {
        let q = Axis::X.edge_groups()@[0]@;
        assert(q[0] == Direction::RearLeftBottom && q[2] == Direction::FrontLeftTop && q[1] == Direction::FrontLeftBottom);
        assert(side(q[2].bits() as int, n) != side(q[0].bits() as int, n) || side(q[1].bits() as int, n) != side(q[0].bits() as int, n));
    }
    assert forall|n: int| 0 <= n < 3 && n != 2 implies !#[trigger] edges_along(Axis::Y, n) by {
        let q = Axis::Y.edge_groups()@[0]@;
        assert(q[0] == Direction::RearLeftBottom && q[1] == Direction::RearRightBottom && q[2] == Direction::FrontRightBottom);
        assert(side(q[1].bits() as int, n) != side(q[0].bits() as int, n) || side(q[2].bits() as int, n) != side(q[0].bits() as int, n));
    }
    assert forall|n: int| 0 <= n < 3 && n != 1 implies !#[trigger] edges_along(Axis::Z, n) by {
        let q = Axis::Z.edge_groups()@[0]@;
        assert(q[0] == Direction::FrontLeftTop && q[1] == Direction::FrontRightTop && q[2] == Direction::FrontRightBottom);
        assert(side(q[1].bits() as int, n) != side(q[0].bits() as int, n) || side(q[2].bits() as int, n) != side(q[0].bits() as int, n));
    }
}

/// The four pairs of a face table take in every octant, so each exactly
/// once; so do the two groups of four of an edge table.
pub proof fn lemma_tables_cover(axis: Axis, d: Direction)
    ensures
        exists|g: int| 0 <= g < 4 && (#[trigger] axis.face_groups()@[g].0 == d || axis.face_groups()@[g].1 == d),
        exists|g: int, k: int| 0 <= g < 2 && 0 <= k < 4 && #[trigger] axis.edge_groups()@[g]@[k] == d,
{
    let fg = axis.face_groups();
    let eg = axis.edge_groups();
    let (gf, ge, ke): (int, int, int) = match (axis, d) {
        (Axis::X, Direction::FrontLeftBottom) => (0, 0, 1),
        (Axis::X, Direction::FrontRightBottom) => (1, 1, 1),
        (Axis::X, Direction::RearLeftBottom) => (0, 0, 0),
        (Axis::X, Direction::RearRightBottom) => (1, 1, 0),
        (Axis::X, Direction::FrontLeftTop) => (2, 0, 2),
        (Axis::X, Direction::FrontRightTop) => (3, 1, 2),
        (Axis::X, Direction::RearLeftTop) => (2, 0, 3),
        (Axis::X, Direction::RearRightTop) => (3, 1, 3),
        (Axis::Y, Direction::FrontLeftBottom) => (1, 0, 3),
        (Axis::Y, Direction::FrontRightBottom) => (1, 0, 2),
        (Axis::Y, Direction::RearLeftBottom) => (0, 0, 0),
        (Axis::Y, Direction::RearRightBottom) => (0, 0, 1),
        (Axis::Y, Direction::FrontLeftTop) => (3, 1, 3),
        (Axis::Y, Direction::FrontRightTop) => (3, 1, 2),
        (Axis::Y, Direction::RearLeftTop) => (2, 1, 0),
        (Axis::Y, Direction::RearRightTop) => (2, 1, 1),
        (Axis::Z, Direction::FrontLeftBottom) => (2, 0, 3),
        (Axis::Z, Direction::FrontRightBottom) => (3, 0, 2),
        (Axis::Z, Direction::RearLeftBottom) => (0, 1, 3),
        (Axis::Z, Direction::RearRightBottom) => (1, 1, 2),
        (Axis::Z, Direction::FrontLeftTop) => (2, 0, 0),
        (Axis::Z, Direction::FrontRightTop) => (3, 0, 1),
        (Axis::Z, Direction::RearLeftTop) => (0, 1, 0),
        (Axis::Z, Direction::RearRightTop) => (1, 1, 1),
    };
    assert(fg@[gf].0 == d || fg@[gf].1 == d);
    assert(eg@[ge]@[ke] == d);
}

/// Octant `d` is octant `k` seen from across axis bit `n`: it lies on the
/// other side of that axis and on the same side of the others.
pub open spec fn flipped(d: Direction, k: int, n: int) -> bool {
    forall|i: int| 0 <= i < 3 ==> #[trigger] side(d.bits() as int, i) == (if i == n { 1 - side(k, i) } else { side(k, i) })
}

/// Octant `d` is octant `k` seen diagonally across an edge along axis
/// bit `m`: on the other side of both other axes, the same side of `m`.
pub open spec fn flipped_around(d: Direction, k: int, m: int) -> bool {
    forall|i: int| 0 <= i < 3 ==> #[trigger] side(d.bits() as int, i) == (if i == m { side(k, i) } else { 1 - side(k, i) })
}

/// The eight nodes that a face walk groups up stand around the face's
/// centre: octant `k` of the group is the child of the face node on the
/// same side of the face as `k`, on that child's octant nearest the face
/// (octant `k` flipped across the face).
pub proof fn lemma_face_tuples_surround_face(axis: Axis, n: int, g: int, k: int)
    requires
        0 <= n < 3,
        faces_across(axis, n),
        0 <= g < 4,
        0 <= k < 8,
    ensures
        ({
            let (w, d) = axis.face_tuples()@[k];
            let pair = axis.face_groups()@[g];
            let node = if w == 0 { pair.0 } else { pair.1 };
            &&& w < 2
            &&& side(node.bits() as int, n) == side(k, n)
            &&& flipped(d, k, n)
        }),
{
    lemma_tables_geometry();
    assert(across(axis.face_groups()@[g].0, axis.face_groups()@[g].1, n));
    if g == 0 {} else if g == 1 {} else if g == 2 {} else {}
    if k == 0 {} else if k == 1 {} else if k == 2 {} else if k == 3 {}
    else if k == 4 {} else if k == 5 {} else if k == 6 {} else {}
}

/// The eight nodes that an edge walk groups up stand around the edge:
/// octant `k` of the group is the child of the edge node on the same sides
/// as `k` of the two axes across the edge, on that child's octant nearest
/// the edge (octant `k` flipped across both).
pub proof fn lemma_edge_tuples_surround_edge(axis: Axis, m: int, g: int, k: int)
    requires
        0 <= m < 3,
        edges_along(axis, m),
        0 <= g < 2,
        0 <= k < 8,
    ensures
        ({
            let (w, d) = axis.edge_tuples()@[k];
            let node = axis.edge_groups()@[g]@[w as int];
            &&& w < 4
            &&& forall|i: int| 0 <= i < 3 && i != m ==> #[trigger] side(node.bits() as int, i) == side(k, i)
            &&& flipped_around(d, k, m)
        }),
{
    lemma_tables_geometry();
    if g == 0 {} else {}
    if k == 0 {} else if k == 1 {} else if k == 2 {} else if k == 3 {}
    else if k == 4 {} else if k == 5 {} else if k == 6 {} else {}
}

/// How many more levels a subdivided node can go down; none for a leaf.
pub open spec fn depth_left(n: Node) -> int {
    if n.arena_node is Some && n.index_path@.len() < 21 { 21 - n.index_path@.len() } else { 0 }
}

/// The most levels any of the nodes `s` can go down.
pub open spec fn max_depth_left(s: Seq<Node>) -> int
    decreases s.len(),
{
    if s.len() == 0 {
        0
    } else {
        let m = max_depth_left(s.drop_last());
        let d = depth_left(s.last());
        if d > m { d } else { m }
    }
}

/// The levels the nodes `s` can go down, all told.
pub open spec fn sum_depth_left(s: Seq<Node>) -> int
    decreases s.len(),
{
    if s.len() == 0 { 0 } else { sum_depth_left(s.drop_last()) + depth_left(s.last()) }
}

proof fn lemma_max_depth_left(s: Seq<Node>, b: int)
    ensures
        forall|i: int| 0 <= i < s.len() ==> #[trigger] depth_left(s[i]) <= max_depth_left(s),
        max_depth_left(s) >= 0,
        (b >= 0 && forall|i: int| 0 <= i < s.len() ==> #[trigger] depth_left(s[i]) <= b) ==> max_depth_left(s) <= b,
    decreases s.len(),
{
    if s.len() > 0 {
        lemma_max_depth_left(s.drop_last(), b);
        assert forall|i: int| 0 <= i < s.len() implies #[trigger] depth_left(s[i]) <= max_depth_left(s) by {
            if i < s.len() - 1 {
                assert(s[i] == s.drop_last()[i]);
            }
        }
        if b >= 0 && forall|i: int| 0 <= i < s.len() ==> #[trigger] depth_left(s[i]) <= b {
            assert forall|i: int| 0 <= i < s.drop_last().len() implies #[trigger] depth_left(s.drop_last()[i]) <= b by {
                assert(s.drop_last()[i] == s[i]);
            }
        }
    }
}

/// Replacing one node by one that goes down fewer levels lowers the total.
proof fn lemma_sum_depth_left_update(s: Seq<Node>, i: int, n: Node)
    requires
        0 <= i < s.len(),
    ensures
        sum_depth_left(s.update(i, n)) == sum_depth_left(s) - depth_left(s[i]) + depth_left(n),
    decreases s.len(),
{
    if i < s.len() - 1 {
        lemma_sum_depth_left_update(s.drop_last(), i, n);
        assert(s.update(i, n).drop_last() =~= s.drop_last().update(i, n));
    } else {
        assert(s.update(i, n).drop_last() =~= s.drop_last());
    }
}

proof fn lemma_sum_depth_left_nonneg(s: Seq<Node>)
    ensures
        sum_depth_left(s) >= 0,
        forall|i: int| 0 <= i < s.len() ==> #[trigger] depth_left(s[i]) >= 0,
    decreases s.len(),
{
    if s.len() > 0 {
        lemma_sum_depth_left_nonneg(s.drop_last());
        assert forall|i: int| 0 <= i < s.len() implies #[trigger] depth_left(s[i]) >= 0 by {
            if i < s.len() - 1 {
                assert(s[i] == s.drop_last()[i]);
            }
        }
    }
}

/// The voxel a node at path `p` of `c` carries: what `p` reads, or the
/// empty voxel for the root, whose value is not kept.
pub open spec fn node_voxel(c: Chunk, p: Seq<Direction>) -> Voxel {
    if p.len() == 0 { Voxel::empty() } else { c.value(p) }
}

/// The node is the one `chunk` holds at its path: where it and its parent
/// lie in the arena, the cube it covers and the voxel it carries.
pub open spec fn placed(n: Node, chunk: &Chunk) -> bool {
    &&& n.in_chunk(chunk)
    &&& n.bounds == Bounds::of_path(n.index_path@)
    &&& n.voxel == node_voxel(*chunk, n.index_path@)
}

/// Each of the nodes is the one `chunk` holds at its path.
pub open spec fn all_placed(s: Seq<Node>, chunk: &Chunk) -> bool {
    forall|i: int| 0 <= i < s.len() ==> placed(#[trigger] s[i], chunk)
}

/// A cell of the dual grid: eight leaves of the chunk, one per corner.
pub open spec fn leaf_cell(cell: DirectionMapper<Node>, chunk: &Chunk) -> bool {
    forall|i: int| 0 <= i < 8 ==> (#[trigger] cell.data@[i]).arena_node is None && placed(cell.data@[i], chunk)
}

/// The paths of a group of nodes.
pub open spec fn paths(s: Seq<Node>) -> Seq<Seq<Direction>> {
    s.map_values(|n: Node| n.index_path@)
}

/// The paths of the corners of each cell, cell by cell.
pub open spec fn cell_paths(cells: Seq<DirectionMapper<Node>>) -> Seq<Seq<Seq<Direction>>> {
    cells.map_values(|m: DirectionMapper<Node>| paths(m.data@))
}

/// Where octant `d` of the node at path `p` lies: one level down where
/// `p` leads to a subdivided node; a leaf stands for all its octants.
pub open spec fn kid(c: Chunk, p: Seq<Direction>, d: Direction) -> Seq<Direction> {
    if c.node_at(p) is Some { p.push(d) } else { p }
}

/// The leaf reached from path `p` by going into octant `d`, level after
/// level, at most `fuel` levels.
pub open spec fn descend(c: Chunk, p: Seq<Direction>, d: Direction, fuel: nat) -> Seq<Direction>
    decreases fuel,
{
    if fuel == 0 || c.node_at(p) is None {
        p
    } else {
        descend(c, p.push(d), d, (fuel - 1) as nat)
    }
}

/// The cell where the eight nodes of a group meet: each node followed
/// into the octant that faces the group's centre, down to a leaf.
pub open spec fn vert_cell(c: Chunk, ps: Seq<Seq<Direction>>) -> Seq<Seq<Direction>> {
    Seq::new(8, |i: int| descend(c, ps[i], Direction::of_index(7 - i), 21))
}

/// The eight octants of the node at path `p`, in the order of their numbers.
pub open spec fn child_paths(c: Chunk, p: Seq<Direction>) -> Seq<Seq<Direction>> {
    Seq::new(8, |i: int| kid(c, p, Direction::of_index(i)))
}

/// The group of eight octants that a table picks out of the nodes `ps`.
pub open spec fn regroup(c: Chunk, ps: Seq<Seq<Direction>>, t: Seq<(usize, Direction)>) -> Seq<Seq<Direction>> {
    Seq::new(8, |k: int| kid(c, ps[t[k].0 as int], t[k].1))
}

/// All the paths `ps` end in leaves.
pub open spec fn all_leaves(c: Chunk, ps: Seq<Seq<Direction>>) -> bool {
    forall|i: int| 0 <= i < ps.len() ==> (#[trigger] c.node_at(ps[i])) is None
}

/// The cells found inside the node at path `p`, in the order the walk
/// finds them: those inside each child, then those across the faces and
/// along the edges between the children, then the one at its centre.
pub open spec fn node_cells(c: Chunk, p: Seq<Direction>, fuel: nat) -> Seq<Seq<Seq<Direction>>>
    decreases fuel, 0int, 0nat,
{
    if fuel == 0 || c.node_at(p) is None {
        Seq::empty()
    } else {
        let ks = child_paths(c, p);
        let f = (fuel - 1) as nat;
        kids_cells(c, ks, f, 8)
            + face_children_cells(c, Axis::X, ks, f, 4)
            + face_children_cells(c, Axis::Y, ks, f, 4)
            + face_children_cells(c, Axis::Z, ks, f, 4)
            + edge_children_cells(c, Axis::X, ks, f, 2)
            + edge_children_cells(c, Axis::Y, ks, f, 2)
            + edge_children_cells(c, Axis::Z, ks, f, 2)
            + seq![vert_cell(c, ks)]
    }
}

/// The cells found inside the first `n` of the children `ks`.
pub open spec fn kids_cells(c: Chunk, ks: Seq<Seq<Direction>>, fuel: nat, n: nat) -> Seq<Seq<Seq<Direction>>>
    decreases fuel, 1int, n,
{
    if n == 0 {
        Seq::empty()
    } else {
        kids_cells(c, ks, fuel, (n - 1) as nat) + node_cells(c, ks[n - 1], fuel)
    }
}

/// The cells found across the face that the two nodes `ps` share along
/// `axis`.
pub open spec fn face_cells(c: Chunk, axis: Axis, ps: Seq<Seq<Direction>>, fuel: nat) -> Seq<Seq<Seq<Direction>>>
    decreases fuel, 0int, 0nat,
{
    if fuel == 0 || all_leaves(c, ps) {
        Seq::empty()
    } else {
        let ks = regroup(c, ps, axis.face_tuples()@);
        let f = (fuel - 1) as nat;
        face_children_cells(c, axis, ks, f, 4)
            + edge_children_cells(c, axis.first_edge_axis(), ks, f, 2)
            + edge_children_cells(c, axis.second_edge_axis(), ks, f, 2)
            + seq![vert_cell(c, ks)]
    }
}

/// The cells found across the first `n` faces along `axis` between the
/// eight nodes `ks`.
pub open spec fn face_children_cells(c: Chunk, axis: Axis, ks: Seq<Seq<Direction>>, fuel: nat, n: nat) -> Seq<Seq<Seq<Direction>>>
    decreases fuel, 1int, n,
{
    if n == 0 {
        Seq::empty()
    } else {
        let g = axis.face_groups()@[n - 1];
        face_children_cells(c, axis, ks, fuel, (n - 1) as nat)
            + face_cells(c, axis, seq![ks[g.0.bits() as int], ks[g.1.bits() as int]], fuel)
    }
}

/// The cells found along the edge that the four nodes `ps` share along
/// `axis`.
pub open spec fn edge_cells(c: Chunk, axis: Axis, ps: Seq<Seq<Direction>>, fuel: nat) -> Seq<Seq<Seq<Direction>>>
    decreases fuel, 0int, 0nat,
{
    if fuel == 0 || all_leaves(c, ps) {
        Seq::empty()
    } else {
        let ks = regroup(c, ps, axis.edge_tuples()@);
        edge_children_cells(c, axis, ks, (fuel - 1) as nat, 2) + seq![vert_cell(c, ks)]
    }
}

/// The cells found along the first `n` edges along `axis` between the
/// eight nodes `ks`.
pub open spec fn edge_children_cells(c: Chunk, axis: Axis, ks: Seq<Seq<Direction>>, fuel: nat, n: nat) -> Seq<Seq<Seq<Direction>>>
    decreases fuel, 1int, n,
{
    if n == 0 {
        Seq::empty()
    } else {
        let g = axis.edge_groups()@[n - 1];
        edge_children_cells(c, axis, ks, fuel, (n - 1) as nat)
            + edge_cells(c, axis, seq![ks[g@[0].bits() as int], ks[g@[1].bits() as int], ks[g@[2].bits() as int], ks[g@[3].bits() as int]], fuel)
    }
}

/// The cells of the dual grid of `c`: those found inside its root.
pub open spec fn dual_cells(c: Chunk) -> Seq<Seq<Seq<Direction>>> {
    node_cells(c, Seq::empty(), 21)
}

proof fn lemma_add_assoc<A>(a: Seq<A>, b: Seq<A>, c: Seq<A>)
    ensures
        (a + b) + c == a + (b + c),
{
    assert((a + b) + c =~= a + (b + c));
}

proof fn lemma_cell_paths_push(s: Seq<DirectionMapper<Node>>, m: DirectionMapper<Node>)
    ensures
        cell_paths(s.push(m)) == cell_paths(s) + seq![paths(m.data@)],
{
    assert(cell_paths(s.push(m)) =~= cell_paths(s) + seq![paths(m.data@)]);
}

/// A node of a chunk's tree goes down no more levels than are left.
proof fn lemma_depth_left_bounds(n: Node, chunk: &Chunk)
    requires
        chunk.wf(),
        n.in_chunk(chunk),
    ensures
        n.arena_node is Some ==> n.index_path@.len() < 21,
        depth_left(n) >= 0,
{
    if n.arena_node is Some {
        chunk.lemma_node_at(n.index_path@, Direction::FrontLeftBottom);
    }
}

/// The child of a placed node is placed at the octant's path; it goes
/// down fewer levels than a subdivided node, and no levels below a leaf.
proof fn lemma_child(n: Node, c: Node, dir: Direction, chunk: &Chunk)
    requires
        chunk.wf(),
        placed(n, chunk),
        n.arena_node is None ==> c == n,
        n.arena_node is Some ==> {
            &&& c.index_path@ == n.index_path@.push(dir)
            &&& c.in_chunk(chunk)
            &&& c.voxel == chunk.value(c.index_path@)
            &&& c.bounds == n.bounds.half_spec(dir)
        },
    ensures
        placed(c, chunk),
        c.index_path@ == kid(*chunk, n.index_path@, dir),
        n.arena_node is Some ==> depth_left(c) < depth_left(n),
        n.arena_node is None ==> depth_left(c) == 0,
        depth_left(c) >= 0,
{
    lemma_depth_left_bounds(n, chunk);
    lemma_depth_left_bounds(c, chunk);
    if n.arena_node is Some {
        let p = n.index_path@;
        assert(p.push(dir).drop_last() =~= p);
    }
}

/// The dual grid of a chunk: the cells formed by the leaves that meet
/// around every corner of the octree, found by walking nodes, faces and
/// edges of the tree.
pub struct DualGrid<'a> {
    chunk: &'a Chunk,
    pub dual_cells: Vec<DirectionMapper<Node>>,
}

impl<'a> DualGrid<'a> {
    /// The chunk walked.
    pub closed spec fn chunk_spec(&self) -> Chunk {
        *self.chunk
    }

    /// The cells found so far, in the order they were found.
    pub closed spec fn cells(&self) -> Seq<DirectionMapper<Node>> {
        self.dual_cells@
    }

    /// Every cell found is made of leaves of the chunk.
    pub closed spec fn wf(&self) -> bool {
        &&& self.chunk.wf()
        &&& forall|i: int| 0 <= i < self.dual_cells@.len() ==> leaf_cell(#[trigger] self.dual_cells@[i], self.chunk)
    }

    /// A walk over `chunk` with no cell found yet.
    pub fn new(chunk: &'a Chunk) -> (r: Self)
        requires
            chunk.wf(),
        ensures
            r.wf(),
            r.chunk_spec() == *chunk,
            r.cells().len() == 0,
    {
        DualGrid { chunk, dual_cells: Vec::new() }
    }

    /// Finds the cells of the whole chunk, from the root down, and adds
    /// them after those found before: each cell is made of the leaves of
    /// the chunk at its corners' paths.
    pub fn create_dualgrid(&mut self)
        requires
            old(self).wf(),
        ensures
            final(self).wf(),
            final(self).chunk_spec() == old(self).chunk_spec(),
            cell_paths(final(self).cells()) == cell_paths(old(self).cells()) + dual_cells(old(self).chunk_spec()),
            forall|i: int| 0 <= i < final(self).cells().len() ==> leaf_cell(#[trigger] final(self).cells()[i], &final(self).chunk_spec()),
    {
        let root = self.chunk.root();
        proof {
            lemma_depth_left_bounds(root, self.chunk);
            assert(root.index_path@ =~= Seq::<Direction>::empty());
        }
        self.node_proc(&root, Ghost(21));
    }

    /// The eight children of `node`.
    fn children(&self, node: &Node) -> (r: DirectionMapper<Node>)
        requires
            self.wf(),
            placed(*node, self.chunk),
        ensures
            all_placed(r.data@, self.chunk),
            paths(r.data@) == child_paths(*self.chunk, node.index_path@),
            forall|i: int| 0 <= i < 8 ==> node.arena_node is Some ==> #[trigger] depth_left(r.data@[i]) < depth_left(*node),
            forall|i: int| 0 <= i < 8 ==> node.arena_node is None ==> #[trigger] depth_left(r.data@[i]) == 0,
    {
        let c0 = node.child(Direction::FrontLeftBottom, self.chunk);
        let c1 = node.child(Direction::FrontRightBottom, self.chunk);
        let c2 = node.child(Direction::RearLeftBottom, self.chunk);
        let c3 = node.child(Direction::RearRightBottom, self.chunk);
        let c4 = node.child(Direction::FrontLeftTop, self.chunk);
        let c5 = node.child(Direction::FrontRightTop, self.chunk);
        let c6 = node.child(Direction::RearLeftTop, self.chunk);
        let c7 = node.child(Direction::RearRightTop, self.chunk);
        proof {
            lemma_child(*node, c0, Direction::FrontLeftBottom, self.chunk);
            lemma_child(*node, c1, Direction::FrontRightBottom, self.chunk);
            lemma_child(*node, c2, Direction::RearLeftBottom, self.chunk);
            lemma_child(*node, c3, Direction::RearRightBottom, self.chunk);
            lemma_child(*node, c4, Direction::FrontLeftTop, self.chunk);
            lemma_child(*node, c5, Direction::FrontRightTop, self.chunk);
            lemma_child(*node, c6, Direction::RearLeftTop, self.chunk);
            lemma_child(*node, c7, Direction::RearRightTop, self.chunk);
        }
        let r = DirectionMapper::new([c0, c1, c2, c3, c4, c5, c6, c7]);
        proof {
            let c = *self.chunk;
            let p = node.index_path@;
            assert forall|i: int| 0 <= i < 8 implies placed(#[trigger] r.data@[i], self.chunk)
                && r.data@[i].index_path@ == kid(c, p, Direction::of_index(i)) by {
                if i == 0 {} else if i == 1 {} else if i == 2 {} else if i == 3 {}
                else if i == 4 {} else if i == 5 {} else if i == 6 {} else {}
            }
            assert(paths(r.data@) =~= child_paths(c, p));
        }
        r
    }

    fn node_proc(&mut self, node: &Node, Ghost(fuel): Ghost<nat>)
        requires
            old(self).wf(),
            placed(*node, old(self).chunk),
            fuel >= depth_left(*node),
        ensures
            final(self).wf(),
            final(self).chunk == old(self).chunk,
            cell_paths(final(self).dual_cells@)
                == cell_paths(old(self).dual_cells@) + node_cells(*old(self).chunk, node.index_path@, fuel),
        decreases depth_left(*node),
    {
        let ghost c = *self.chunk;
        let ghost start = cell_paths(self.dual_cells@);
        if node.is_leaf() {
            proof {
                assert(start + Seq::<Seq<Seq<Direction>>>::empty() =~= start);
            }
            return;
        }
        proof {
            lemma_depth_left_bounds(*node, self.chunk);
        }
        let ghost f: nat = (fuel - 1) as nat;
        let children = self.children(node);
        let ghost ks = paths(children.data@);
        let mut i: usize = 0;
        while i < 8
            invariant
                self.wf(),
                self.chunk == old(self).chunk,
                c == *self.chunk,
                node.arena_node is Some,
                all_placed(children.data@, self.chunk),
                forall|k: int| 0 <= k < 8 ==> #[trigger] depth_left(children.data@[k]) < depth_left(*node),
                depth_left(*node) <= fuel,
                f == fuel - 1,
                ks == paths(children.data@),
                cell_paths(self.dual_cells@) == start + kids_cells(c, ks, f, i as nat),
                i <= 8,
            decreases 8 - i,
        {
            self.node_proc(&children.data[i], Ghost(f));
            proof {
                lemma_add_assoc(start, kids_cells(c, ks, f, i as nat), node_cells(c, ks[i as int], f));
            }
            i = i + 1;
        }
        let ghost mut acc = kids_cells(c, ks, f, 8);
        proof {
            lemma_max_depth_left(children.data@, f as int);
        }
        self.face_proc_children(Axis::X, &children, Ghost(f));
        proof {
            lemma_add_assoc(start, acc, face_children_cells(c, Axis::X, ks, f, 4));
            acc = acc + face_children_cells(c, Axis::X, ks, f, 4);
        }
        self.face_proc_children(Axis::Y, &children, Ghost(f));
        proof {
            lemma_add_assoc(start, acc, face_children_cells(c, Axis::Y, ks, f, 4));
            acc = acc + face_children_cells(c, Axis::Y, ks, f, 4);
        }
        self.face_proc_children(Axis::Z, &children, Ghost(f));
        proof {
            lemma_add_assoc(start, acc, face_children_cells(c, Axis::Z, ks, f, 4));
            acc = acc + face_children_cells(c, Axis::Z, ks, f, 4);
        }

        self.edge_proc_children(Axis::X, &children, Ghost(f));
        proof {
            lemma_add_assoc(start, acc, edge_children_cells(c, Axis::X, ks, f, 2));
            acc = acc + edge_children_cells(c, Axis::X, ks, f, 2);
        }
        self.edge_proc_children(Axis::Y, &children, Ghost(f));
        proof {
            lemma_add_assoc(start, acc, edge_children_cells(c, Axis::Y, ks, f, 2));
            acc = acc + edge_children_cells(c, Axis::Y, ks, f, 2);
        }
        self.edge_proc_children(Axis::Z, &children, Ghost(f));
        proof {
            lemma_add_assoc(start, acc, edge_children_cells(c, Axis::Z, ks, f, 2));
            acc = acc + edge_children_cells(c, Axis::Z, ks, f, 2);
        }

        self.vert_proc(children.data);
        proof {
            lemma_add_assoc(start, acc, seq![vert_cell(c, ks)]);
            acc = acc + seq![vert_cell(c, ks)];
            assert(acc == node_cells(c, node.index_path@, fuel));
        }
    }

    fn face_proc_children(&mut self, axis: Axis, children: &DirectionMapper<Node>, Ghost(fuel): Ghost<nat>)
        requires
            old(self).wf(),
            all_placed(children.data@, old(self).chunk),
            fuel >= max_depth_left(children.data@),
        ensures
            final(self).wf(),
            final(self).chunk == old(self).chunk,
            cell_paths(final(self).dual_cells@)
                == cell_paths(old(self).dual_cells@) + face_children_cells(*old(self).chunk, axis, paths(children.data@), fuel, 4),
        decreases max_depth_left(children.data@), 1int,
    {
        let ghost c = *self.chunk;
        let ghost start = cell_paths(self.dual_cells@);
        let ghost ks = paths(children.data@);
        let groups = axis.face_proc_dir_groups();
        let mut g: usize = 0;
        proof {
            lemma_max_depth_left(children.data@, 0);
        }
        while g < 4
            invariant
                self.wf(),
                self.chunk == old(self).chunk,
                c == *self.chunk,
                groups == axis.face_groups(),
                all_placed(children.data@, self.chunk),
                forall|k: int| 0 <= k < 8 ==> #[trigger] depth_left(children.data@[k]) <= max_depth_left(children.data@),
                max_depth_left(children.data@) >= 0,
                fuel >= max_depth_left(children.data@),
                ks == paths(children.data@),
                cell_paths(self.dual_cells@) == start + face_children_cells(c, axis, ks, fuel, g as nat),
                g <= 4,
            decreases 4 - g,
        {
            let (dir1, dir2) = groups[g];
            let n1 = *children.get(dir1);
            let n2 = *children.get(dir2);
            proof {
                Direction::lemma_of_index_bits(dir1);
                Direction::lemma_of_index_bits(dir2);
                let s = seq![n1, n2];
                assert(s =~= [n1, n2]@);
                lemma_max_depth_left(s, max_depth_left(children.data@));
                assert(paths([n1, n2]@) =~= seq![ks[dir1.bits() as int], ks[dir2.bits() as int]]);
            }
            self.face_proc(axis, [n1, n2], Ghost(fuel));
            proof {
                lemma_add_assoc(start, face_children_cells(c, axis, ks, fuel, g as nat),
                    face_cells(c, axis, seq![ks[dir1.bits() as int], ks[dir2.bits() as int]], fuel));
            }
            g = g + 1;
        }
    }

    fn face_proc(&mut self, axis: Axis, nodes: [Node; 2], Ghost(fuel): Ghost<nat>)
        requires
            old(self).wf(),
            all_placed(nodes@, old(self).chunk),
            fuel >= max_depth_left(nodes@),
        ensures
            final(self).wf(),
            final(self).chunk == old(self).chunk,
            cell_paths(final(self).dual_cells@)
                == cell_paths(old(self).dual_cells@) + face_cells(*old(self).chunk, axis, paths(nodes@), fuel),
        decreases max_depth_left(nodes@), 0int,
    {
        let ghost c = *self.chunk;
        let ghost start = cell_paths(self.dual_cells@);
        let ghost ps = paths(nodes@);
        proof {
            assert(nodes@[0].in_chunk(self.chunk));
            assert(nodes@[1].in_chunk(self.chunk));
        }
        if nodes[0].is_leaf() && nodes[1].is_leaf() {
            proof {
                assert(all_leaves(c, ps));
                assert(start + Seq::<Seq<Seq<Direction>>>::empty() =~= start);
            }
            return;
        }
        let tuples = axis.face_proc_dir_tuples();
        let ghost m = max_depth_left(nodes@);
        proof {
            lemma_max_depth_left(nodes@, 0);
            lemma_depth_left_bounds(nodes@[0], self.chunk);
            lemma_depth_left_bounds(nodes@[1], self.chunk);
            assert(m >= 1);
            assert(ps[0] == nodes@[0].index_path@);
            assert(ps[1] == nodes@[1].index_path@);
            if all_leaves(c, ps) {
                assert(c.node_at(ps[0]) is None);
                assert(c.node_at(ps[1]) is None);
            }
        }
        let ghost f: nat = (fuel - 1) as nat;
        let mut data: [Node; 8] = [nodes[0]; 8];
        let mut k: usize = 0;
        while k < 8
            invariant
                self.wf(),
                c == *self.chunk,
                all_placed(nodes@, self.chunk),
                all_placed(data@, self.chunk),
                tuples == axis.face_tuples(),
                forall|j: int| 0 <= j < 8 ==> #[trigger] tuples@[j].0 < 2,
                forall|j: int| 0 <= j < 2 ==> #[trigger] depth_left(nodes@[j]) <= m,
                m >= 1,
                ps == paths(nodes@),
                forall|j: int| 0 <= j < k ==> #[trigger] depth_left(data@[j]) < m,
                forall|j: int| 0 <= j < k ==> #[trigger] data@[j].index_path@ == regroup(c, ps, tuples@)[j],
                k <= 8,
            decreases 8 - k,
        {
            let (which, dir) = tuples[k];
            let n = nodes[which];
            let ch = n.child(dir, self.chunk);
            proof {
                assert(nodes@[which as int] == n);
                lemma_child(n, ch, dir, self.chunk);
            }
            data[k] = ch;
            k = k + 1;
        }
        let children = DirectionMapper::new(data);
        let ghost ks = regroup(c, ps, tuples@);
        proof {
            lemma_max_depth_left(children.data@, m - 1);
            assert(paths(children.data@) =~= ks);
        }
        let ghost mut acc = Seq::<Seq<Seq<Direction>>>::empty();
        proof {
            assert(start + acc =~= start);
        }
        self.face_proc_children(axis, &children, Ghost(f));
        proof {
            lemma_add_assoc(start, acc, face_children_cells(c, axis, ks, f, 4));
            acc = acc + face_children_cells(c, axis, ks, f, 4);
        }
        self.edge_proc_children(axis.face_edges1(), &children, Ghost(f));
        proof {
            lemma_add_assoc(start, acc, edge_children_cells(c, axis.first_edge_axis(), ks, f, 2));
            acc = acc + edge_children_cells(c, axis.first_edge_axis(), ks, f, 2);
        }
        self.edge_proc_children(axis.face_edges2(), &children, Ghost(f));
        proof {
            lemma_add_assoc(start, acc, edge_children_cells(c, axis.second_edge_axis(), ks, f, 2));
            acc = acc + edge_children_cells(c, axis.second_edge_axis(), ks, f, 2);
        }
        self.vert_proc(children.data);
        proof {
            lemma_add_assoc(start, acc, seq![vert_cell(c, ks)]);
            acc = acc + seq![vert_cell(c, ks)];
            assert(Seq::<Seq<Seq<Direction>>>::empty() + face_children_cells(c, axis, ks, f, 4)
                =~= face_children_cells(c, axis, ks, f, 4));
            assert(acc == face_cells(c, axis, ps, fuel));
        }
    }

    fn edge_proc_children(&mut self, axis: Axis, children: &DirectionMapper<Node>, Ghost(fuel): Ghost<nat>)
        requires
            old(self).wf(),
            all_placed(children.data@, old(self).chunk),
            fuel >= max_depth_left(children.data@),
        ensures
            final(self).wf(),
            final(self).chunk == old(self).chunk,
            cell_paths(final(self).dual_cells@)
                == cell_paths(old(self).dual_cells@) + edge_children_cells(*old(self).chunk, axis, paths(children.data@), fuel, 2),
        decreases max_depth_left(children.data@), 1int,
    {
        let ghost c = *self.chunk;
        let ghost start = cell_paths(self.dual_cells@);
        let ghost ks = paths(children.data@);
        let dir_groups = axis.edge_proc_dir_groups();
        let mut g: usize = 0;
        proof {
            lemma_max_depth_left(children.data@, 0);
        }
        while g < 2
            invariant
                self.wf(),
                self.chunk == old(self).chunk,
                c == *self.chunk,
                dir_groups == axis.edge_groups(),
                all_placed(children.data@, self.chunk),
                forall|k: int| 0 <= k < 8 ==> #[trigger] depth_left(children.data@[k]) <= max_depth_left(children.data@),
                max_depth_left(children.data@) >= 0,
                fuel >= max_depth_left(children.data@),
                ks == paths(children.data@),
                cell_paths(self.dual_cells@) == start + edge_children_cells(c, axis, ks, fuel, g as nat),
                g <= 2,
            decreases 2 - g,
        {
            let group = dir_groups[g];
            let n0 = *children.get(group[0]);
            let n1 = *children.get(group[1]);
            let n2 = *children.get(group[2]);
            let n3 = *children.get(group[3]);
            let ghost qs = seq![ks[group@[0].bits() as int], ks[group@[1].bits() as int], ks[group@[2].bits() as int], ks[group@[3].bits() as int]];
            proof {
                Direction::lemma_of_index_bits(group[0]);
                Direction::lemma_of_index_bits(group[1]);
                Direction::lemma_of_index_bits(group[2]);
                Direction::lemma_of_index_bits(group[3]);
                let s = seq![n0, n1, n2, n3];
                assert(s =~= [n0, n1, n2, n3]@);
                lemma_max_depth_left(s, max_depth_left(children.data@));
                assert(paths([n0, n1, n2, n3]@) =~= qs);
            }
            self.edge_proc(axis, [n0, n1, n2, n3], Ghost(fuel));
            proof {
                lemma_add_assoc(start, edge_children_cells(c, axis, ks, fuel, g as nat), edge_cells(c, axis, qs, fuel));
            }
            g = g + 1;
        }
    }

    fn edge_proc(&mut self, axis: Axis, nodes: [Node; 4], Ghost(fuel): Ghost<nat>)
        requires
            old(self).wf(),
            all_placed(nodes@, old(self).chunk),
            fuel >= max_depth_left(nodes@),
        ensures
            final(self).wf(),
            final(self).chunk == old(self).chunk,
            cell_paths(final(self).dual_cells@)
                == cell_paths(old(self).dual_cells@) + edge_cells(*old(self).chunk, axis, paths(nodes@), fuel),
        decreases max_depth_left(nodes@), 0int,
    {
        let ghost c = *self.chunk;
        let ghost start = cell_paths(self.dual_cells@);
        let ghost ps = paths(nodes@);
        proof {
            assert(nodes@[0].in_chunk(self.chunk));
            assert(nodes@[1].in_chunk(self.chunk));
            assert(nodes@[2].in_chunk(self.chunk));
            assert(nodes@[3].in_chunk(self.chunk));
        }
        if nodes[0].is_leaf() && nodes[1].is_leaf() && nodes[2].is_leaf() && nodes[3].is_leaf() {
            proof {
                assert(all_leaves(c, ps));
                assert(start + Seq::<Seq<Seq<Direction>>>::empty() =~= start);
            }
            return;
        }
        let t = axis.edge_proc_dir_tuples();
        let ghost m = max_depth_left(nodes@);
        proof {
            lemma_max_depth_left(nodes@, 0);
            lemma_depth_left_bounds(nodes@[0], self.chunk);
            lemma_depth_left_bounds(nodes@[1], self.chunk);
            lemma_depth_left_bounds(nodes@[2], self.chunk);
            lemma_depth_left_bounds(nodes@[3], self.chunk);
            assert(m >= 1);
            assert(ps[0] == nodes@[0].index_path@);
            assert(ps[1] == nodes@[1].index_path@);
            assert(ps[2] == nodes@[2].index_path@);
            assert(ps[3] == nodes@[3].index_path@);
            if all_leaves(c, ps) {
                assert(c.node_at(ps[0]) is None);
                assert(c.node_at(ps[1]) is None);
                assert(c.node_at(ps[2]) is None);
                assert(c.node_at(ps[3]) is None);
            }
        }
        let ghost f: nat = (fuel - 1) as nat;
        let mut data: [Node; 8] = [nodes[0]; 8];
        let mut k: usize = 0;
        while k < 8
            invariant
                self.wf(),
                c == *self.chunk,
                all_placed(nodes@, self.chunk),
                all_placed(data@, self.chunk),
                t == axis.edge_tuples(),
                forall|j: int| 0 <= j < 8 ==> #[trigger] t@[j].0 < 4,
                forall|j: int| 0 <= j < 4 ==> #[trigger] depth_left(nodes@[j]) <= m,
                m >= 1,
                ps == paths(nodes@),
                forall|j: int| 0 <= j < k ==> #[trigger] depth_left(data@[j]) < m,
                forall|j: int| 0 <= j < k ==> #[trigger] data@[j].index_path@ == regroup(c, ps, t@)[j],
                k <= 8,
            decreases 8 - k,
        {
            let (which, dir) = t[k];
            let n = nodes[which];
            let ch = n.child(dir, self.chunk);
            proof {
                assert(nodes@[which as int] == n);
                lemma_child(n, ch, dir, self.chunk);
            }
            data[k] = ch;
            k = k + 1;
        }
        let children = DirectionMapper::new(data);
        let ghost ks = regroup(c, ps, t@);
        proof {
            lemma_max_depth_left(children.data@, m - 1);
            assert(paths(children.data@) =~= ks);
        }
        self.edge_proc_children(axis, &children, Ghost(f));
        self.vert_proc(children.data);
        proof {
            lemma_add_assoc(start, edge_children_cells(c, axis, ks, f, 2), seq![vert_cell(c, ks)]);
        }
    }

    /// Follows each subdivided node of the group towards the centre of the
    /// group (the child on the octant opposite its own place) until all
    /// eight are leaves, and adds them as a cell.
    fn vert_proc(&mut self, nodes: [Node; 8])
        requires
            old(self).wf(),
            all_placed(nodes@, old(self).chunk),
        ensures
            final(self).wf(),
            final(self).chunk == old(self).chunk,
            cell_paths(final(self).dual_cells@)
                == cell_paths(old(self).dual_cells@) + seq![vert_cell(*old(self).chunk, paths(nodes@))],
    {
        let ghost c = *self.chunk;
        let ghost orig = paths(nodes@);
        let mut nodes = nodes;
        let ghost mut passes: nat = 0;
        proof {
            lemma_sum_depth_left_nonneg(nodes@);
        }
        loop
            invariant_except_break
                self.wf(),
                self == old(self),
                c == *self.chunk,
                all_placed(nodes@, self.chunk),
                passes <= 21,
                forall|i: int| 0 <= i < 8 ==> #[trigger] descend(c, nodes@[i].index_path@, Direction::of_index(7 - i), (21 - passes) as nat)
                    == descend(c, orig[i], Direction::of_index(7 - i), 21),
                forall|i: int| 0 <= i < 8 ==> (#[trigger] nodes@[i]).arena_node is Some ==> nodes@[i].index_path@.len() >= passes,
            ensures
                self.wf(),
                self == old(self),
                c == *self.chunk,
                all_placed(nodes@, self.chunk),
                forall|i: int| 0 <= i < 8 ==> (#[trigger] nodes@[i]).arena_node is None,
                forall|i: int| 0 <= i < 8 ==> #[trigger] nodes@[i].index_path@ == descend(c, orig[i], Direction::of_index(7 - i), 21),
            decreases sum_depth_left(nodes@),
        {
            let mut has_subdivided = false;
            let ghost start = nodes@;
            proof {
                lemma_sum_depth_left_nonneg(nodes@);
            }
            let mut index: usize = 0;
            while index < 8
                invariant
                    self.wf(),
                    c == *self.chunk,
                    all_placed(nodes@, self.chunk),
                    all_placed(start, self.chunk),
                    start.len() == 8,
                    index <= 8,
                    has_subdivided ==> sum_depth_left(nodes@) < sum_depth_left(start),
                    !has_subdivided ==> nodes@ == start,
                    has_subdivided == exists|j: int| 0 <= j < index && (#[trigger] start[j]).arena_node is Some,
                    forall|j: int| 0 <= j < index ==> #[trigger] nodes@[j].index_path@ == kid(c, start[j].index_path@, Direction::of_index(7 - j)),
                    forall|j: int| 0 <= j < index ==> start[j].arena_node is None ==> #[trigger] nodes@[j] == start[j],
                    forall|j: int| index <= j < 8 ==> #[trigger] nodes@[j] == start[j],
                    sum_depth_left(nodes@) <= sum_depth_left(start),
                    sum_depth_left(nodes@) >= 0,
                decreases 8 - index,
            {
                let node = nodes[index];
                proof {
                    assert(nodes@[index as int] == start[index as int]);
                    assert(placed(start[index as int], self.chunk));
                }
                if node.is_subdivided() {
                    has_subdivided = true;
                    let dir = Direction::from(index as u8);
                    let opp = dir.opposite();
                    let opposite_dir_node = node.child(opp, self.chunk);
                    proof {
                        Direction::lemma_bits_of_index(index as int);
                        Direction::lemma_of_index_bits(opp);
                        lemma_child(node, opposite_dir_node, opp, self.chunk);
                        lemma_sum_depth_left_update(nodes@, index as int, opposite_dir_node);
                        lemma_sum_depth_left_nonneg(nodes@.update(index as int, opposite_dir_node));
                    }
                    nodes[index] = opposite_dir_node;
                }
                index = index + 1;
            }
            if !has_subdivided {
                proof {
                    assert forall|i: int| 0 <= i < 8 implies (#[trigger] nodes@[i]).arena_node is None by {
                        assert(start[i] == nodes@[i]);
                    }
                    assert forall|i: int| 0 <= i < 8 implies #[trigger] nodes@[i].index_path@
                        == descend(c, orig[i], Direction::of_index(7 - i), 21) by {
                        assert(placed(nodes@[i], self.chunk));
                        assert(descend(c, nodes@[i].index_path@, Direction::of_index(7 - i), (21 - passes) as nat)
                            == descend(c, orig[i], Direction::of_index(7 - i), 21));
                    }
                }
                break;
            }
            proof {
                let j = choose|j: int| 0 <= j < 8 && (#[trigger] start[j]).arena_node is Some;
                assert(placed(start[j], self.chunk));
                lemma_depth_left_bounds(start[j], self.chunk);
                assert forall|i: int| 0 <= i < 8 implies #[trigger] descend(c, nodes@[i].index_path@, Direction::of_index(7 - i), (21 - (passes + 1)) as nat)
                    == descend(c, orig[i], Direction::of_index(7 - i), 21) by {
                    assert(placed(start[i], self.chunk));
                    assert(descend(c, start[i].index_path@, Direction::of_index(7 - i), (21 - passes) as nat)
                        == descend(c, orig[i], Direction::of_index(7 - i), 21));
                }
                assert forall|i: int| 0 <= i < 8 && (#[trigger] nodes@[i]).arena_node is Some implies nodes@[i].index_path@.len() >= passes + 1 by {
                    assert(start[i].arena_node is Some);
                }
                passes = passes + 1;
            }
        }
        // Now all nodes are leaf node
        let cell = DirectionMapper::new(nodes);
        self.dual_cells.push(cell);
        proof {
            assert(leaf_cell(cell, self.chunk));
            assert(paths(cell.data@) =~= vert_cell(c, orig));
            lemma_cell_paths_push(old(self).dual_cells@, cell);
            assert forall|i: int| 0 <= i < self.dual_cells@.len() implies leaf_cell(#[trigger] self.dual_cells@[i], self.chunk) by {
                if i < old(self).dual_cells@.len() {
                    assert(self.dual_cells@[i] == old(self).dual_cells@[i]);
                }
            }
        }
    }
}

/// Shifting a byte left by one and setting bit 0 to `b` moves each bit up
/// one place; a byte whose bits from `t` up are clear keeps them clear
/// from `t + 1` up.
proof fn lemma_shl_in(e: u8, b: u8, i: u8, t: u8)
    by (bit_vector)
    requires
        b < 2,
        i < 7,
        t < 8,
    ensures
        ((((e << 1u8) | b) >> ((i + 1) as u8)) & 1u8 == 1u8) == ((e >> i) & 1u8 == 1u8),
        ((((e << 1u8) | b) >> 0u8) & 1u8 == 1u8) == (b == 1),
        e >> t == 0u8 && t < 7 ==> ((e << 1u8) | b) >> ((t + 1) as u8) == 0u8,
        0u8 >> 0u8 == 0u8,
{
}

/// The corners of a cell that hold empty space, one bit per corner, in the
/// order of the octants.
pub fn cube_index(cell: &DirectionMapper<Node>) -> (r: u8)
    ensures
        forall|i: int| 0 <= i < 8 ==> #[trigger] bit8(r, i) == (cell.data@[i].voxel.data == 0),
{
    let mut edge_index: u8 = 0;
    let mut k: usize = 8;
    proof {
        lemma_shl_in(0, 0, 0, 0);
    }
    while k > 0
        invariant
            k <= 8,
            k > 0 ==> edge_index >> ((8 - k) as u8) == 0u8,
            forall|i: int| k <= i < 8 ==> #[trigger] bit8(edge_index, i - k) == (cell.data@[i].voxel.data == 0),
        decreases k,
    {
        k = k - 1;
        let ghost before = edge_index;
        let b: u8 = if cell.data[k].voxel.data == 0 { 1 } else { 0 };
        edge_index = (edge_index << 1) | b;
        proof {
            let t = (7 - k) as u8;
            assert forall|i: int| k <= i < 8 implies #[trigger] bit8(edge_index, i - k) == (cell.data@[i].voxel.data == 0) by {
                if i == k {
                    lemma_shl_in(before, b, 0, t);
                } else {
                    lemma_shl_in(before, b, (i - k - 1) as u8, t);
                    assert(bit8(before, i - (k + 1)) == (cell.data@[i].voxel.data == 0));
                }
            }
            lemma_shl_in(before, b, 0, t);
        }
    }
    assert forall|i: int| 0 <= i < 8 implies #[trigger] bit8(edge_index, i) == (cell.data@[i].voxel.data == 0) by {
        assert(bit8(edge_index, i - 0) == (cell.data@[i].voxel.data == 0));
    }
    edge_index
}

} // verus!
