use vstd::prelude::*;
use vstd::std_specs::iter::IteratorSpec;

verus! {

//          Cell Corners
//
//       6-------------------7
//      /|                  /|
//     / |                 / |
//    /  |                /  |
//   4-------------------5   |
//   |   |               |   |
//   |   2---------------|---3
//   |  /                |  /
//   | /                 | /
//   |/                  |/
//   0-------------------1
//
// Bit 0 of a corner's number is its x coordinate, bit 1 its y coordinate
// (front/rear) and bit 2 its z coordinate (bottom/top).

/// One of the eight octants of a cube.
#[derive(Copy, Clone, Debug, PartialEq, Eq, Structural)]
pub enum Direction {
    FrontLeftBottom,
    FrontRightBottom,
    RearLeftBottom,
    RearRightBottom,
    FrontLeftTop,
    FrontRightTop,
    RearLeftTop,
    RearRightTop,
}

impl Direction {
    /// The octant's number, 0 to 7.
    pub open spec fn bits(self) -> u8 {
        match self {
            Direction::FrontLeftBottom => 0,
            Direction::FrontRightBottom => 1,
            Direction::RearLeftBottom => 2,
            Direction::RearRightBottom => 3,
            Direction::FrontLeftTop => 4,
            Direction::FrontRightTop => 5,
            Direction::RearLeftTop => 6,
            Direction::RearRightTop => 7,
        }
    }

    /// The octant numbered `i` (taken modulo 8).
    pub open spec fn of_index(i: int) -> Direction {
        let j = i % 8;
        if j == 0 {
            Direction::FrontLeftBottom
        } else if j == 1 {
            Direction::FrontRightBottom
        } else if j == 2 {
            Direction::RearLeftBottom
        } else if j == 3 {
            Direction::RearRightBottom
        } else if j == 4 {
            Direction::FrontLeftTop
        } else if j == 5 {
            Direction::FrontRightTop
        } else if j == 6 {
            Direction::RearLeftTop
        } else {
            Direction::RearRightTop
        }
    }

    pub proof fn lemma_of_index_bits(d: Direction)
        ensures
            Direction::of_index(d.bits() as int) == d,
            d.bits() < 8,
    {
    }

    pub proof fn lemma_bits_of_index(i: int)
        requires
            0 <= i < 8,
        ensures
            Direction::of_index(i).bits() == i,
    {
    }

    /// The octant's number.
    pub fn to_u8(&self) -> (r: u8)
        ensures
            r == self.bits(),
            r < 8,
    {
        match self {
            Direction::FrontLeftBottom => 0,
            Direction::FrontRightBottom => 1,
            Direction::RearLeftBottom => 2,
            Direction::RearRightBottom => 3,
            Direction::FrontLeftTop => 4,
            Direction::FrontRightTop => 5,
            Direction::RearLeftTop => 6,
            Direction::RearRightTop => 7,
        }
    }

    #[inline]
    pub fn is_max_x(&self) -> (r: bool)
        ensures
            r == (self.bits() % 2 == 1),
    {
        let b = self.to_u8();
        proof { lemma_axis_bits(b); }
        b & 0b001 != 0
    }

    #[inline]
    pub fn is_min_x(&self) -> (r: bool)
        ensures
            r == (self.bits() % 2 == 0),
    {
        let b = self.to_u8();
        proof { lemma_axis_bits(b); }
        b & 0b001 == 0
    }

    #[inline]
    pub fn is_max_y(&self) -> (r: bool)
        ensures
            r == ((self.bits() / 2) % 2 == 1),
    {
        let b = self.to_u8();
        proof { lemma_axis_bits(b); }
        b & 0b010 != 0
    }

    #[inline]
    pub fn is_min_y(&self) -> (r: bool)
        ensures
            r == ((self.bits() / 2) % 2 == 0),
    {
        let b = self.to_u8();
        proof { lemma_axis_bits(b); }
        b & 0b010 == 0
    }

    #[inline]
    pub fn is_max_z(&self) -> (r: bool)
        ensures
            r == (self.bits() >= 4),
    {
        let b = self.to_u8();
        proof { lemma_axis_bits(b); }
        b & 0b100 != 0
    }

    #[inline]
    pub fn is_min_z(&self) -> (r: bool)
        ensures
            r == (self.bits() < 4),
    {
        let b = self.to_u8();
        proof { lemma_axis_bits(b); }
        b & 0b100 == 0
    }

    /// The octant diagonally across the cube.
    #[inline]
    pub fn opposite(&self) -> (r: Self)
        ensures
            r.bits() == 7 - self.bits(),
    {
        Direction::from(7 - self.to_u8())
    }

    /// The eight octants, in the order of their numbers.
    pub fn all() -> (r: DirectionMapper<Direction>)
        ensures
            forall|i: int| 0 <= i < 8 ==> #[trigger] r.data@[i] == Direction::of_index(i),
    {
        let r = Self::map(|a: Direction| -> (b: Direction) ensures b == a { a });
        proof {
            assert forall|i: int| 0 <= i < 8 implies #[trigger] r.data@[i] == Direction::of_index(i) by {
                Direction::lemma_bits_of_index(i);
            }
        }
        r
    }

    /// Applies `f` to each octant, in the order of their numbers.
    pub fn map<T, F>(f: F) -> (r: DirectionMapper<T>)
        where
          F: Fn(Self) -> T,
        requires
            forall|d: Direction| f.requires((d,)),
        ensures
            forall|i: int| 0 <= i < 8 ==> f.ensures((Direction::of_index(i),), #[trigger] r.data@[i]),
    {
        let a0 = f(Self::FrontLeftBottom);
        let a1 = f(Self::FrontRightBottom);
        let a2 = f(Self::RearLeftBottom);
        let a3 = f(Self::RearRightBottom);
        let a4 = f(Self::FrontLeftTop);
        let a5 = f(Self::FrontRightTop);
        let a6 = f(Self::RearLeftTop);
        let a7 = f(Self::RearRightTop);
        let r = DirectionMapper::new([a0, a1, a2, a3, a4, a5, a6, a7]);
        proof {
            assert forall|i: int| 0 <= i < 8 implies f.ensures((Direction::of_index(i),), #[trigger] r.data@[i]) by {
                if i == 0 {} else if i == 1 {} else if i == 2 {} else if i == 3 {}
                else if i == 4 {} else if i == 5 {} else if i == 6 {} else {}
            }
        }
        r
    }
}

/// Flipping an octant twice gives it back.
pub proof fn lemma_opposite_involution(d: Direction, e: Direction)
    requires
        e.bits() == 7 - d.bits(),
    ensures
        Direction::of_index(7 - e.bits()) == d,
{
}

/// The opposite octant lies on the other side of every axis.
pub proof fn lemma_opposite_flips_axes(d: Direction, e: Direction)
    requires
        e.bits() == 7 - d.bits(),
    ensures
        (e.bits() % 2 == 1) == (d.bits() % 2 == 0),
        ((e.bits() / 2) % 2 == 1) == ((d.bits() / 2) % 2 == 0),
        (e.bits() >= 4) == (d.bits() < 4),
{
}

impl From<u8> for Direction {
    fn from(val: u8) -> (r: Self) {
        let ghost orig = val;
        proof { lemma_axis_bits(val); }
        let val = val & 0b111;
        assert(val as int == orig as int % 8);
        if val == 0 {
            Direction::FrontLeftBottom
        } else if val == 1 {
            Direction::FrontRightBottom
        } else if val == 2 {
            Direction::RearLeftBottom
        } else if val == 3 {
            Direction::RearRightBottom
        } else if val == 4 {
            Direction::FrontLeftTop
        } else if val == 5 {
            Direction::FrontRightTop
        } else if val == 6 {
            Direction::RearLeftTop
        } else {
            Direction::RearRightTop
        }
    }
}

impl vstd::std_specs::convert::FromSpecImpl<u8> for Direction {
    open spec fn obeys_from_spec() -> bool {
        true
    }

    open spec fn from_spec(v: u8) -> Direction {
        Direction::of_index(v as int)
    }
}

/// A value for each of the eight octants.
#[derive(Clone, Default)]
pub struct DirectionMapper<T> {
    pub data: [T; 8],
}

impl<T> DirectionMapper<T> {
    pub fn iter(&self) -> (r: std::slice::Iter<'_, T>)
        ensures
            r.remaining() == self.data@.as_ref(),
    {
        self.data.as_slice().iter()
    }

    pub fn new(data: [T; 8]) -> (r: Self)
        ensures
            r.data == data,
    {
        DirectionMapper { data }
    }

    /// The value for octant `d`.
    pub fn get(&self, d: Direction) -> (r: &T)
        ensures
            *r == self.data@[d.bits() as int],
    {
        let i = d.to_u8() as usize;
        &self.data[i]
    }

    /// Replaces the value for octant `d`.
    pub fn set(&mut self, d: Direction, value: T)
        ensures
            final(self).data@ == old(self).data@.update(d.bits() as int, value),
    {
        let i = d.to_u8() as usize;
        self.data[i] = value;
    }
}

//         Cell Edges
//
//       o--------4----------o
//      /|                  /|
//     7 |                 5 |
//    /  |                /  |
//   o--------6----------o   |
//   |   8               |   9
//   |   |               |   |
//   11  |               10  |
//   |   o--------0------|---o
//   |  /                |  /
//   | 3                 | 1
//   |/                  |/
//   o--------2----------o

/// One of the twelve edges of a cube.
#[derive(Copy, Clone, Debug, PartialEq, Eq, Structural)]
pub enum Edge {
    LowerFar,
    LowerRight,
    LowerNear,
    LowerLeft,
    UpperFar,
    UpperRight,
    UpperNear,
    UpperLeft,
    VerticalRearLeft,
    VerticalRearRight,
    VerticalFrontRight,
    VerticalFrontLeft,
}

impl Edge {
    /// The edge's number, 0 to 11.
    pub open spec fn bits(self) -> u8 {
        match self {
            Edge::LowerFar => 0,
            Edge::LowerRight => 1,
            Edge::LowerNear => 2,
            Edge::LowerLeft => 3,
            Edge::UpperFar => 4,
            Edge::UpperRight => 5,
            Edge::UpperNear => 6,
            Edge::UpperLeft => 7,
            Edge::VerticalRearLeft => 8,
            Edge::VerticalRearRight => 9,
            Edge::VerticalFrontRight => 10,
            Edge::VerticalFrontLeft => 11,
        }
    }

    /// The two corners that the edge joins, as the pictures above number them.
    pub open spec fn corners(self) -> (u8, u8) {
        match self {
            Edge::LowerFar => (2, 3),
            Edge::LowerRight => (3, 1),
            Edge::LowerNear => (1, 0),
            Edge::LowerLeft => (0, 2),
            Edge::UpperFar => (6, 7),
            Edge::UpperRight => (7, 5),
            Edge::UpperNear => (5, 4),
            Edge::UpperLeft => (4, 6),
            Edge::VerticalRearLeft => (2, 6),
            Edge::VerticalRearRight => (3, 7),
            Edge::VerticalFrontRight => (1, 5),
            Edge::VerticalFrontLeft => (0, 4),
        }
    }

    /// The edge numbered `val`.
    pub fn from_index(val: u8) -> (r: Edge)
        requires
            val < 12,
        ensures
            r.bits() == val,
    {
        if val == 0 {
            Edge::LowerFar
        } else if val == 1 {
            Edge::LowerRight
        } else if val == 2 {
            Edge::LowerNear
        } else if val == 3 {
            Edge::LowerLeft
        } else if val == 4 {
            Edge::UpperFar
        } else if val == 5 {
            Edge::UpperRight
        } else if val == 6 {
            Edge::UpperNear
        } else if val == 7 {
            Edge::UpperLeft
        } else if val == 8 {
            Edge::VerticalRearLeft
        } else if val == 9 {
            Edge::VerticalRearRight
        } else if val == 10 {
            Edge::VerticalFrontRight
        } else {
            Edge::VerticalFrontLeft
        }
    }

    /// The two corners that the edge joins.
    pub fn vertices(&self) -> (r: (Direction, Direction))
        ensures
            r.0.bits() == self.corners().0,
            r.1.bits() == self.corners().1,
    {
        match self {
            Edge::LowerFar => (Direction::RearLeftBottom, Direction::RearRightBottom),
            Edge::LowerRight => (Direction::RearRightBottom, Direction::FrontRightBottom),
            Edge::LowerNear => (Direction::FrontRightBottom, Direction::FrontLeftBottom),
            Edge::LowerLeft => (Direction::FrontLeftBottom, Direction::RearLeftBottom),
            Edge::UpperFar => (Direction::RearLeftTop, Direction::RearRightTop),
            Edge::UpperRight => (Direction::RearRightTop, Direction::FrontRightTop),
            Edge::UpperNear => (Direction::FrontRightTop, Direction::FrontLeftTop),
            Edge::UpperLeft => (Direction::FrontLeftTop, Direction::RearLeftTop),
            Edge::VerticalRearLeft => (Direction::RearLeftBottom, Direction::RearLeftTop),
            Edge::VerticalRearRight => (Direction::RearRightBottom, Direction::RearRightTop),
            Edge::VerticalFrontRight => (Direction::FrontRightBottom, Direction::FrontRightTop),
            Edge::VerticalFrontLeft => (Direction::FrontLeftBottom, Direction::FrontLeftTop),
        }
    }
}

/// The number of axes on which corners `a` and `b` of the cube lie on
/// different sides.
pub open spec fn axes_apart(a: int, b: int) -> int {
    (if a % 2 != b % 2 { 1int } else { 0int })
        + (if (a / 2) % 2 != (b / 2) % 2 { 1int } else { 0int })
        + (if a / 4 != b / 4 { 1int } else { 0int })
}

/// The two ends of every edge are neighbouring corners of the cube: they
/// lie on different sides of exactly one axis.
pub proof fn lemma_edge_joins_neighbours(e: Edge)
    ensures
        ({
            let (a, b) = e.corners();
            &&& a < 8
            &&& b < 8
            &&& axes_apart(a as int, b as int) == 1
        }),
{
}

/// Corner `c` of the cube lies on the top face.
pub open spec fn corner_top(c: int) -> bool {
    c >= 4
}

/// Corner `c` of the cube lies on the right (x-max) face.
pub open spec fn corner_right(c: int) -> bool {
    c % 2 == 1
}

/// Corner `c` of the cube lies on the rear (far) face.
pub open spec fn corner_rear(c: int) -> bool {
    (c / 2) % 2 == 1
}

/// Each edge joins two corners that both lie on the faces its name says:
/// the lower edges on the bottom face, the upper ones on the top, the far
/// and rear ones on the rear face, the near and front ones on the front,
/// the right ones on the right face and the left ones on the left; a
/// vertical edge rises from a bottom corner to the corner above it.
pub proof fn lemma_edge_names(e: Edge)
    ensures
        ({
            let (a, b) = e.corners();
            let (a, b) = (a as int, b as int);
            &&& 0 <= a < 8 && 0 <= b < 8
            &&& a != b
            &&& (e is LowerFar || e is LowerRight || e is LowerNear || e is LowerLeft) ==> !corner_top(a) && !corner_top(b)
            &&& (e is UpperFar || e is UpperRight || e is UpperNear || e is UpperLeft) ==> corner_top(a) && corner_top(b)
            &&& (e is LowerFar || e is UpperFar || e is VerticalRearLeft || e is VerticalRearRight) ==> corner_rear(a) && corner_rear(b)
            &&& (e is LowerNear || e is UpperNear || e is VerticalFrontLeft || e is VerticalFrontRight) ==> !corner_rear(a) && !corner_rear(b)
            &&& (e is LowerRight || e is UpperRight || e is VerticalRearRight || e is VerticalFrontRight) ==> corner_right(a) && corner_right(b)
            &&& (e is LowerLeft || e is UpperLeft || e is VerticalRearLeft || e is VerticalFrontLeft) ==> !corner_right(a) && !corner_right(b)
            &&& (e is VerticalRearLeft || e is VerticalRearRight || e is VerticalFrontRight || e is VerticalFrontLeft) ==> !corner_top(a) && b == a + 4
        }),
{
}

/// The twelve edges join twelve different pairs of corners.
pub proof fn lemma_edges_distinct(e1: Edge, e2: Edge)
    requires
        e1 != e2,
    ensures
        ({
            let (a1, b1) = e1.corners();
            let (a2, b2) = e2.corners();
            !((a1 == a2 && b1 == b2) || (a1 == b2 && b1 == a2))
        }),
{
}

/// Going round the bottom face, and round the top face likewise, each
/// edge starts where the one before it ends (far, right, near, left), and
/// each upper edge is the lower edge of its number less four, lifted to
/// the top face.
pub proof fn lemma_edges_go_round(e1: Edge, e2: Edge)
    ensures
        e1.bits() < 8 && e2.bits() < 8 && e1.bits() / 4 == e2.bits() / 4 && e2.bits() % 4 == (e1.bits() + 1) % 4
            ==> e1.corners().1 == e2.corners().0,
        e1.bits() < 4 && e2.bits() == e1.bits() + 4
            ==> e2.corners().0 == e1.corners().0 + 4 && e2.corners().1 == e1.corners().1 + 4,
{
}

/// What the low three bits of a byte say of its axes.
proof fn lemma_axis_bits(b: u8)
    by (bit_vector)
    ensures
        (b & 1u8 != 0) == (b % 2 == 1),
        (b & 1u8 == 0) == (b % 2 == 0),
        (b & 2u8 != 0) == ((b / 2) % 2 == 1),
        (b & 2u8 == 0) == ((b / 2) % 2 == 0),
        b < 8 ==> ((b & 4u8 != 0) == (b >= 4)),
        b < 8 ==> ((b & 4u8 == 0) == (b < 4)),
        b & 7u8 == b % 8,
{
}

} // verus!
