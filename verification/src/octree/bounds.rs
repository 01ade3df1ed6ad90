use vstd::prelude::*;
use super::direction::Direction;
use super::index_path::IndexPath;

verus! {

/// An axis-aligned cube of the octree's space, in units of 2^-31 of the
/// whole: its lowest corner and its width.
#[derive(Copy, Clone, Debug)]
pub struct Bounds {
    x: u32,
    y: u32,
    z: u32,
    width: u32,
}

impl Bounds {
    pub const MAX_WIDTH: u32 = 0x8000_0000;

    /// A cube never reaches past the far side of the whole space.
    #[verifier::type_invariant]
    pub closed spec fn wf(&self) -> bool {
        &&& self.x + self.width <= Self::MAX_WIDTH
        &&& self.y + self.width <= Self::MAX_WIDTH
        &&& self.z + self.width <= Self::MAX_WIDTH
    }

    pub closed spec fn sx(&self) -> u32 { self.x }
    pub closed spec fn sy(&self) -> u32 { self.y }
    pub closed spec fn sz(&self) -> u32 { self.z }
    pub closed spec fn swidth(&self) -> u32 { self.width }

    /// The cube of octant `dir` of this cube.
    pub closed spec fn half_spec(&self, dir: Direction) -> Bounds {
        let w = self.width / 2;
        Bounds {
            x: if dir.bits() % 2 == 1 { (self.x + w) as u32 } else { self.x },
            y: if (dir.bits() / 2) % 2 == 1 { (self.y + w) as u32 } else { self.y },
            z: if dir.bits() >= 4 { (self.z + w) as u32 } else { self.z },
            width: w as u32,
        }
    }

    /// The whole space.
    pub closed spec fn whole() -> Bounds {
        Bounds { x: 0, y: 0, z: 0, width: Self::MAX_WIDTH }
    }

    /// The cube that a path of octants leads to from the whole space.
    pub open spec fn of_path(path: Seq<Direction>) -> Bounds
        decreases path.len(),
    {
        if path.len() == 0 {
            Self::whole()
        } else {
            Self::of_path(path.drop_last()).half_spec(path.last())
        }
    }

    /// The whole space starts at the origin and is `MAX_WIDTH` wide; the
    /// octant `dir` of a cube is half as wide, and moved up by that half
    /// along x where the octant's bit 0 is set, along y for bit 1, and
    /// along z for bit 2.
    pub proof fn lemma_coords(b: Bounds, dir: Direction)
        requires
            b.wf(),
        ensures
            Self::whole().sx() == 0 && Self::whole().sy() == 0 && Self::whole().sz() == 0,
            Self::whole().swidth() == Self::MAX_WIDTH,
            b.half_spec(dir).swidth() == b.swidth() / 2,
            b.half_spec(dir).sx() == b.sx() + (if dir.bits() % 2 == 1 { b.swidth() / 2 } else { 0 }),
            b.half_spec(dir).sy() == b.sy() + (if (dir.bits() / 2) % 2 == 1 { b.swidth() / 2 } else { 0 }),
            b.half_spec(dir).sz() == b.sz() + (if dir.bits() >= 4 { b.swidth() / 2 } else { 0 }),
    {
    }

    pub proof fn lemma_half_wf(b: Bounds, dir: Direction)
        requires
            b.wf(),
        ensures
            b.half_spec(dir).wf(),
            b.half_spec(dir).swidth() == b.swidth() / 2,
    {
    }

    pub proof fn lemma_of_path_wf(path: Seq<Direction>)
        ensures
            Self::of_path(path).wf(),
        decreases path.len(),
    {
        if path.len() > 0 {
            Self::lemma_of_path_wf(path.drop_last());
            Self::lemma_half_wf(Self::of_path(path.drop_last()), path.last());
        }
    }

    pub fn new() -> (r: Self)
        ensures
            r == Self::whole(),
    {
        Bounds { x: 0, y: 0, z: 0, width: Self::MAX_WIDTH }
    }

    /// The lowest corner's x coordinate.
    pub fn x(&self) -> (r: u32)
        ensures
            r == self.sx(),
    {
        self.x
    }

    /// The lowest corner's y coordinate.
    pub fn y(&self) -> (r: u32)
        ensures
            r == self.sy(),
    {
        self.y
    }

    /// The lowest corner's z coordinate.
    pub fn z(&self) -> (r: u32)
        ensures
            r == self.sz(),
    {
        self.z
    }

    /// The cube's width.
    pub fn width(&self) -> (r: u32)
        ensures
            r == self.swidth(),
    {
        self.width
    }

    /// The cube of octant `dir` of this cube: half as wide, moved up along
    /// each axis on which `dir` lies on the far side.
    pub fn half(&self, dir: Direction) -> (r: Bounds)
        ensures
            r == self.half_spec(dir),
    {
        proof {
            use_type_invariant(self);
        }
        let mut bounds = *self;
        let w = bounds.width;
        assert(w >> 1 == w / 2) by (bit_vector);
        bounds.width = w >> 1;
        if dir.is_max_x() {
            bounds.x = bounds.x + bounds.width;
        }
        if dir.is_max_y() {
            bounds.y = bounds.y + bounds.width;
        }
        if dir.is_max_z() {
            bounds.z = bounds.z + bounds.width;
        }
        bounds
    }

    /// The cube that `index_path` leads to from the whole space.
    pub fn from_index_path(index_path: IndexPath) -> (r: Bounds)
        ensures
            r == Self::of_path(index_path@),
    {
        let mut ip_iter = index_path;
        let mut bounds = Bounds::new();
        let ghost taken: Seq<Direction> = Seq::empty();
        proof {
            assert(taken + ip_iter@ =~= index_path@);
        }
        while !ip_iter.is_empty()
            invariant
                taken + ip_iter@ == index_path@,
                bounds == Self::of_path(taken),
            decreases ip_iter@.len(),
        {
            let ghost before = ip_iter@;
            let dir = ip_iter.next().unwrap();
            proof {
                Self::lemma_of_path_wf(taken);
                let t2 = taken.push(dir);
                assert(t2.drop_last() =~= taken);
                assert(t2 + ip_iter@ =~= index_path@) by {
                    assert(before =~= seq![dir] + ip_iter@);
                }
                taken = t2;
            }
            bounds = bounds.half(dir);
        }
        proof {
            assert(taken =~= index_path@);
        }
        bounds
    }
}

impl From<IndexPath> for Bounds {
    fn from(index_path: IndexPath) -> (r: Self) {
        Self::from_index_path(index_path)
    }
}

impl vstd::std_specs::convert::FromSpecImpl<IndexPath> for Bounds {
    open spec fn obeys_from_spec() -> bool {
        true
    }

    open spec fn from_spec(v: IndexPath) -> Bounds {
        Self::of_path(v@)
    }
}

/// The cube of an octant lies inside its parent, with half its width, and
/// on the far side of the middle along exactly the axes the octant's bits
/// name; two different octants of a cube wider than one unit are
/// different cubes.
pub proof fn lemma_half_inside(b: Bounds, d: Direction, e: Direction)
    requires
        b.wf(),
    ensures
        b.half_spec(d).swidth() == b.swidth() / 2,
        b.sx() <= b.half_spec(d).sx(),
        b.half_spec(d).sx() + b.half_spec(d).swidth() <= b.sx() + b.swidth(),
        b.sy() <= b.half_spec(d).sy(),
        b.half_spec(d).sy() + b.half_spec(d).swidth() <= b.sy() + b.swidth(),
        b.sz() <= b.half_spec(d).sz(),
        b.half_spec(d).sz() + b.half_spec(d).swidth() <= b.sz() + b.swidth(),
        b.half_spec(d).sx() == b.sx() + (if d.bits() % 2 == 1 { b.swidth() / 2 } else { 0 }),
        b.half_spec(d).sy() == b.sy() + (if (d.bits() / 2) % 2 == 1 { b.swidth() / 2 } else { 0 }),
        b.half_spec(d).sz() == b.sz() + (if d.bits() >= 4 { b.swidth() / 2 } else { 0 }),
        b.swidth() >= 2 && d != e ==> b.half_spec(d) != b.half_spec(e),
{
    Direction::lemma_of_index_bits(d);
    Direction::lemma_of_index_bits(e);
    if b.swidth() >= 2 && d != e && b.half_spec(d) == b.half_spec(e) {
        assert(d.bits() % 2 == e.bits() % 2);
        assert((d.bits() / 2) % 2 == (e.bits() / 2) % 2);
        assert((d.bits() >= 4) == (e.bits() >= 4));
        assert(d.bits() == e.bits());
        assert(Direction::of_index(d.bits() as int) == Direction::of_index(e.bits() as int));
    }
}

} // verus!
