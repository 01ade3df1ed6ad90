use vstd::prelude::*;
use vstd::string::StringExecFns;
use vstd::std_specs::bits::{u64_leading_zeros, axiom_u64_leading_zeros};
use super::direction::Direction;

verus! {

/// A path from the root of the octree down to one of its cubes: a stack of
/// up to 21 octants, three bits each, below a leading 1 bit that marks where
/// the path ends.
///
/// The octant in the lowest three bits is the first step from the root;
/// `push` adds a step in front of the path, `put` adds one at its far end.
#[derive(Copy, Clone, Debug, PartialEq, Eq, Structural)]
pub struct IndexPath(u64);

/// Position of the marker bit of a path's value: 3 times the path's length.
pub open spec fn marker_pos(v: u64) -> int {
    63 - u64_leading_zeros(v)
}

/// Number of steps in the path that `v` encodes.
pub open spec fn depth_of(v: u64) -> int {
    marker_pos(v) / 3
}

/// The step numbered `i` (0 is the first step from the root) of the path that `v` encodes.
pub open spec fn step_of(v: u64, i: int) -> Direction {
    Direction::of_index(((v >> ((3 * i) as u64)) & 7u64) as int)
}

/// The path that `v` encodes.
pub open spec fn path_of(v: u64) -> Seq<Direction> {
    Seq::new(depth_of(v) as nat, |i: int| step_of(v, i))
}

/// `v` encodes a path: its marker bit stands at a multiple of 3.
pub open spec fn valid_path(v: u64) -> bool {
    v != 0 && marker_pos(v) % 3 == 0
}

/// The marker of `v` stands at bit `p`.
proof fn lemma_marker_at(v: u64, p: u64)
    requires
        p < 64,
        v >> p == 1u64,
    ensures
        marker_pos(v) == p,
        v != 0,
{
    broadcast use axiom_u64_leading_zeros;
    let lz = u64_leading_zeros(v);
    assert(0 <= lz <= 64);
    assert(v != 0) by (bit_vector)
        requires v >> p == 1u64, p < 64;
    let q: u64 = (63 - lz) as u64;
    let q1: u64 = (64 - lz) as u64;
    assert((v >> q) & 1u64 != 0u64);
    assert(v >> q1 == 0);
    assert(p == q) by (bit_vector)
        requires
            p < 64,
            q < 64,
            q1 == q + 1,
            v >> p == 1u64,
            (v >> q) & 1u64 != 0u64,
            v >> q1 == 0u64;
}

/// A valid path value has nothing above its marker bit.
proof fn lemma_valid_marker(v: u64)
    requires
        valid_path(v),
    ensures
        0 <= marker_pos(v) <= 63,
        v >> (marker_pos(v) as u64) == 1u64,
        0 <= depth_of(v) <= 21,
        marker_pos(v) == 3 * depth_of(v),
{
    broadcast use axiom_u64_leading_zeros;
    let lz = u64_leading_zeros(v);
    let q: u64 = (63 - lz) as u64;
    let q1: u64 = (64 - lz) as u64;
    assert((v >> q) & 1u64 != 0u64);
    assert(v >> q1 == 0);
    assert(v >> q == 1u64) by (bit_vector)
        requires
            q < 64,
            q1 == q + 1,
            (v >> q) & 1u64 != 0u64,
            v >> q1 == 0u64;
}

impl View for IndexPath {
    type V = Seq<Direction>;

    closed spec fn view(&self) -> Seq<Direction> {
        path_of(self.0)
    }
}

impl IndexPath {
    pub const MAX_SIZE: u8 = 21;

    /// The encoded value.
    pub closed spec fn raw(&self) -> u64 {
        self.0
    }

    #[verifier::type_invariant]
    pub closed spec fn wf(&self) -> bool {
        valid_path(self.0)
    }

    pub proof fn lemma_view(&self)
        requires
            self.wf(),
        ensures
            self@ == path_of(self.raw()),
            self@.len() <= 21,
            self@.len() == depth_of(self.raw()),
    {
        lemma_valid_marker(self.0);
    }

    /// The path of no steps: the root.
    pub fn empty() -> (r: IndexPath)
        ensures
            r@ == Seq::<Direction>::empty(),
    {
        assert(1u64 >> 0u64 == 1u64) by (bit_vector);
        proof {
            lemma_marker_at(1, 0);
        }
        IndexPath(1)
    }

    /// The path of the one step `octant`.
    pub fn new(octant: Direction) -> (r: IndexPath)
        ensures
            r@ == seq![octant],
    {
        let r = IndexPath::empty().push(octant);
        assert(r@ =~= seq![octant]);
        r
    }

    pub fn is_empty(&self) -> (r: bool)
        ensures
            r == (self@.len() == 0),
    {
        proof {
            use_type_invariant(self);
            lemma_valid_marker(self.0);
            let v = self.0;
            let p = marker_pos(v) as u64;
            assert((v >> p == 1u64 && p < 64) ==> (v == 1u64 <==> p == 0)) by (bit_vector);
        }
        self.0 == 1
    }

    pub fn is_full(&self) -> (r: bool)
        ensures
            r == (self@.len() == Self::MAX_SIZE),
    {
        proof {
            use_type_invariant(self);
            lemma_valid_marker(self.0);
            let v = self.0;
            let p = marker_pos(v) as u64;
            assert((v >> p == 1u64 && p < 64) ==> ((v >> 63u64 == 1u64) <==> p == 63)) by (bit_vector);
        }
        (self.0 >> 63) == 1
    }

    /// The first step from the root.
    pub fn peek(&self) -> (r: Direction)
        requires
            self@.len() > 0,
        ensures
            r == self@[0],
    {
        proof {
            use_type_invariant(self);
            lemma_valid_marker(self.0);
        }
        let v = self.0;
        assert((v as u8) & 7u8 == (v >> 0u64) & 7u64) by (bit_vector);
        Direction::from(v as u8 & 0b111)
    }

    /// The path without its first step.
    pub fn pop(&self) -> (r: IndexPath)
        requires
            self@.len() > 0,
        ensures
            r@ == self@.drop_first(),
    {
        proof {
            use_type_invariant(self);
            lemma_valid_marker(self.0);
        }
        let v = self.0;
        let ghost p = marker_pos(v) as u64;
        let w = v >> 3;
        proof {
            let pm3: u64 = (p - 3) as u64;
            assert((v >> 3u64) >> pm3 == 1u64) by (bit_vector)
                requires v >> p == 1u64, 3 <= p, p < 64, pm3 == p - 3;
            lemma_marker_at(v >> 3, pm3);
        }
        let r = IndexPath(w);
        proof {
            assert forall|i: int| 0 <= i < r@.len() implies r@[i] == self@.drop_first()[i] by {
                let s = (3 * i) as u64;
                let s3 = (3 * (i + 1)) as u64;
                assert(s + 3 < 64);
                assert((v >> 3u64) >> s == v >> s3) by (bit_vector)
                    requires s + 3 < 64, s3 == s + 3;
            }
            assert(r@ =~= self@.drop_first());
        }
        r
    }

    /// The path with the step `octant` added in front, as its new first step.
    pub fn push(&self, octant: Direction) -> (r: IndexPath)
        requires
            self@.len() < Self::MAX_SIZE,
        ensures
            r@ == seq![octant] + self@,
    {
        proof {
            use_type_invariant(self);
            lemma_valid_marker(self.0);
        }
        let v = self.0;
        let o = octant.to_u8() as u64;
        let ghost p = marker_pos(v) as u64;
        let w = (v << 3) | o;
        proof {
            let p3: u64 = (p + 3) as u64;
            assert(w >> p3 == 1u64) by (bit_vector)
                requires w == (v << 3u64) | o, v >> p == 1u64, p <= 60, o < 8, p3 == p + 3;
            lemma_marker_at(w, p3);
        }
        let r = IndexPath(w);
        proof {
            assert(w & 7u64 == o && w >> 0u64 == w) by (bit_vector)
                requires w == (v << 3u64) | o, o < 8;
            Direction::lemma_of_index_bits(octant);
            assert forall|i: int| 0 <= i < r@.len() implies r@[i] == (seq![octant] + self@)[i] by {
                if i > 0 {
                    let s = (3 * (i - 1)) as u64;
                    let s3 = (3 * i) as u64;
                    assert(s + 3 <= p);
                    assert((w >> s3) & 7u64 == (v >> s) & 7u64) by (bit_vector)
                        requires w == (v << 3u64) | o, o < 8, s + 3 <= p, p <= 60, v >> p == 1u64, s3 == s + 3;
                }
            }
            assert(r@ =~= seq![octant] + self@);
        }
        r
    }

    /// The number of steps.
    pub fn count(&self) -> (r: u8)
        ensures
            r == self@.len(),
    {
        proof {
            use_type_invariant(self);
            lemma_valid_marker(self.0);
        }
        Self::MAX_SIZE - (self.0.leading_zeros() / 3) as u8
    }

    /// The path with the step `octant` added at its far end, as its new last step.
    pub fn put(&self, octant: Direction) -> (r: IndexPath)
        requires
            self@.len() < Self::MAX_SIZE,
        ensures
            r@ == self@.push(octant),
    {
        proof {
            use_type_invariant(self);
            lemma_valid_marker(self.0);
        }
        let mut val = self.0;
        let num_bits = 64 - val.leading_zeros() - 1;
        let ghost v = val;
        let ghost p = num_bits as u64;
        assert(p == marker_pos(v));
        val = val & !(0b111u64 << num_bits);
        val = val | ((octant.to_u8() as u64 | 0b1000) << num_bits);
        proof {
            let o = octant.bits() as u64;
            let w = val;
            let p3: u64 = (p + 3) as u64;
            assert(w >> p3 == 1u64) by (bit_vector)
                requires
                    w == (v & !(7u64 << p)) | ((o | 8u64) << p),
                    v >> p == 1u64,
                    p <= 60,
                    p3 == p + 3,
                    o < 8;
            lemma_marker_at(w, p3);
        }
        let r = IndexPath(val);
        proof {
            let o = octant.bits() as u64;
            let w = val;
            assert((w >> p) & 7u64 == o) by (bit_vector)
                requires
                    w == (v & !(7u64 << p)) | ((o | 8u64) << p),
                    v >> p == 1u64,
                    p <= 60,
                    o < 8;
            Direction::lemma_of_index_bits(octant);
            assert forall|i: int| 0 <= i < r@.len() implies r@[i] == self@.push(octant)[i] by {
                let s = (3 * i) as u64;
                if i < self@.len() {
                    assert((w >> s) & 7u64 == (v >> s) & 7u64) by (bit_vector)
                        requires
                            w == (v & !(7u64 << p)) | ((o | 8u64) << p),
                            v >> p == 1u64,
                            p <= 60,
                            o < 8,
                            s + 3 <= p;
                } else {
                    assert(s == p);
                }
            }
            assert(r@ =~= self@.push(octant));
        }
        r
    }

    /// The last step: the octant that the path takes inside its parent cube.
    pub fn get(&self) -> (r: Direction)
        requires
            self@.len() > 0,
        ensures
            r == self@.last(),
    {
        proof {
            use_type_invariant(self);
            lemma_valid_marker(self.0);
        }
        let val = self.0;
        let num_bits = 64 - val.leading_zeros() - 4;
        let dir_bin: u8 = ((val >> num_bits) & 0b111) as u8;
        proof {
            assert(((val >> num_bits as u64) & 7u64) < 8) by (bit_vector);
            assert(num_bits as u64 == (3 * (self@.len() - 1)) as u64);
        }
        Direction::from(dir_bin)
    }

    /// The path as the bits of this value compute it when asked to drop the
    /// last step: the mask keeps every bit below the marker and the marker
    /// itself is set again, so the value comes back unchanged.
    pub fn del(&self) -> (r: IndexPath)
        requires
            self@.len() > 0,
        ensures
            r == *self,
            r@ == self@,
    {
        proof {
            use_type_invariant(self);
            lemma_valid_marker(self.0);
        }
        let val = self.0;
        let num_bits = 64 - val.leading_zeros() - 1;
        let dir_bin: u64 = self.0 & !(u64::MAX << num_bits);
        let dir_bin = dir_bin | (1u64 << num_bits);
        proof {
            let p = num_bits as u64;
            assert(dir_bin == val) by (bit_vector)
                requires
                    dir_bin == (val & !(0xffff_ffff_ffff_ffffu64 << p)) | (1u64 << p),
                    val >> p == 1u64,
                    p < 64;
        }
        IndexPath(dir_bin)
    }

    /// The path with its first step replaced by `octant`.
    pub fn replace(&self, octant: Direction) -> (r: IndexPath)
        requires
            self@.len() > 0,
        ensures
            r@ == self@.update(0, octant),
    {
        proof {
            use_type_invariant(self);
            lemma_valid_marker(self.0);
        }
        let v = self.0;
        let o = octant.to_u8() as u64;
        let w = (v & !0b111u64) | o;
        proof {
            let p = marker_pos(v) as u64;
            assert(w >> p == 1u64) by (bit_vector)
                requires w == (v & !7u64) | o, v >> p == 1u64, 3 <= p, p < 64, o < 8;
            lemma_marker_at(w, p);
        }
        let r = IndexPath(w);
        proof {
            assert(w & 7u64 == o && w >> 0u64 == w) by (bit_vector)
                requires w == (v & !7u64) | o, o < 8;
            Direction::lemma_of_index_bits(octant);
            assert forall|i: int| 0 <= i < r@.len() implies r@[i] == self@.update(0, octant)[i] by {
                if i > 0 {
                    let s = (3 * i) as u64;
                    assert((w >> s) & 7u64 == (v >> s) & 7u64) by (bit_vector)
                        requires w == (v & !7u64) | o, o < 8, 3 <= s, s < 64;
                }
            }
            assert(r@ =~= self@.update(0, octant));
        }
        r
    }

    /// The number of steps.
    pub fn len(&self) -> (r: u8)
        ensures
            r == self@.len(),
    {
        proof {
            use_type_invariant(self);
            lemma_valid_marker(self.0);
        }
        let num_empty_slots = self.0.leading_zeros() as u8 / 3;
        Self::MAX_SIZE - num_empty_slots
    }

    /// Takes the first step off the path and returns it; `None` once the
    /// path is empty.
    pub fn next(&mut self) -> (r: Option<Direction>)
        ensures
            old(self)@.len() == 0 ==> r is None && final(self)@ == old(self)@,
            old(self)@.len() > 0 ==> r == Some(old(self)@[0]) && final(self)@ == old(self)@.drop_first(),
    {
        if self.is_empty() {
            None
        } else {
            let dir = self.peek();
            *self = self.pop();
            Some(dir)
        }
    }
}

/// Pushing a step and popping it gives the path back, and peeking reads
/// the pushed step: `push` and `pop` undo each other.
pub proof fn lemma_push_pop(p: Seq<Direction>, d: Direction)
    ensures
        (seq![d] + p).drop_first() == p,
        (seq![d] + p)[0] == d,
        (seq![d] + p).len() == p.len() + 1,
{
    assert((seq![d] + p).drop_first() =~= p);
}

/// Putting a step at the far end makes it the last step, which `get`
/// reads; the steps before it are the path as it was.
pub proof fn lemma_put_get(p: Seq<Direction>, d: Direction)
    ensures
        p.push(d).last() == d,
        p.push(d).drop_last() == p,
        p.push(d).len() == p.len() + 1,
{
    assert(p.push(d).drop_last() =~= p);
}

/// Replacing the first step changes that step and no other.
pub proof fn lemma_replace_first(p: Seq<Direction>, d: Direction)
    requires
        p.len() > 0,
    ensures
        p.update(0, d)[0] == d,
        p.update(0, d).drop_first() == p.drop_first(),
        p.update(0, d).len() == p.len(),
{
    assert(p.update(0, d).drop_first() =~= p.drop_first());
}

/// The text of one step: its octant's number, then a slash.
pub open spec fn step_text(d: Direction) -> Seq<char> {
    seq![(('0' as u8) + d.bits()) as char, '/']
}

/// The text of a path: each step's text, first step first.
pub open spec fn path_text(p: Seq<Direction>) -> Seq<char>
    decreases p.len(),
{
    if p.len() == 0 { Seq::empty() } else { path_text(p.drop_last()) + step_text(p.last()) }
}

impl IndexPath {
    /// The path as text, for debugging: each octant number followed by a
    /// slash, first step first, as in `3/5/`.
    pub fn to_debug_string(&self) -> (r: String)
        ensures
            r@ == path_text(self@),
    {
        let mut text = String::new();
        let mut current = *self;
        let ghost mut done: Seq<Direction> = Seq::empty();
        proof {
            assert(done + current@ =~= self@);
        }
        while !current.is_empty()
            invariant
                done + current@ == self@,
                text@ == path_text(done),
            decreases current@.len(),
        {
            let d = current.peek();
            let piece = match d {
                Direction::FrontLeftBottom => "0/",
                Direction::FrontRightBottom => "1/",
                Direction::RearLeftBottom => "2/",
                Direction::RearRightBottom => "3/",
                Direction::FrontLeftTop => "4/",
                Direction::FrontRightTop => "5/",
                Direction::RearLeftTop => "6/",
                Direction::RearRightTop => "7/",
            };
            proof {
                reveal_strlit("0/");
                reveal_strlit("1/");
                reveal_strlit("2/");
                reveal_strlit("3/");
                reveal_strlit("4/");
                reveal_strlit("5/");
                reveal_strlit("6/");
                reveal_strlit("7/");
                assert(piece@ =~= step_text(d));
            }
            text.append(piece);
            proof {
                assert(done.push(d).drop_last() =~= done);
                assert(done.push(d) + current@.drop_first() =~= self@);
                done = done.push(d);
            }
            current = current.pop();
        }
        proof {
            assert(done =~= self@);
        }
        text
    }
}

} // verus!
