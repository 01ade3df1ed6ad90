use vstd::prelude::*;
use vstd::string::StringExecFns;
use crate::util::text::{hex, append_hex};

verus! {

/// The content of one octant of the octree.
#[derive(Copy, Clone, Debug, PartialEq, Eq, Structural)]
pub struct Voxel {
    pub data: u16,
}

impl Default for Voxel {
    fn default() -> (r: Self)
        ensures
            r.data == 0,
    {
        Voxel { data: 0 }
    }
}

impl Voxel {
    /// The empty voxel, the value of every octant of a new octree.
    pub open spec fn empty() -> Voxel {
        Voxel { data: 0 }
    }

    #[inline]
    pub fn new(data: u16) -> (r: Self)
        ensures
            r.data == data,
    {
        Voxel { data }
    }
}

/// The debug text of a voxel: its data in upper-case hexadecimal, at
/// least two digits, as in `0A` or `1F4`.
pub open spec fn voxel_text(v: Voxel) -> Seq<char> {
    if v.data < 16 { seq!['0'] + hex(v.data as nat) } else { hex(v.data as nat) }
}

impl Voxel {
    /// Writes the voxel's debug text at the end of `text`.
    pub fn append_debug(&self, text: &mut String)
        ensures
            final(text)@ == old(text)@ + voxel_text(*self),
    {
        if self.data < 16 {
            text.append("0");
            proof {
                reveal_strlit("0");
            }
        }
        append_hex(text, self.data);
        proof {
            assert(text@ =~= old(text)@ + voxel_text(*self));
        }
    }

    /// The voxel's debug text.
    pub fn to_debug_string(&self) -> (r: String)
        ensures
            r@ == voxel_text(*self),
    {
        let mut text = String::new();
        self.append_debug(&mut text);
        proof {
            assert(text@ =~= voxel_text(*self));
        }
        text
    }
}

} // verus!
