use vstd::prelude::*;
use super::direction::Edge;

verus! {

/// An entry of the edge table: the end marker 0xffff, or three edges of
/// the cube, four bits each, lowest first.
pub open spec fn valid_entry(x: u16) -> bool {
    x == 0xffff || (x < 0x1000 && x % 16 < 12 && (x / 16) % 16 < 12 && x / 256 < 12)
}

/// Where the triangles of a row of the edge table end: at its first end
/// marker from position `j` on, or at its end.
pub open spec fn row_end(row: Seq<u16>, j: int) -> int
    decreases 5 - j,
{
    if j >= 5 || j >= row.len() || row[j] == 0xffff { j } else { row_end(row, j + 1) }
}

proof fn lemma_nibbles(x: u16)
    by (bit_vector)
    ensures
        x & 15u16 == x % 16,
        (x >> 4u16) & 15u16 == (x / 16) % 16,
        x >> 8u16 == x / 256,
        x >> 12u16 == x / 4096,
{
}

/// The triangles that a row of the edge table lists: one per entry before
/// the first end marker, each the three edges its bits name.
pub fn decode_row(row: [u16; 5]) -> (r: Vec<[Edge; 3]>)
    requires
        forall|j: int| 0 <= j < 5 ==> valid_entry(#[trigger] row@[j]),
    ensures
        r@.len() == row_end(row@, 0),
        forall|t: int| 0 <= t < r@.len() ==> {
            &&& (#[trigger] r@[t])@[0].bits() == row@[t] % 16
            &&& r@[t]@[1].bits() == (row@[t] / 16) % 16
            &&& r@[t]@[2].bits() == row@[t] / 256
        },
{
    let mut r: Vec<[Edge; 3]> = Vec::new();
    let mut j: usize = 0;
    while j < 5
        invariant_except_break
            j <= 5,
            r@.len() == j,
            row_end(row@, 0) == row_end(row@, j as int),
            forall|j: int| 0 <= j < 5 ==> valid_entry(#[trigger] row@[j]),
            forall|t: int| 0 <= t < r@.len() ==> {
                &&& (#[trigger] r@[t])@[0].bits() == row@[t] % 16
                &&& r@[t]@[1].bits() == (row@[t] / 16) % 16
                &&& r@[t]@[2].bits() == row@[t] / 256
            },
        ensures
            r@.len() == row_end(row@, 0),
            forall|t: int| 0 <= t < r@.len() ==> {
                &&& (#[trigger] r@[t])@[0].bits() == row@[t] % 16
                &&& r@[t]@[1].bits() == (row@[t] / 16) % 16
                &&& r@[t]@[2].bits() == row@[t] / 256
            },
        decreases 5 - j,
    {
        let edges = row[j];
        if edges == 0xffff {
            break;
        }
        proof {
            lemma_nibbles(edges);
            assert(valid_entry(row@[j as int]));
        }
        let edge1 = Edge::from_index((edges & 0b1111) as u8);
        let edge2 = Edge::from_index(((edges >> 4) & 0b1111) as u8);
        let edge3 = Edge::from_index((edges >> 8) as u8);
        r.push([edge1, edge2, edge3]);
        j = j + 1;
    }
    r
}

/// For each cube index (one bit per empty corner), the triangles that cut
/// the cell: up to five, each three edges of four bits, lowest first, and
/// 0xffff after the last.
pub const EDGE_TABLE: [[u16; 5]; 256] = [
    [0xffff, 0xffff, 0xffff, 0xffff, 0xffff],
    [0x02b3, 0xffff, 0xffff, 0xffff, 0xffff],
    [0x0a21, 0xffff, 0xffff, 0xffff, 0xffff],
    [0x01a3, 0x03ab, 0xffff, 0xffff, 0xffff],
    [0x0380, 0xffff, 0xffff, 0xffff, 0xffff],
    [0x02b0, 0x00b8, 0xffff, 0xffff, 0xffff],
    [0x0380, 0x0a21, 0xffff, 0xffff, 0xffff],
    [0x01a0, 0x0a80, 0x0ab8, 0xffff, 0xffff],
    [0x0910, 0xffff, 0xffff, 0xffff, 0xffff],
    [0x0091, 0x0b32, 0xffff, 0xffff, 0xffff],
    [0x0a29, 0x0920, 0xffff, 0xffff, 0xffff],
    [0x0093, 0x09b3, 0x09ab, 0xffff, 0xffff],
    [0x0381, 0x0189, 0xffff, 0xffff, 0xffff],
    [0x02b1, 0x0b91, 0x0b89, 0xffff, 0xffff],
    [0x0382, 0x08a2, 0x089a, 0xffff, 0xffff],
    [0x0a89, 0x0b8a, 0xffff, 0xffff, 0xffff],
    [0x0b67, 0xffff, 0xffff, 0xffff, 0xffff],
    [0x0327, 0x0726, 0xffff, 0xffff, 0xffff],
    [0x021a, 0x07b6, 0xffff, 0xffff, 0xffff],
    [0x067a, 0x071a, 0x0731, 0xffff, 0xffff],
    [0x0803, 0x067b, 0xffff, 0xffff, 0xffff],
    [0x0807, 0x0067, 0x0026, 0xffff, 0xffff],
    [0x0a21, 0x0803, 0x07b6, 0xffff, 0xffff],
    [0x067a, 0x0a71, 0x0781, 0x0801, 0xffff],
    [0x0910, 0x067b, 0xffff, 0xffff, 0xffff],
    [0x0672, 0x0732, 0x0910, 0xffff, 0xffff],
    [0x0092, 0x09a2, 0x07b6, 0xffff, 0xffff],
    [0x0730, 0x0a70, 0x09a0, 0x07a6, 0xffff],
    [0x0918, 0x0138, 0x067b, 0xffff, 0xffff],
    [0x0261, 0x0681, 0x0891, 0x0678, 0xffff],
    [0x07b6, 0x03a2, 0x038a, 0x089a, 0xffff],
    [0x0a67, 0x08a7, 0x09a8, 0xffff, 0xffff],
    [0x056a, 0xffff, 0xffff, 0xffff, 0xffff],
    [0x0b32, 0x056a, 0xffff, 0xffff, 0xffff],
    [0x0561, 0x0162, 0xffff, 0xffff, 0xffff],
    [0x0b36, 0x0356, 0x0315, 0xffff, 0xffff],
    [0x0380, 0x06a5, 0xffff, 0xffff, 0xffff],
    [0x080b, 0x002b, 0x056a, 0xffff, 0xffff],
    [0x0561, 0x0621, 0x0803, 0xffff, 0xffff],
    [0x0b80, 0x05b0, 0x0150, 0x06b5, 0xffff],
    [0x0109, 0x06a5, 0xffff, 0xffff, 0xffff],
    [0x0910, 0x0b32, 0x06a5, 0xffff, 0xffff],
    [0x0569, 0x0609, 0x0620, 0xffff, 0xffff],
    [0x06b3, 0x0630, 0x0560, 0x0950, 0xffff],
    [0x0381, 0x0891, 0x06a5, 0xffff, 0xffff],
    [0x06a5, 0x0291, 0x02b9, 0x0b89, 0xffff],
    [0x0895, 0x0285, 0x0625, 0x0823, 0xffff],
    [0x0956, 0x0b96, 0x089b, 0xffff, 0xffff],
    [0x0a5b, 0x0b57, 0xffff, 0xffff, 0xffff],
    [0x0a52, 0x0532, 0x0573, 0xffff, 0xffff],
    [0x021b, 0x017b, 0x0157, 0xffff, 0xffff],
    [0x0531, 0x0573, 0xffff, 0xffff, 0xffff],
    [0x0a5b, 0x057b, 0x0038, 0xffff, 0xffff],
    [0x0028, 0x0258, 0x0578, 0x052a, 0xffff],
    [0x0380, 0x0721, 0x0571, 0x0b27, 0xffff],
    [0x0780, 0x0170, 0x0571, 0xffff, 0xffff],
    [0x07b5, 0x0ba5, 0x0091, 0xffff, 0xffff],
    [0x0109, 0x03a5, 0x0735, 0x02a3, 0xffff],
    [0x0579, 0x0729, 0x0209, 0x07b2, 0xffff],
    [0x0309, 0x0539, 0x0735, 0xffff, 0xffff],
    [0x057a, 0x07ba, 0x0189, 0x0138, 0xffff],
    [0x0289, 0x0129, 0x0278, 0x052a, 0x0257],
    [0x0257, 0x0b27, 0x0295, 0x0823, 0x0289],
    [0x0789, 0x0795, 0xffff, 0xffff, 0xffff],
    [0x0874, 0xffff, 0xffff, 0xffff, 0xffff],
    [0x0748, 0x02b3, 0xffff, 0xffff, 0xffff],
    [0x0a21, 0x0748, 0xffff, 0xffff, 0xffff],
    [0x01a3, 0x0ab3, 0x0487, 0xffff, 0xffff],
    [0x0034, 0x0437, 0xffff, 0xffff, 0xffff],
    [0x074b, 0x042b, 0x0402, 0xffff, 0xffff],
    [0x0743, 0x0403, 0x0a21, 0xffff, 0xffff],
    [0x0ab1, 0x0b41, 0x0401, 0x04b7, 0xffff],
    [0x0910, 0x0748, 0xffff, 0xffff, 0xffff],
    [0x0109, 0x0748, 0x0b32, 0xffff, 0xffff],
    [0x0a29, 0x0209, 0x0748, 0xffff, 0xffff],
    [0x0874, 0x0b09, 0x0ab9, 0x030b, 0xffff],
    [0x0914, 0x0174, 0x0137, 0xffff, 0xffff],
    [0x0b74, 0x0b49, 0x02b9, 0x0129, 0xffff],
    [0x09a2, 0x0792, 0x0372, 0x0497, 0xffff],
    [0x0b74, 0x09b4, 0x0ab9, 0xffff, 0xffff],
    [0x0486, 0x068b, 0xffff, 0xffff, 0xffff],
    [0x0328, 0x0248, 0x0264, 0xffff, 0xffff],
    [0x0486, 0x08b6, 0x01a2, 0xffff, 0xffff],
    [0x0318, 0x0168, 0x0648, 0x01a6, 0xffff],
    [0x0b63, 0x0603, 0x0640, 0xffff, 0xffff],
    [0x0240, 0x0264, 0xffff, 0xffff, 0xffff],
    [0x0a21, 0x0b03, 0x0b60, 0x0640, 0xffff],
    [0x001a, 0x060a, 0x0406, 0xffff, 0xffff],
    [0x0b68, 0x0648, 0x0109, 0xffff, 0xffff],
    [0x0091, 0x0432, 0x0642, 0x0834, 0xffff],
    [0x08b4, 0x0b64, 0x0920, 0x09a2, 0xffff],
    [0x0364, 0x0834, 0x03a6, 0x0930, 0x039a],
    [0x0649, 0x0369, 0x0139, 0x063b, 0xffff],
    [0x0491, 0x0241, 0x0642, 0xffff, 0xffff],
    [0x039a, 0x023a, 0x0349, 0x063b, 0x0364],
    [0x049a, 0x04a6, 0xffff, 0xffff, 0xffff],
    [0x06a5, 0x0874, 0xffff, 0xffff, 0xffff],
    [0x02b3, 0x0487, 0x056a, 0xffff, 0xffff],
    [0x0216, 0x0156, 0x0874, 0xffff, 0xffff],
    [0x0748, 0x05b3, 0x0153, 0x06b5, 0xffff],
    [0x0034, 0x0374, 0x0a56, 0xffff, 0xffff],
    [0x06a5, 0x0274, 0x0024, 0x0b72, 0xffff],
    [0x0521, 0x0625, 0x0403, 0x0743, 0xffff],
    [0x0b15, 0x06b5, 0x0b01, 0x04b7, 0x0b40],
    [0x0091, 0x06a5, 0x0748, 0xffff, 0xffff],
    [0x0910, 0x0874, 0x0b32, 0x06a5, 0xffff],
    [0x0748, 0x0509, 0x0560, 0x0620, 0xffff],
    [0x0950, 0x0560, 0x0630, 0x036b, 0x0748],
    [0x056a, 0x0791, 0x0371, 0x0497, 0xffff],
    [0x0129, 0x02b9, 0x0b49, 0x04b7, 0x06a5],
    [0x0937, 0x0497, 0x0923, 0x0695, 0x0962],
    [0x0956, 0x0b96, 0x0974, 0x09b7, 0xffff],
    [0x0485, 0x08a5, 0x08ba, 0xffff, 0xffff],
    [0x0a52, 0x0253, 0x0543, 0x0483, 0xffff],
    [0x0152, 0x0582, 0x08b2, 0x0854, 0xffff],
    [0x0548, 0x0358, 0x0153, 0xffff, 0xffff],
    [0x0405, 0x00b5, 0x0ba5, 0x003b, 0xffff],
    [0x02a5, 0x0425, 0x0024, 0xffff, 0xffff],
    [0x0b40, 0x03b0, 0x0b54, 0x01b2, 0x0b15],
    [0x0540, 0x0501, 0xffff, 0xffff, 0xffff],
    [0x0910, 0x0a48, 0x0ba8, 0x054a, 0xffff],
    [0x02a3, 0x0a53, 0x0583, 0x0854, 0x0910],
    [0x0520, 0x0950, 0x05b2, 0x0854, 0x058b],
    [0x0548, 0x0358, 0x0509, 0x0530, 0xffff],
    [0x04ba, 0x054a, 0x043b, 0x0149, 0x0413],
    [0x02a5, 0x0425, 0x0291, 0x0249, 0xffff],
    [0x0549, 0x03b2, 0xffff, 0xffff, 0xffff],
    [0x0549, 0xffff, 0xffff, 0xffff, 0xffff],
    [0x0459, 0xffff, 0xffff, 0xffff, 0xffff],
    [0x0459, 0x0b32, 0xffff, 0xffff, 0xffff],
    [0x0a21, 0x0459, 0xffff, 0xffff, 0xffff],
    [0x0b3a, 0x031a, 0x0459, 0xffff, 0xffff],
    [0x0459, 0x0380, 0xffff, 0xffff, 0xffff],
    [0x02b0, 0x0b80, 0x0594, 0xffff, 0xffff],
    [0x0803, 0x0a21, 0x0594, 0xffff, 0xffff],
    [0x0594, 0x0180, 0x01a8, 0x0ab8, 0xffff],
    [0x0450, 0x0051, 0xffff, 0xffff, 0xffff],
    [0x0450, 0x0510, 0x0b32, 0xffff, 0xffff],
    [0x0a25, 0x0245, 0x0204, 0xffff, 0xffff],
    [0x0045, 0x0b05, 0x0ab5, 0x030b, 0xffff],
    [0x0458, 0x0538, 0x0513, 0xffff, 0xffff],
    [0x0512, 0x0852, 0x0b82, 0x0584, 0xffff],
    [0x05a2, 0x0523, 0x0453, 0x0843, 0xffff],
    [0x0845, 0x0a85, 0x0b8a, 0xffff, 0xffff],
    [0x0594, 0x0b67, 0xffff, 0xffff, 0xffff],
    [0x0327, 0x0267, 0x0945, 0xffff, 0xffff],
    [0x0459, 0x021a, 0x0b67, 0xffff, 0xffff],
    [0x0459, 0x061a, 0x0671, 0x0731, 0xffff],
    [0x0380, 0x0594, 0x067b, 0xffff, 0xffff],
    [0x0459, 0x0680, 0x0260, 0x0786, 0xffff],
    [0x07b6, 0x0a21, 0x0380, 0x0594, 0xffff],
    [0x0a61, 0x0671, 0x0701, 0x0078, 0x0459],
    [0x0105, 0x0045, 0x0b67, 0xffff, 0xffff],
    [0x0263, 0x0673, 0x0051, 0x0045, 0xffff],
    [0x0b67, 0x0a45, 0x0a24, 0x0204, 0xffff],
    [0x0a04, 0x05a4, 0x0a30, 0x07a6, 0x0a73],
    [0x067b, 0x0438, 0x0453, 0x0513, 0xffff],
    [0x0826, 0x0786, 0x0812, 0x0584, 0x0851],
    [0x0843, 0x0453, 0x0523, 0x025a, 0x067b],
    [0x0a67, 0x08a7, 0x0a45, 0x0a84, 0xffff],
    [0x094a, 0x0a46, 0xffff, 0xffff, 0xffff],
    [0x094a, 0x046a, 0x032b, 0xffff, 0xffff],
    [0x0941, 0x0421, 0x0462, 0xffff, 0xffff],
    [0x0469, 0x0639, 0x0319, 0x036b, 0xffff],
    [0x06a4, 0x0a94, 0x0380, 0xffff, 0xffff],
    [0x0280, 0x0b82, 0x0a94, 0x06a4, 0xffff],
    [0x0803, 0x0921, 0x0942, 0x0462, 0xffff],
    [0x01b8, 0x0018, 0x016b, 0x0419, 0x0146],
    [0x010a, 0x006a, 0x0046, 0xffff, 0xffff],
    [0x02b3, 0x0610, 0x0460, 0x0a16, 0xffff],
    [0x0420, 0x0624, 0xffff, 0xffff, 0xffff],
    [0x06b3, 0x0063, 0x0460, 0xffff, 0xffff],
    [0x0138, 0x0618, 0x0468, 0x0a16, 0xffff],
    [0x0146, 0x0a16, 0x0184, 0x0b12, 0x01b8],
    [0x0238, 0x0428, 0x0624, 0xffff, 0xffff],
    [0x0846, 0x086b, 0xffff, 0xffff, 0xffff],
    [0x07b4, 0x0b94, 0x0ba9, 0xffff, 0xffff],
    [0x0a92, 0x0972, 0x0732, 0x0947, 0xffff],
    [0x07b4, 0x04b9, 0x0b29, 0x0219, 0xffff],
    [0x0194, 0x0714, 0x0317, 0xffff, 0xffff],
    [0x0380, 0x0794, 0x07b9, 0x0ba9, 0xffff],
    [0x07a9, 0x0479, 0x072a, 0x0078, 0x0702],
    [0x0479, 0x07b9, 0x0b19, 0x01b2, 0x0380],
    [0x0194, 0x0714, 0x0180, 0x0178, 0xffff],
    [0x0ba1, 0x04b1, 0x0041, 0x0b47, 0xffff],
    [0x0a73, 0x02a3, 0x0a47, 0x00a1, 0x0a04],
    [0x047b, 0x024b, 0x0042, 0xffff, 0xffff],
    [0x0304, 0x0347, 0xffff, 0xffff, 0xffff],
    [0x0413, 0x0843, 0x04a1, 0x0b47, 0x04ba],
    [0x02a1, 0x0478, 0xffff, 0xffff, 0xffff],
    [0x047b, 0x024b, 0x0438, 0x0423, 0xffff],
    [0x0784, 0xffff, 0xffff, 0xffff, 0xffff],
    [0x0879, 0x0975, 0xffff, 0xffff, 0xffff],
    [0x0597, 0x0987, 0x02b3, 0xffff, 0xffff],
    [0x0879, 0x0759, 0x021a, 0xffff, 0xffff],
    [0x0859, 0x0758, 0x031a, 0x0b3a, 0xffff],
    [0x0039, 0x0359, 0x0375, 0xffff, 0xffff],
    [0x0759, 0x0279, 0x0029, 0x0b72, 0xffff],
    [0x021a, 0x0059, 0x0035, 0x0375, 0xffff],
    [0x0075, 0x0905, 0x00b7, 0x0a01, 0x00ab],
    [0x0870, 0x0710, 0x0751, 0xffff, 0xffff],
    [0x0b32, 0x0810, 0x0871, 0x0751, 0xffff],
    [0x0208, 0x0528, 0x0758, 0x025a, 0xffff],
    [0x00ab, 0x030b, 0x005a, 0x0708, 0x0075],
    [0x0351, 0x0753, 0xffff, 0xffff, 0xffff],
    [0x012b, 0x071b, 0x0517, 0xffff, 0xffff],
    [0x05a2, 0x0352, 0x0753, 0xffff, 0xffff],
    [0x05ab, 0x05b7, 0xffff, 0xffff, 0xffff],
    [0x0596, 0x09b6, 0x098b, 0xffff, 0xffff],
    [0x0985, 0x0825, 0x0265, 0x0283, 0xffff],
    [0x0a21, 0x0b59, 0x08b9, 0x065b, 0xffff],
    [0x0631, 0x0a61, 0x0683, 0x0965, 0x0698],
    [0x0b63, 0x0360, 0x0650, 0x0590, 0xffff],
    [0x0659, 0x0069, 0x0260, 0xffff, 0xffff],
    [0x03b0, 0x0b60, 0x0690, 0x0965, 0x0a21],
    [0x001a, 0x060a, 0x0059, 0x0065, 0xffff],
    [0x08b0, 0x0b50, 0x0510, 0x0b65, 0xffff],
    [0x0851, 0x0081, 0x0865, 0x0283, 0x0826],
    [0x058b, 0x065b, 0x0508, 0x025a, 0x0520],
    [0x0830, 0x0a65, 0xffff, 0xffff, 0xffff],
    [0x03b6, 0x0536, 0x0135, 0xffff, 0xffff],
    [0x0651, 0x0612, 0xffff, 0xffff, 0xffff],
    [0x03b6, 0x0536, 0x03a2, 0x035a, 0xffff],
    [0x065a, 0xffff, 0xffff, 0xffff, 0xffff],
    [0x06a7, 0x0a87, 0x0a98, 0xffff, 0xffff],
    [0x0b32, 0x086a, 0x098a, 0x0768, 0xffff],
    [0x0621, 0x0861, 0x0981, 0x0768, 0xffff],
    [0x0698, 0x0768, 0x0619, 0x036b, 0x0631],
    [0x0370, 0x07a0, 0x0a90, 0x0a76, 0xffff],
    [0x0702, 0x0b72, 0x0790, 0x0a76, 0x07a9],
    [0x0962, 0x0192, 0x0976, 0x0390, 0x0937],
    [0x0190, 0x076b, 0xffff, 0xffff, 0xffff],
    [0x076a, 0x07a1, 0x0871, 0x0081, 0xffff],
    [0x0081, 0x0871, 0x07a1, 0x0a76, 0x0b32],
    [0x0087, 0x0607, 0x0206, 0xffff, 0xffff],
    [0x0087, 0x0607, 0x00b3, 0x006b, 0xffff],
    [0x076a, 0x017a, 0x0371, 0xffff, 0xffff],
    [0x012b, 0x071b, 0x016a, 0x0176, 0xffff],
    [0x0237, 0x0276, 0xffff, 0xffff, 0xffff],
    [0x06b7, 0xffff, 0xffff, 0xffff, 0xffff],
    [0x08a9, 0x08ba, 0xffff, 0xffff, 0xffff],
    [0x0832, 0x0a82, 0x098a, 0xffff, 0xffff],
    [0x0b21, 0x09b1, 0x08b9, 0xffff, 0xffff],
    [0x0831, 0x0819, 0xffff, 0xffff, 0xffff],
    [0x0903, 0x0b93, 0x0a9b, 0xffff, 0xffff],
    [0x02a9, 0x0290, 0xffff, 0xffff, 0xffff],
    [0x0903, 0x0b93, 0x0921, 0x09b2, 0xffff],
    [0x0190, 0xffff, 0xffff, 0xffff, 0xffff],
    [0x0a10, 0x08a0, 0x0ba8, 0xffff, 0xffff],
    [0x0832, 0x0a82, 0x0810, 0x08a1, 0xffff],
    [0x0b20, 0x0b08, 0xffff, 0xffff, 0xffff],
    [0x0830, 0xffff, 0xffff, 0xffff, 0xffff],
    [0x0a13, 0x0a3b, 0xffff, 0xffff, 0xffff],
    [0x02a1, 0xffff, 0xffff, 0xffff, 0xffff],
    [0x0b23, 0xffff, 0xffff, 0xffff, 0xffff],
    [0xffff, 0xffff, 0xffff, 0xffff, 0xffff],
];

/// Whether every entry of `row` is an end marker or names three edges.
pub fn row_valid(row: [u16; 5]) -> (r: bool)
    ensures
        r == forall|j: int| 0 <= j < 5 ==> valid_entry(#[trigger] row@[j]),
{
    let mut j: usize = 0;
    while j < 5
        invariant
            j <= 5,
            forall|i: int| 0 <= i < j ==> valid_entry(#[trigger] row@[i]),
        decreases 5 - j,
    {
        let x = row[j];
        proof {
            lemma_nibbles(x);
        }
        if !(x == 0xffff || (x >> 12 == 0 && x & 0b1111 < 12 && (x >> 4) & 0b1111 < 12 && x >> 8 < 12)) {
            return false;
        }
        j = j + 1;
    }
    true
}

/// Every entry of row `i` of the edge table is an end marker or names
/// three edges of the cube.
pub open spec fn table_row_valid(i: int) -> bool {
    let row = EDGE_TABLE@[i]@;
    &&& valid_entry(row[0])
    &&& valid_entry(row[1])
    &&& valid_entry(row[2])
    &&& valid_entry(row[3])
    &&& valid_entry(row[4])
}

proof fn lemma_table_rows_0()
    ensures
        forall|i: int| 0 <= i < 32 ==> #[trigger] table_row_valid(i),
{
    assert forall|i: int| 0 <= i < 32 implies #[trigger] table_row_valid(i) by {
        if i == 0 { assert(table_row_valid(0)); }
        if i == 1 { assert(table_row_valid(1)); }
        if i == 2 { assert(table_row_valid(2)); }
        if i == 3 { assert(table_row_valid(3)); }
        if i == 4 { assert(table_row_valid(4)); }
        if i == 5 { assert(table_row_valid(5)); }
        if i == 6 { assert(table_row_valid(6)); }
        if i == 7 { assert(table_row_valid(7)); }
        if i == 8 { assert(table_row_valid(8)); }
        if i == 9 { assert(table_row_valid(9)); }
        if i == 10 { assert(table_row_valid(10)); }
        if i == 11 { assert(table_row_valid(11)); }
        if i == 12 { assert(table_row_valid(12)); }
        if i == 13 { assert(table_row_valid(13)); }
        if i == 14 { assert(table_row_valid(14)); }
        if i == 15 { assert(table_row_valid(15)); }
        if i == 16 { assert(table_row_valid(16)); }
        if i == 17 { assert(table_row_valid(17)); }
        if i == 18 { assert(table_row_valid(18)); }
        if i == 19 { assert(table_row_valid(19)); }
        if i == 20 { assert(table_row_valid(20)); }
        if i == 21 { assert(table_row_valid(21)); }
        if i == 22 { assert(table_row_valid(22)); }
        if i == 23 { assert(table_row_valid(23)); }
        if i == 24 { assert(table_row_valid(24)); }
        if i == 25 { assert(table_row_valid(25)); }
        if i == 26 { assert(table_row_valid(26)); }
        if i == 27 { assert(table_row_valid(27)); }
        if i == 28 { assert(table_row_valid(28)); }
        if i == 29 { assert(table_row_valid(29)); }
        if i == 30 { assert(table_row_valid(30)); }
        if i == 31 { assert(table_row_valid(31)); }
    }
}

proof fn lemma_table_rows_1()
    ensures
        forall|i: int| 32 <= i < 64 ==> #[trigger] table_row_valid(i),
{
    assert forall|i: int| 32 <= i < 64 implies #[trigger] table_row_valid(i) by {
        if i == 32 { assert(table_row_valid(32)); }
        if i == 33 { assert(table_row_valid(33)); }
        if i == 34 { assert(table_row_valid(34)); }
        if i == 35 { assert(table_row_valid(35)); }
        if i == 36 { assert(table_row_valid(36)); }
        if i == 37 { assert(table_row_valid(37)); }
        if i == 38 { assert(table_row_valid(38)); }
        if i == 39 { assert(table_row_valid(39)); }
        if i == 40 { assert(table_row_valid(40)); }
        if i == 41 { assert(table_row_valid(41)); }
        if i == 42 { assert(table_row_valid(42)); }
        if i == 43 { assert(table_row_valid(43)); }
        if i == 44 { assert(table_row_valid(44)); }
        if i == 45 { assert(table_row_valid(45)); }
        if i == 46 { assert(table_row_valid(46)); }
        if i == 47 { assert(table_row_valid(47)); }
        if i == 48 { assert(table_row_valid(48)); }
        if i == 49 { assert(table_row_valid(49)); }
        if i == 50 { assert(table_row_valid(50)); }
        if i == 51 { assert(table_row_valid(51)); }
        if i == 52 { assert(table_row_valid(52)); }
        if i == 53 { assert(table_row_valid(53)); }
        if i == 54 { assert(table_row_valid(54)); }
        if i == 55 { assert(table_row_valid(55)); }
        if i == 56 { assert(table_row_valid(56)); }
        if i == 57 { assert(table_row_valid(57)); }
        if i == 58 { assert(table_row_valid(58)); }
        if i == 59 { assert(table_row_valid(59)); }
        if i == 60 { assert(table_row_valid(60)); }
        if i == 61 { assert(table_row_valid(61)); }
        if i == 62 { assert(table_row_valid(62)); }
        if i == 63 { assert(table_row_valid(63)); }
    }
}

proof fn lemma_table_rows_2()
    ensures
        forall|i: int| 64 <= i < 96 ==> #[trigger] table_row_valid(i),
{
    assert forall|i: int| 64 <= i < 96 implies #[trigger] table_row_valid(i) by {
        if i == 64 { assert(table_row_valid(64)); }
        if i == 65 { assert(table_row_valid(65)); }
        if i == 66 { assert(table_row_valid(66)); }
        if i == 67 { assert(table_row_valid(67)); }
        if i == 68 { assert(table_row_valid(68)); }
        if i == 69 { assert(table_row_valid(69)); }
        if i == 70 { assert(table_row_valid(70)); }
        if i == 71 { assert(table_row_valid(71)); }
        if i == 72 { assert(table_row_valid(72)); }
        if i == 73 { assert(table_row_valid(73)); }
        if i == 74 { assert(table_row_valid(74)); }
        if i == 75 { assert(table_row_valid(75)); }
        if i == 76 { assert(table_row_valid(76)); }
        if i == 77 { assert(table_row_valid(77)); }
        if i == 78 { assert(table_row_valid(78)); }
        if i == 79 { assert(table_row_valid(79)); }
        if i == 80 { assert(table_row_valid(80)); }
        if i == 81 { assert(table_row_valid(81)); }
        if i == 82 { assert(table_row_valid(82)); }
        if i == 83 { assert(table_row_valid(83)); }
        if i == 84 { assert(table_row_valid(84)); }
        if i == 85 { assert(table_row_valid(85)); }
        if i == 86 { assert(table_row_valid(86)); }
        if i == 87 { assert(table_row_valid(87)); }
        if i == 88 { assert(table_row_valid(88)); }
        if i == 89 { assert(table_row_valid(89)); }
        if i == 90 { assert(table_row_valid(90)); }
        if i == 91 { assert(table_row_valid(91)); }
        if i == 92 { assert(table_row_valid(92)); }
        if i == 93 { assert(table_row_valid(93)); }
        if i == 94 { assert(table_row_valid(94)); }
        if i == 95 { assert(table_row_valid(95)); }
    }
}

proof fn lemma_table_rows_3()
    ensures
        forall|i: int| 96 <= i < 128 ==> #[trigger] table_row_valid(i),
{
    assert forall|i: int| 96 <= i < 128 implies #[trigger] table_row_valid(i) by {
        if i == 96 { assert(table_row_valid(96)); }
        if i == 97 { assert(table_row_valid(97)); }
        if i == 98 { assert(table_row_valid(98)); }
        if i == 99 { assert(table_row_valid(99)); }
        if i == 100 { assert(table_row_valid(100)); }
        if i == 101 { assert(table_row_valid(101)); }
        if i == 102 { assert(table_row_valid(102)); }
        if i == 103 { assert(table_row_valid(103)); }
        if i == 104 { assert(table_row_valid(104)); }
        if i == 105 { assert(table_row_valid(105)); }
        if i == 106 { assert(table_row_valid(106)); }
        if i == 107 { assert(table_row_valid(107)); }
        if i == 108 { assert(table_row_valid(108)); }
        if i == 109 { assert(table_row_valid(109)); }
        if i == 110 { assert(table_row_valid(110)); }
        if i == 111 { assert(table_row_valid(111)); }
        if i == 112 { assert(table_row_valid(112)); }
        if i == 113 { assert(table_row_valid(113)); }
        if i == 114 { assert(table_row_valid(114)); }
        if i == 115 { assert(table_row_valid(115)); }
        if i == 116 { assert(table_row_valid(116)); }
        if i == 117 { assert(table_row_valid(117)); }
        if i == 118 { assert(table_row_valid(118)); }
        if i == 119 { assert(table_row_valid(119)); }
        if i == 120 { assert(table_row_valid(120)); }
        if i == 121 { assert(table_row_valid(121)); }
        if i == 122 { assert(table_row_valid(122)); }
        if i == 123 { assert(table_row_valid(123)); }
        if i == 124 { assert(table_row_valid(124)); }
        if i == 125 { assert(table_row_valid(125)); }
        if i == 126 { assert(table_row_valid(126)); }
        if i == 127 { assert(table_row_valid(127)); }
    }
}

proof fn lemma_table_rows_4()
    ensures
        forall|i: int| 128 <= i < 160 ==> #[trigger] table_row_valid(i),
{
    assert forall|i: int| 128 <= i < 160 implies #[trigger] table_row_valid(i) by {
        if i == 128 { assert(table_row_valid(128)); }
        if i == 129 { assert(table_row_valid(129)); }
        if i == 130 { assert(table_row_valid(130)); }
        if i == 131 { assert(table_row_valid(131)); }
        if i == 132 { assert(table_row_valid(132)); }
        if i == 133 { assert(table_row_valid(133)); }
        if i == 134 { assert(table_row_valid(134)); }
        if i == 135 { assert(table_row_valid(135)); }
        if i == 136 { assert(table_row_valid(136)); }
        if i == 137 { assert(table_row_valid(137)); }
        if i == 138 { assert(table_row_valid(138)); }
        if i == 139 { assert(table_row_valid(139)); }
        if i == 140 { assert(table_row_valid(140)); }
        if i == 141 { assert(table_row_valid(141)); }
        if i == 142 { assert(table_row_valid(142)); }
        if i == 143 { assert(table_row_valid(143)); }
        if i == 144 { assert(table_row_valid(144)); }
        if i == 145 { assert(table_row_valid(145)); }
        if i == 146 { assert(table_row_valid(146)); }
        if i == 147 { assert(table_row_valid(147)); }
        if i == 148 { assert(table_row_valid(148)); }
        if i == 149 { assert(table_row_valid(149)); }
        if i == 150 { assert(table_row_valid(150)); }
        if i == 151 { assert(table_row_valid(151)); }
        if i == 152 { assert(table_row_valid(152)); }
        if i == 153 { assert(table_row_valid(153)); }
        if i == 154 { assert(table_row_valid(154)); }
        if i == 155 { assert(table_row_valid(155)); }
        if i == 156 { assert(table_row_valid(156)); }
        if i == 157 { assert(table_row_valid(157)); }
        if i == 158 { assert(table_row_valid(158)); }
        if i == 159 { assert(table_row_valid(159)); }
    }
}

proof fn lemma_table_rows_5()
    ensures
        forall|i: int| 160 <= i < 192 ==> #[trigger] table_row_valid(i),
{
    assert forall|i: int| 160 <= i < 192 implies #[trigger] table_row_valid(i) by {
        if i == 160 { assert(table_row_valid(160)); }
        if i == 161 { assert(table_row_valid(161)); }
        if i == 162 { assert(table_row_valid(162)); }
        if i == 163 { assert(table_row_valid(163)); }
        if i == 164 { assert(table_row_valid(164)); }
        if i == 165 { assert(table_row_valid(165)); }
        if i == 166 { assert(table_row_valid(166)); }
        if i == 167 { assert(table_row_valid(167)); }
        if i == 168 { assert(table_row_valid(168)); }
        if i == 169 { assert(table_row_valid(169)); }
        if i == 170 { assert(table_row_valid(170)); }
        if i == 171 { assert(table_row_valid(171)); }
        if i == 172 { assert(table_row_valid(172)); }
        if i == 173 { assert(table_row_valid(173)); }
        if i == 174 { assert(table_row_valid(174)); }
        if i == 175 { assert(table_row_valid(175)); }
        if i == 176 { assert(table_row_valid(176)); }
        if i == 177 { assert(table_row_valid(177)); }
        if i == 178 { assert(table_row_valid(178)); }
        if i == 179 { assert(table_row_valid(179)); }
        if i == 180 { assert(table_row_valid(180)); }
        if i == 181 { assert(table_row_valid(181)); }
        if i == 182 { assert(table_row_valid(182)); }
        if i == 183 { assert(table_row_valid(183)); }
        if i == 184 { assert(table_row_valid(184)); }
        if i == 185 { assert(table_row_valid(185)); }
        if i == 186 { assert(table_row_valid(186)); }
        if i == 187 { assert(table_row_valid(187)); }
        if i == 188 { assert(table_row_valid(188)); }
        if i == 189 { assert(table_row_valid(189)); }
        if i == 190 { assert(table_row_valid(190)); }
        if i == 191 { assert(table_row_valid(191)); }
    }
}

proof fn lemma_table_rows_6()
    ensures
        forall|i: int| 192 <= i < 224 ==> #[trigger] table_row_valid(i),
{
    assert forall|i: int| 192 <= i < 224 implies #[trigger] table_row_valid(i) by {
        if i == 192 { assert(table_row_valid(192)); }
        if i == 193 { assert(table_row_valid(193)); }
        if i == 194 { assert(table_row_valid(194)); }
        if i == 195 { assert(table_row_valid(195)); }
        if i == 196 { assert(table_row_valid(196)); }
        if i == 197 { assert(table_row_valid(197)); }
        if i == 198 { assert(table_row_valid(198)); }
        if i == 199 { assert(table_row_valid(199)); }
        if i == 200 { assert(table_row_valid(200)); }
        if i == 201 { assert(table_row_valid(201)); }
        if i == 202 { assert(table_row_valid(202)); }
        if i == 203 { assert(table_row_valid(203)); }
        if i == 204 { assert(table_row_valid(204)); }
        if i == 205 { assert(table_row_valid(205)); }
        if i == 206 { assert(table_row_valid(206)); }
        if i == 207 { assert(table_row_valid(207)); }
        if i == 208 { assert(table_row_valid(208)); }
        if i == 209 { assert(table_row_valid(209)); }
        if i == 210 { assert(table_row_valid(210)); }
        if i == 211 { assert(table_row_valid(211)); }
        if i == 212 { assert(table_row_valid(212)); }
        if i == 213 { assert(table_row_valid(213)); }
        if i == 214 { assert(table_row_valid(214)); }
        if i == 215 { assert(table_row_valid(215)); }
        if i == 216 { assert(table_row_valid(216)); }
        if i == 217 { assert(table_row_valid(217)); }
        if i == 218 { assert(table_row_valid(218)); }
        if i == 219 { assert(table_row_valid(219)); }
        if i == 220 { assert(table_row_valid(220)); }
        if i == 221 { assert(table_row_valid(221)); }
        if i == 222 { assert(table_row_valid(222)); }
        if i == 223 { assert(table_row_valid(223)); }
    }
}

proof fn lemma_table_rows_7()
    ensures
        forall|i: int| 224 <= i < 256 ==> #[trigger] table_row_valid(i),
{
    assert forall|i: int| 224 <= i < 256 implies #[trigger] table_row_valid(i) by {
        if i == 224 { assert(table_row_valid(224)); }
        if i == 225 { assert(table_row_valid(225)); }
        if i == 226 { assert(table_row_valid(226)); }
        if i == 227 { assert(table_row_valid(227)); }
        if i == 228 { assert(table_row_valid(228)); }
        if i == 229 { assert(table_row_valid(229)); }
        if i == 230 { assert(table_row_valid(230)); }
        if i == 231 { assert(table_row_valid(231)); }
        if i == 232 { assert(table_row_valid(232)); }
        if i == 233 { assert(table_row_valid(233)); }
        if i == 234 { assert(table_row_valid(234)); }
        if i == 235 { assert(table_row_valid(235)); }
        if i == 236 { assert(table_row_valid(236)); }
        if i == 237 { assert(table_row_valid(237)); }
        if i == 238 { assert(table_row_valid(238)); }
        if i == 239 { assert(table_row_valid(239)); }
        if i == 240 { assert(table_row_valid(240)); }
        if i == 241 { assert(table_row_valid(241)); }
        if i == 242 { assert(table_row_valid(242)); }
        if i == 243 { assert(table_row_valid(243)); }
        if i == 244 { assert(table_row_valid(244)); }
        if i == 245 { assert(table_row_valid(245)); }
        if i == 246 { assert(table_row_valid(246)); }
        if i == 247 { assert(table_row_valid(247)); }
        if i == 248 { assert(table_row_valid(248)); }
        if i == 249 { assert(table_row_valid(249)); }
        if i == 250 { assert(table_row_valid(250)); }
        if i == 251 { assert(table_row_valid(251)); }
        if i == 252 { assert(table_row_valid(252)); }
        if i == 253 { assert(table_row_valid(253)); }
        if i == 254 { assert(table_row_valid(254)); }
        if i == 255 { assert(table_row_valid(255)); }
    }
}

/// Every row of the edge table is valid.
pub proof fn lemma_table_valid()
    ensures
        forall|i: int, j: int| 0 <= i < 256 && 0 <= j < 5 ==> valid_entry(#[trigger] EDGE_TABLE@[i]@[j]),
{
    lemma_table_rows_0();
    lemma_table_rows_1();
    lemma_table_rows_2();
    lemma_table_rows_3();
    lemma_table_rows_4();
    lemma_table_rows_5();
    lemma_table_rows_6();
    lemma_table_rows_7();
    assert forall|i: int, j: int| 0 <= i < 256 && 0 <= j < 5 implies valid_entry(#[trigger] EDGE_TABLE@[i]@[j]) by {
        assert(table_row_valid(i));
        if j == 0 {} else if j == 1 {} else if j == 2 {} else if j == 3 {} else {}
    }
}

/// The triangles that cut a cell whose empty corners are the set bits of
/// `cube_index`: the row of the edge table for it, decoded. The row is
/// checked before decoding; every row of the table passes, so the result
/// is always `Some`.
pub fn triangles_of(cube_index: u8) -> (r: Option<Vec<[Edge; 3]>>)
    ensures
        r is Some,
        r matches Some(t) ==> t@.len() == row_end(EDGE_TABLE@[cube_index as int]@, 0)
            && forall|k: int| 0 <= k < t@.len() ==> {
                let x = EDGE_TABLE@[cube_index as int]@[k];
                &&& (#[trigger] t@[k])@[0].bits() == x % 16
                &&& t@[k]@[1].bits() == (x / 16) % 16
                &&& t@[k]@[2].bits() == x / 256
            },
{
    let row = EDGE_TABLE[cube_index as usize];
    proof {
        lemma_table_valid();
    }
    if row_valid(row) {
        Some(decode_row(row))
    } else {
        None
    }
}

} // verus!
