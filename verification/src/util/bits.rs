use vstd::prelude::*;

verus! {

/// Bit `i` of a byte.
pub open spec fn bit8(m: u8, i: int) -> bool {
    (m >> (i as u8)) & 1u8 == 1u8
}

/// Number of set bits of `m` at positions `lo` to `hi - 1` (within 0..8).
pub open spec fn count8(m: u8, lo: int, hi: int) -> nat
    decreases hi - lo,
{
    if lo >= hi || lo >= 8 {
        0
    } else {
        (if bit8(m, lo) { 1nat } else { 0nat }) + count8(m, lo + 1, hi)
    }
}

/// Number of set bits of a byte.
pub open spec fn ones8(m: u8) -> nat {
    count8(m, 0, 8)
}

/// Bit `i` of a 64-bit word.
pub open spec fn bit64(x: u64, i: int) -> bool {
    (x >> (i as u64)) & 1u64 == 1u64
}

/// Number of set bits of `x` at positions `lo` to 63.
pub open spec fn count64(x: u64, lo: int) -> nat
    decreases 64 - lo,
{
    if lo >= 64 {
        0
    } else {
        (if bit64(x, lo) { 1nat } else { 0nat }) + count64(x, lo + 1)
    }
}

/// Number of set bits of a 64-bit word.
pub open spec fn ones64(x: u64) -> nat {
    count64(x, 0)
}

pub proof fn lemma_count8_bound(m: u8, lo: int, hi: int)
    requires
        0 <= lo,
    ensures
        count8(m, lo, hi) <= (if hi - lo > 0 { hi - lo } else { 0 }),
        count8(m, lo, hi) <= (if 8 - lo > 0 { 8 - lo } else { 0 }),
    decreases hi - lo,
{
    if lo < hi && lo < 8 {
        lemma_count8_bound(m, lo + 1, hi);
    }
}

/// Splitting a range of positions at `mid`.
pub proof fn lemma_count8_split(m: u8, lo: int, mid: int, hi: int)
    requires
        0 <= lo <= mid <= hi <= 8,
    ensures
        count8(m, lo, hi) == count8(m, lo, mid) + count8(m, mid, hi),
    decreases mid - lo,
{
    if lo < mid {
        lemma_count8_split(m, lo + 1, mid, hi);
    }
}

/// Shifting right by `s` moves the count of the upper positions down.
pub proof fn lemma_count8_shr(m: u8, s: u8, lo: int)
    requires
        s < 8,
        0 <= lo <= 8,
    ensures
        count8(m >> s, lo, 8) == count8(m, lo + s, 8),
    decreases 8 - lo,
{
    if lo < 8 {
        lemma_count8_shr(m, s, lo + 1);
        let i = lo as u8;
        let j = (lo + s) as u8;
        if lo + s < 8 {
            assert(((m >> s) >> i) & 1u8 == (m >> j) & 1u8) by (bit_vector)
                requires s < 8, i < 8, j == i + s, j < 8;
        } else {
            assert(((m >> s) >> i) & 1u8 == 0u8) by (bit_vector)
                requires s < 8, i < 8, i + s >= 8;
        }
    }
}

/// A byte with no bit set in the positions counted counts zero.
pub proof fn lemma_count8_zero(lo: int, hi: int)
    ensures
        count8(0, lo, hi) == 0,
    decreases hi - lo,
{
    if lo < hi && lo < 8 {
        let i = lo as u8;
        assert((0u8 >> i) & 1u8 == 0u8) by (bit_vector);
        lemma_count8_zero(lo + 1, hi);
    }
}

/// A byte whose set bits all lie below `lo` counts zero from `lo` on.
pub proof fn lemma_count8_none_above(m: u8, lo: int)
    requires
        0 <= lo <= 8,
        forall|i: int| lo <= i < 8 ==> !bit8(m, i),
    ensures
        count8(m, lo, 8) == 0,
    decreases 8 - lo,
{
    if lo < 8 {
        lemma_count8_none_above(m, lo + 1);
    }
}

/// A byte is zero exactly when none of its bits is set.
pub proof fn lemma_zero_iff_no_bits(m: u8)
    ensures
        (m == 0) <==> (forall|i: int| 0 <= i < 8 ==> !#[trigger] bit8(m, i)),
        (m == 0) <==> ones8(m) == 0,
{
    if m == 0 {
        assert forall|i: int| 0 <= i < 8 implies !#[trigger] bit8(m, i) by {
            let j = i as u8;
            assert((0u8 >> j) & 1u8 == 0u8) by (bit_vector);
        }
        lemma_count8_zero(0, 8);
    } else {
        assert(exists|i: int| 0 <= i < 8 && #[trigger] bit8(m, i)) by {
            assert(m != 0 ==> ((m >> 0u8) & 1u8 == 1u8 || (m >> 1u8) & 1u8 == 1u8
                || (m >> 2u8) & 1u8 == 1u8 || (m >> 3u8) & 1u8 == 1u8
                || (m >> 4u8) & 1u8 == 1u8 || (m >> 5u8) & 1u8 == 1u8
                || (m >> 6u8) & 1u8 == 1u8 || (m >> 7u8) & 1u8 == 1u8)) by (bit_vector);
            if bit8(m, 0) {} else if bit8(m, 1) {} else if bit8(m, 2) {} else if bit8(m, 3) {}
            else if bit8(m, 4) {} else if bit8(m, 5) {} else if bit8(m, 6) {} else { assert(bit8(m, 7)); }
        }
        let i = choose|i: int| 0 <= i < 8 && #[trigger] bit8(m, i);
        lemma_count8_split(m, 0, i, 8);
        lemma_count8_split(m, i, i + 1, 8);
    }
}

/// Number of set bits of a byte.
pub fn count_ones_u8(x: u8) -> (r: u8)
    ensures
        r == ones8(x),
        r <= 8,
{
    let mut c: u8 = 0;
    let mut i: u8 = 8;
    while i > 0
        invariant
            i <= 8,
            c == count8(x, i as int, 8),
            c <= 8 - i,
        decreases i,
    {
        i = i - 1;
        proof {
            lemma_count8_bound(x, i as int + 1, 8);
        }
        if (x >> i) & 1 == 1 {
            c = c + 1;
        }
    }
    c
}

pub proof fn lemma_count64_bound(x: u64, lo: int)
    requires
        0 <= lo,
    ensures
        count64(x, lo) <= (if 64 - lo > 0 { 64 - lo } else { 0 }),
    decreases 64 - lo,
{
    if lo < 64 {
        lemma_count64_bound(x, lo + 1);
    }
}

/// Clearing a set bit takes one off the count.
pub proof fn lemma_count64_clear(x: u64, b: u64, lo: int)
    requires
        b < 64,
        bit64(x, b as int),
        0 <= lo <= 64,
    ensures
        count64(x & !(1u64 << b), lo) + (if lo <= b { 1nat } else { 0nat }) == count64(x, lo),
    decreases 64 - lo,
{
    if lo < 64 {
        lemma_count64_clear(x, b, lo + 1);
        let i = lo as u64;
        let y = x & !(1u64 << b);
        assert((y >> i) & 1u64 == (if i == b { 0u64 } else { (x >> i) & 1u64 })) by (bit_vector)
            requires y == x & !(1u64 << b), b < 64, i < 64;
    }
}

/// Setting a clear bit adds one to the count.
pub proof fn lemma_count64_set(x: u64, b: u64, lo: int)
    requires
        b < 64,
        !bit64(x, b as int),
        0 <= lo <= 64,
    ensures
        count64(x | (1u64 << b), lo) == count64(x, lo) + (if lo <= b { 1nat } else { 0nat }),
    decreases 64 - lo,
{
    if lo < 64 {
        lemma_count64_set(x, b, lo + 1);
        let i = lo as u64;
        let y = x | (1u64 << b);
        assert((y >> i) & 1u64 == (if i == b { 1u64 } else { (x >> i) & 1u64 })) by (bit_vector)
            requires y == x | (1u64 << b), b < 64, i < 64;
    }
}

/// All 64 bits set.
pub proof fn lemma_count64_full(lo: int)
    requires
        0 <= lo <= 64,
    ensures
        count64(0xffff_ffff_ffff_ffffu64, lo) == 64 - lo,
    decreases 64 - lo,
{
    if lo < 64 {
        lemma_count64_full(lo + 1);
        let i = lo as u64;
        assert((0xffff_ffff_ffff_ffffu64 >> i) & 1u64 == 1u64) by (bit_vector)
            requires i < 64;
    }
}

/// A word with no set bit from `lo` on counts zero there.
pub proof fn lemma_count64_none(x: u64, lo: int)
    requires
        0 <= lo <= 64,
        forall|i: int| lo <= i < 64 ==> !#[trigger] bit64(x, i),
    ensures
        count64(x, lo) == 0,
    decreases 64 - lo,
{
    if lo < 64 {
        lemma_count64_none(x, lo + 1);
    }
}

/// A word is zero exactly when none of its bits is set.
pub proof fn lemma_zero64(x: u64)
    ensures
        (x == 0) <==> (forall|i: int| 0 <= i < 64 ==> !#[trigger] bit64(x, i)),
{
    if x == 0 {
        assert forall|i: int| 0 <= i < 64 implies !#[trigger] bit64(x, i) by {
            let j = i as u64;
            assert((0u64 >> j) & 1u64 == 0u64) by (bit_vector);
        }
    } else {
        let tz = x.trailing_zeros();
        vstd::std_specs::bits::axiom_u64_trailing_zeros(x);
        assert(bit64(x, tz as int));
    }
}

/// Number of clear bits of a 64-bit word.
pub fn count_zeros_u64(x: u64) -> (r: u32)
    ensures
        r == 64 - ones64(x),
        r <= 64,
{
    let mut c: u32 = 0;
    let mut i: u64 = 64;
    while i > 0
        invariant
            i <= 64,
            c == (64 - i) - count64(x, i as int),
            count64(x, i as int) <= 64 - i,
        decreases i,
    {
        i = i - 1;
        proof {
            lemma_count64_bound(x, i as int + 1);
        }
        if (x >> i) & 1 != 1 {
            c = c + 1;
        }
    }
    c
}

/// Bit `e` of `m` with bit `d` set, and with bit `d` cleared.
proof fn lemma_mask_bit_at(m: u8, d: u8, e: u8)
    by (bit_vector)
    requires
        d < 8,
        e < 8,
    ensures
        ((m | (1u8 << d)) >> e) & 1u8 == (if e == d { 1u8 } else { (m >> e) & 1u8 }),
        ((m & !(1u8 << d)) >> e) & 1u8 == (if e == d { 0u8 } else { (m >> e) & 1u8 }),
        m | (1u8 << d) != 0,
{
}

/// The bits of `m | (1 << d)` and of `m & !(1 << d)`.
pub proof fn lemma_mask_bit(m: u8, d: u8)
    requires
        d < 8,
    ensures
        forall|e: int| 0 <= e < 8 ==> #[trigger] bit8(m | (1u8 << d), e) == (e == d || bit8(m, e)),
        forall|e: int| 0 <= e < 8 ==> #[trigger] bit8(m & !(1u8 << d), e) == (e != d && bit8(m, e)),
        m | (1u8 << d) != 0,
{
    assert forall|e: int| 0 <= e < 8 implies #[trigger] bit8(m | (1u8 << d), e) == (e == d || bit8(m, e)) by {
        lemma_mask_bit_at(m, d, e as u8);
    }
    assert forall|e: int| 0 <= e < 8 implies #[trigger] bit8(m & !(1u8 << d), e) == (e != d && bit8(m, e)) by {
        lemma_mask_bit_at(m, d, e as u8);
    }
    lemma_mask_bit_at(m, d, 0);
}

} // verus!
