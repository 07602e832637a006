//! How a graph's value range follows its data, how the range ends are rounded, and
//! how the area under a series is filled.

use vstd::prelude::*;

verus! {

/// How the watermarks of a dataset group follow the data.
#[derive(Clone, Debug, PartialEq, Eq, Structural)]
pub enum ScalingSettings {
    Fixed,
    ScaleUp,
    ScaleDown,
    ScaleUpDown,
    StickyUp,
    StickyDown,
    StickyUpDown,
    StickyUpDownEqualMagnitude,
    Stacking,
}

impl Default for ScalingSettings {
    fn default() -> (s: Self)
        ensures
            s == ScalingSettings::Fixed,
    {
        ScalingSettings::Fixed
    }
}

/// How a watermark is rounded once it moved.
#[derive(Clone, Debug, PartialEq, Eq, Structural)]
pub enum RoundingSettings {
    NoRounding,
    Pow2,
    Pow2Base10,
    Integer,
    Pow10,
}

impl Default for RoundingSettings {
    fn default() -> (r: Self)
        ensures
            r == RoundingSettings::NoRounding,
    {
        RoundingSettings::NoRounding
    }
}

/// Which part of the graph the area of a series is filled towards.
#[derive(Clone, Debug, PartialEq, Eq, Structural)]
pub enum FillingSettings {
    FillToBottom,
    FillToTop,
    FillToZero,
    /// No area is filled; only the line is drawn.
    Unfilled,
}

impl Default for FillingSettings {
    fn default() -> (f: Self)
        ensures
            f == FillingSettings::FillToBottom,
    {
        FillingSettings::FillToBottom
    }
}

/// `n` with every set bit copied into the 31 bits below it.
pub open spec fn smeared(n: u64) -> u64 {
    let a = n | (n >> 1u64);
    let b = a | (a >> 2u64);
    let c = b | (b >> 4u64);
    let d = c | (c >> 8u64);
    d | (d >> 16u64)
}

/// The value the power-of-two rounding gives for the whole number `num`: 0 for 0, else
/// one more than `num - 1` with its bits smeared downwards.
pub open spec fn pow2_rounded(num: u64) -> int {
    if num == 0 {
        0
    } else {
        smeared((num - 1) as u64) + 1
    }
}

/// Rounds the whole number `num` up with the bit-smearing of the power-of-two rounding;
/// none where the result does not fit a `u64`, an input on which the rounding's
/// addition overflows.
pub fn round_up_to_power_of_two(num: u64) -> (rounded: Option<u64>)
    ensures
        rounded is Some <==> (num == 0 || smeared((num - 1) as u64) < u64::MAX),
        rounded is Some ==> rounded->0 == pow2_rounded(num),
{
    if num == 0 {
        return Some(0);
    }
    let mut n = num - 1;
    n = n | (n >> 1);
    n = n | (n >> 2);
    n = n | (n >> 4);
    n = n | (n >> 8);
    n = n | (n >> 16);
    n.checked_add(1)
}

/// Up to 2^32 the rounding gives the smallest power of two that is at least `num`.
pub proof fn lemma_pow2_rounded_is_next_power_of_two(num: u64)
    requires
        0 < num <= 0x1_0000_0000,
    ensures
        smeared((num - 1) as u64) < u64::MAX,
        pow2_rounded(num) >= num,
        pow2_rounded(num) < 2 * num,
        (pow2_rounded(num) as u64) & ((pow2_rounded(num) - 1) as u64) == 0,
{
    let m = (num - 1) as u64;
    let s = smeared(m);
    assert(s < 0x1_0000_0000 && s >= m && (((s + 1) as u64) & s) == 0 && (s <= 2 * m || m == 0) && (m == 0 ==> s == 0))
        by (bit_vector)
        requires
            m < 0x1_0000_0000,
            s == smeared(m),
    ;
    assert(pow2_rounded(num) == s + 1);
    assert((pow2_rounded(num) - 1) as u64 == s);
}

} // verus!
