//! Single-precision numbers by their bits, with the comparisons of IEEE 754.

use vstd::prelude::*;

verus! {

/// A single-precision number, given by its bits.
#[derive(Clone, Copy, Debug, PartialEq, Eq, Structural)]
pub struct F32 {
    pub bits: u32,
}

impl DeepView for F32 {
    type V = F32;

    open spec fn deep_view(&self) -> F32 {
        *self
    }
}

impl F32 {
    /// Not a number.
    pub open spec fn nan(self) -> bool {
        self.bits % 0x8000_0000 > 0x7f80_0000
    }

    /// The place of a number among all numbers; the two zeros share theirs.
    pub open spec fn place(self) -> int {
        if self.bits < 0x8000_0000 {
            self.bits as int
        } else {
            0x8000_0000 - self.bits
        }
    }

    /// `self < other`.
    pub open spec fn below(self, other: F32) -> bool {
        !self.nan() && !other.nan() && self.place() < other.place()
    }

    /// `self == other`.
    pub open spec fn level(self, other: F32) -> bool {
        !self.nan() && !other.nan() && self.place() == other.place()
    }

    pub fn zero() -> (r: F32)
        ensures
            r.bits == 0,
    {
        F32 { bits: 0 }
    }

    fn is_nan(self) -> (r: bool)
        ensures
            r == self.nan(),
    {
        self.bits % 0x8000_0000 > 0x7f80_0000
    }

    fn rank(self) -> (r: i64)
        ensures
            r == self.place(),
    {
        if self.bits < 0x8000_0000 {
            self.bits as i64
        } else {
            0x8000_0000i64 - self.bits as i64
        }
    }

    /// Whether `self < other`.
    pub fn less(self, other: F32) -> (r: bool)
        ensures
            r == self.below(other),
    {
        !self.is_nan() && !other.is_nan() && self.rank() < other.rank()
    }

    /// Whether `self >= other`.
    pub fn at_least(self, other: F32) -> (r: bool)
        ensures
            r == (other.below(self) || other.level(self)),
    {
        !self.is_nan() && !other.is_nan() && self.rank() >= other.rank()
    }
}

/// Not a number, among doubles given by their bits.
pub open spec fn double_nan(bits: u64) -> bool {
    bits % 0x8000_0000_0000_0000 > 0x7ff0_0000_0000_0000
}

/// The place of a double among all; the two zeros share theirs.
pub open spec fn double_place(bits: u64) -> int {
    if bits < 0x8000_0000_0000_0000 {
        bits as int
    } else {
        0x8000_0000_0000_0000 - bits
    }
}

/// `a < b`.
pub open spec fn double_below(a: u64, b: u64) -> bool {
    !double_nan(a) && !double_nan(b) && double_place(a) < double_place(b)
}

/// `a <= b`.
pub open spec fn double_within(a: u64, b: u64) -> bool {
    !double_nan(a) && !double_nan(b) && double_place(a) <= double_place(b)
}

/// `a == b`.
pub open spec fn double_level(a: u64, b: u64) -> bool {
    !double_nan(a) && !double_nan(b) && double_place(a) == double_place(b)
}

fn double_rank(bits: u64) -> (r: i128)
    ensures
        r == double_place(bits),
{
    if bits < 0x8000_0000_0000_0000 {
        bits as i128
    } else {
        0x8000_0000_0000_0000i128 - bits as i128
    }
}

/// Whether `a < b`.
pub fn double_less(a: u64, b: u64) -> (r: bool)
    ensures
        r == double_below(a, b),
{
    a % 0x8000_0000_0000_0000 <= 0x7ff0_0000_0000_0000 && b % 0x8000_0000_0000_0000
        <= 0x7ff0_0000_0000_0000 && double_rank(a) < double_rank(b)
}

/// Whether `a <= b`.
pub fn double_at_most(a: u64, b: u64) -> (r: bool)
    ensures
        r == double_within(a, b),
{
    a % 0x8000_0000_0000_0000 <= 0x7ff0_0000_0000_0000 && b % 0x8000_0000_0000_0000
        <= 0x7ff0_0000_0000_0000 && double_rank(a) <= double_rank(b)
}

/// Whether `a == b`.
pub fn double_equal(a: u64, b: u64) -> (r: bool)
    ensures
        r == double_level(a, b),
{
    a % 0x8000_0000_0000_0000 <= 0x7ff0_0000_0000_0000 && b % 0x8000_0000_0000_0000
        <= 0x7ff0_0000_0000_0000 && double_rank(a) == double_rank(b)
}

/// The order of numbers: of two that are numbers exactly one is below the other
/// or they are level. The order is transitive, and turned round by a change of
/// sign. The two zeros are level, and what is no number is nowhere in it.
pub proof fn law_order(a: F32, b: F32, c: F32)
    ensures
        a.nan() || b.nan() ==> !a.below(b) && !a.level(b),
        !a.nan() && !b.nan() ==> (a.below(b) || b.below(a) || a.level(b)),
        !(a.below(b) && b.below(a)),
        !(a.below(b) && a.level(b)),
        a.level(b) <==> b.level(a),
        a.below(b) && b.below(c) ==> a.below(c),
        a.below(b) && b.level(c) ==> a.below(c),
        !a.nan() && !b.nan() && a.bits < 0x8000_0000 && b.bits < 0x8000_0000 ==> (a.below(b)
            <==> a.bits < b.bits),
        !a.nan() && !b.nan() && a.bits > 0x8000_0000 && b.bits < 0x8000_0000 ==> a.below(b),
        a.bits < 0x8000_0000 && b.bits < 0x8000_0000 ==> (a.below(b) <==> (F32 {
            bits: (b.bits + 0x8000_0000) as u32,
        }).below(F32 { bits: (a.bits + 0x8000_0000) as u32 })),
        (F32 { bits: 0 }).level(F32 { bits: 0x8000_0000 }),
{
}

/// The order of numbers in double precision, likewise.
pub proof fn law_double_order(a: u64, b: u64, c: u64)
    ensures
        double_nan(a) || double_nan(b) ==> !double_below(a, b) && !double_level(a, b)
            && !double_within(a, b),
        !double_nan(a) && !double_nan(b) ==> (double_below(a, b) || double_below(b, a)
            || double_level(a, b)),
        !(double_below(a, b) && double_below(b, a)),
        !(double_below(a, b) && double_level(a, b)),
        double_level(a, b) <==> double_level(b, a),
        double_within(a, b) <==> double_below(a, b) || double_level(a, b),
        double_below(a, b) && double_below(b, c) ==> double_below(a, c),
        !double_nan(a) && !double_nan(b) && a < 0x8000_0000_0000_0000 && b < 0x8000_0000_0000_0000
            ==> (double_below(a, b) <==> a < b),
        !double_nan(a) && !double_nan(b) && a > 0x8000_0000_0000_0000 && b < 0x8000_0000_0000_0000
            ==> double_below(a, b),
        a < 0x8000_0000_0000_0000 && b < 0x8000_0000_0000_0000 ==> (double_below(a, b)
            <==> double_below((b + 0x8000_0000_0000_0000) as u64, (a + 0x8000_0000_0000_0000) as u64)),
        double_level(0, 0x8000_0000_0000_0000),
{
}

/// One number is at least another exactly if neither is missing and it does not
/// lie below; it is less exactly if it lies below.
pub proof fn law_compared(a: F32, b: F32, least: bool, less: bool)
    requires
        call_ensures(F32::at_least, (a, b), least),
        call_ensures(F32::less, (a, b), less),
    ensures
        least <==> !a.nan() && !b.nan() && !a.below(b),
        less <==> a.below(b),
        !(least && less),
{
}

} // verus!
