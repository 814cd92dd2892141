//! Single-precision numbers as bit patterns.
//!
//! A [`Single`] carries the 32 bits of an IEEE 754 binary32 number. Arithmetic on
//! such numbers is left to the callers; what the library needs of them is their
//! order, and that is decided here on the bits.
use vstd::prelude::*;

verus! {

/// The 32 bits of a single-precision number.
#[derive(Clone, Copy, Debug, PartialEq, Eq, Structural)]
pub struct Single {
    pub bits: u32,
}

/// The bits of negative infinity.
pub const NEG_INFINITY_BITS: u32 = 0xff80_0000;

/// The bits of positive infinity.
pub const POS_INFINITY_BITS: u32 = 0x7f80_0000;

/// The bits of the number one.
pub const ONE_BITS: u32 = 0x3f80_0000;

/// What is left of a number's bits once the sign is cleared.
pub open spec fn magnitude(bits: u32) -> int {
    if bits < 0x8000_0000u32 {
        bits as int
    } else {
        bits - 0x8000_0000
    }
}

/// Two to the power `n`.
pub open spec fn power_of_two(n: nat) -> nat
    decreases n,
{
    if n == 0 {
        1
    } else {
        2 * power_of_two((n - 1) as nat)
    }
}

/// The absolute value of a finite number whose bits without the sign are `m`, in
/// units of two to the power of minus 149.
pub open spec fn finite_magnitude_value(m: int) -> int {
    let exponent = m / 0x80_0000;
    let fraction = m % 0x80_0000;
    if exponent == 0 {
        fraction
    } else {
        (0x80_0000 + fraction) * power_of_two((exponent - 1) as nat)
    }
}

impl Single {
    /// Whether the sign bit is set.
    pub open spec fn negative(self) -> bool {
        self.bits >= 0x8000_0000u32
    }

    /// Whether the bits stand for no number.
    pub open spec fn nan(self) -> bool {
        magnitude(self.bits) > POS_INFINITY_BITS
    }

    /// Whether the bits stand for a real number.
    pub open spec fn finite(self) -> bool {
        magnitude(self.bits) < POS_INFINITY_BITS
    }

    /// The real number that finite bits stand for, in units of two to the power of
    /// minus 149.
    pub open spec fn value(self) -> int {
        if self.negative() {
            -finite_magnitude_value(magnitude(self.bits))
        } else {
            finite_magnitude_value(magnitude(self.bits))
        }
    }

    /// An integer that orders all numbers as their values do, with both zeros on 0.
    pub open spec fn rank(self) -> int {
        if self.negative() {
            -magnitude(self.bits)
        } else {
            magnitude(self.bits)
        }
    }

    /// An integer that orders every bit pattern: negative before positive, and zero
    /// with a minus sign just before zero.
    pub open spec fn total_rank(self) -> int {
        if self.negative() {
            -magnitude(self.bits) - 1
        } else {
            magnitude(self.bits)
        }
    }

    /// `self < other` as the IEEE comparison has it: false as soon as one side is no
    /// number.
    pub open spec fn lt_spec(self, other: Single) -> bool {
        !self.nan() && !other.nan() && self.rank() < other.rank()
    }

    /// `self >= other` as the IEEE comparison has it.
    pub open spec fn ge_spec(self, other: Single) -> bool {
        !self.nan() && !other.nan() && self.rank() >= other.rank()
    }

    /// `self == other` as the IEEE comparison has it.
    pub open spec fn eq_value_spec(self, other: Single) -> bool {
        !self.nan() && !other.nan() && self.rank() == other.rank()
    }

    /// The number with the opposite sign.
    pub open spec fn neg_spec(self) -> Single {
        Single {
            bits: if self.negative() {
                (self.bits - 0x8000_0000) as u32
            } else {
                (self.bits + 0x8000_0000) as u32
            },
        }
    }

    /// The larger of the two; the other one where one side is no number.
    pub open spec fn max_spec(self, other: Single) -> Single {
        if self.nan() || self.lt_spec(other) {
            other
        } else {
            self
        }
    }

    /// The smaller of the two; the other one where one side is no number.
    pub open spec fn min_spec(self, other: Single) -> Single {
        if self.nan() || other.lt_spec(self) {
            other
        } else {
            self
        }
    }

    /// Negative infinity.
    pub open spec fn neg_infinity_spec() -> Single {
        Single { bits: NEG_INFINITY_BITS }
    }

    /// Positive infinity.
    pub open spec fn infinity_spec() -> Single {
        Single { bits: POS_INFINITY_BITS }
    }

    /// Zero without a sign.
    pub open spec fn zero_spec() -> Single {
        Single { bits: 0 }
    }

    /// The number one.
    pub open spec fn one_spec() -> Single {
        Single { bits: ONE_BITS }
    }

    pub fn from_bits(bits: u32) -> (s: Single)
        ensures
            s.bits == bits,
    {
        Single { bits }
    }

    pub fn to_bits(self) -> (bits: u32)
        ensures
            bits == self.bits,
    {
        self.bits
    }

    pub fn neg_infinity() -> (s: Single)
        ensures
            s == Single::neg_infinity_spec(),
    {
        Single { bits: NEG_INFINITY_BITS }
    }

    pub fn infinity() -> (s: Single)
        ensures
            s == Single::infinity_spec(),
    {
        Single { bits: POS_INFINITY_BITS }
    }

    pub fn zero() -> (s: Single)
        ensures
            s == Single::zero_spec(),
    {
        Single { bits: 0 }
    }

    pub fn one() -> (s: Single)
        ensures
            s == Single::one_spec(),
    {
        Single { bits: ONE_BITS }
    }

    fn rank_number(self) -> (rank: i64)
        ensures
            rank == self.rank(),
    {
        if self.bits < 0x8000_0000u32 {
            self.bits as i64
        } else {
            -((self.bits - 0x8000_0000u32) as i64)
        }
    }

    /// The place of the number in the total order of all bit patterns.
    pub fn total_rank_number(self) -> (rank: i64)
        ensures
            rank == self.total_rank(),
    {
        if self.bits < 0x8000_0000u32 {
            self.bits as i64
        } else {
            -((self.bits - 0x8000_0000u32) as i64) - 1
        }
    }

    pub fn is_nan(self) -> (nan: bool)
        ensures
            nan == self.nan(),
    {
        let magnitude: u32 = if self.bits < 0x8000_0000u32 {
            self.bits
        } else {
            self.bits - 0x8000_0000u32
        };
        magnitude > POS_INFINITY_BITS
    }

    /// `self < other`, false as soon as one side is no number.
    pub fn less(self, other: Single) -> (less: bool)
        ensures
            less == self.lt_spec(other),
    {
        !self.is_nan() && !other.is_nan() && self.rank_number() < other.rank_number()
    }

    /// `self >= other`, false as soon as one side is no number.
    pub fn at_least(self, other: Single) -> (at_least: bool)
        ensures
            at_least == self.ge_spec(other),
    {
        !self.is_nan() && !other.is_nan() && self.rank_number() >= other.rank_number()
    }

    /// `self == other` by value: both zeros are equal, and what is no number equals
    /// nothing.
    pub fn same_value(self, other: Single) -> (same: bool)
        ensures
            same == self.eq_value_spec(other),
    {
        !self.is_nan() && !other.is_nan() && self.rank_number() == other.rank_number()
    }

    /// The number with its sign bit flipped.
    pub fn negated(self) -> (n: Single)
        ensures
            n == self.neg_spec(),
    {
        if self.bits < 0x8000_0000u32 {
            Single { bits: self.bits + 0x8000_0000u32 }
        } else {
            Single { bits: self.bits - 0x8000_0000u32 }
        }
    }

    pub fn larger(self, other: Single) -> (m: Single)
        ensures
            m == self.max_spec(other),
    {
        if self.is_nan() || self.less(other) {
            other
        } else {
            self
        }
    }

    pub fn smaller(self, other: Single) -> (m: Single)
        ensures
            m == self.min_spec(other),
    {
        if self.is_nan() || other.less(self) {
            other
        } else {
            self
        }
    }
}

proof fn lemma_power_of_two_positive(n: nat)
    ensures
        power_of_two(n) >= 1,
    decreases n,
{
    if n > 0 {
        lemma_power_of_two_positive((n - 1) as nat);
    }
}

proof fn lemma_power_of_two_monotone(a: nat, b: nat)
    requires
        a <= b,
    ensures
        power_of_two(a) <= power_of_two(b),
    decreases b,
{
    if a < b {
        lemma_power_of_two_monotone(a, (b - 1) as nat);
        lemma_power_of_two_positive((b - 1) as nat);
    }
}

/// Larger bits below the sign stand for a larger absolute value.
proof fn lemma_magnitude_value_monotone(a: int, b: int)
    requires
        0 <= a < b,
    ensures
        0 <= finite_magnitude_value(a) < finite_magnitude_value(b),
{
    let ea = a / 0x80_0000;
    let eb = b / 0x80_0000;
    let fa = a % 0x80_0000;
    let fb = b % 0x80_0000;
    assert(ea <= eb);
    if eb > 0 {
        let pb = power_of_two((eb - 1) as nat);
        lemma_power_of_two_positive((eb - 1) as nat);
        assert((0x80_0000 + fb) * pb >= 0x80_0000 * pb) by (nonlinear_arith)
            requires
                fb >= 0,
                pb >= 1,
        ;
        if ea == eb {
            assert(fa < fb);
            assert(0 <= (0x80_0000 + fa) * pb < (0x80_0000 + fb) * pb) by (nonlinear_arith)
                requires
                    0 <= fa < fb,
                    pb >= 1,
            ;
        } else if ea > 0 {
            let pa = power_of_two((ea - 1) as nat);
            lemma_power_of_two_positive((ea - 1) as nat);
            lemma_power_of_two_monotone(ea as nat, (eb - 1) as nat);
            assert(power_of_two(ea as nat) == 2 * pa);
            assert(0 <= (0x80_0000 + fa) * pa < 0x80_0000 * pb) by (nonlinear_arith)
                requires
                    0 <= fa < 0x80_0000,
                    pa >= 1,
                    2 * pa <= pb,
            ;
        } else {
            assert(0x80_0000 * pb >= 0x80_0000) by (nonlinear_arith)
                requires
                    pb >= 1,
            ;
        }
    }
}

/// The comparison on bits is the comparison of the real numbers that finite bits
/// stand for.
pub proof fn less_compares_values(a: Single, b: Single)
    requires
        a.finite(),
        b.finite(),
    ensures
        a.lt_spec(b) == (a.value() < b.value()),
        a.eq_value_spec(b) == (a.value() == b.value()),
{
    let ma = magnitude(a.bits);
    let mb = magnitude(b.bits);
    assert(finite_magnitude_value(0) == 0);
    if ma < mb {
        lemma_magnitude_value_monotone(ma, mb);
    }
    if mb < ma {
        lemma_magnitude_value_monotone(mb, ma);
    }
    if 0 < ma {
        lemma_magnitude_value_monotone(0, ma);
    }
    if 0 < mb {
        lemma_magnitude_value_monotone(0, mb);
    }
}

/// Negation is undone by a second negation, keeps what is no number as it is, and
/// turns every comparison round.
pub proof fn negation_reverses_order(a: Single, b: Single)
    ensures
        a.neg_spec().neg_spec() == a,
        a.neg_spec().nan() == a.nan(),
        a.neg_spec().rank() == -a.rank(),
        a.lt_spec(b) == b.neg_spec().lt_spec(a.neg_spec()),
{
}

/// The comparison is a strict order: nothing is below itself, and it carries over.
pub proof fn less_is_a_strict_order(a: Single, b: Single, c: Single)
    ensures
        !a.lt_spec(a),
        a.lt_spec(b) ==> !b.lt_spec(a),
        a.lt_spec(b) && b.lt_spec(c) ==> a.lt_spec(c),
{
}

/// The total order tells any two bit patterns apart and agrees with the comparison
/// of numbers.
pub proof fn total_order_refines_less(a: Single, b: Single)
    ensures
        a.total_rank() == b.total_rank() <==> a == b,
        a.lt_spec(b) ==> a.total_rank() < b.total_rank(),
{
}

/// The 64 bits of a double-precision number.
#[derive(Clone, Copy, Debug, PartialEq, Eq, Structural)]
pub struct Double {
    pub bits: u64,
}

/// The bits of positive infinity in double precision.
pub const DOUBLE_INFINITY_BITS: u64 = 0x7ff0_0000_0000_0000;

impl Double {
    /// Whether the bits stand for a number above zero.
    pub open spec fn positive(self) -> bool {
        0 < self.bits <= DOUBLE_INFINITY_BITS
    }

    /// Whether the number is above zero.
    pub fn is_positive(self) -> (positive: bool)
        ensures
            positive == self.positive(),
    {
        0 < self.bits && self.bits <= DOUBLE_INFINITY_BITS
    }
}

impl Single {
    /// Whether the number lies between zero and one, both included.
    pub open spec fn in_unit_interval(self) -> bool {
        self.ge_spec(Single::zero_spec()) && Single::one_spec().ge_spec(self)
    }

    pub fn is_in_unit_interval(self) -> (inside: bool)
        ensures
            inside == self.in_unit_interval(),
    {
        self.at_least(Single::zero()) && Single::one().at_least(self)
    }
}

/// The larger of two numbers is one of them and below neither, the smaller is one of them and
/// above neither; what is no number loses to a number in both.
pub proof fn larger_and_smaller_bound_both(a: Single, b: Single)
    ensures
        a.max_spec(b) == a || a.max_spec(b) == b,
        a.min_spec(b) == a || a.min_spec(b) == b,
        !a.max_spec(b).lt_spec(a) && !a.max_spec(b).lt_spec(b),
        !a.lt_spec(a.min_spec(b)) && !b.lt_spec(a.min_spec(b)),
        a.nan() ==> a.max_spec(b) == b && a.min_spec(b) == b,
        b.nan() && !a.nan() ==> a.max_spec(b) == a && a.min_spec(b) == a,
        a.finite() && b.finite() ==> a.max_spec(b).value() >= a.value() && a.max_spec(b).value()
            >= b.value() && a.min_spec(b).value() <= a.value() && a.min_spec(b).value()
            <= b.value(),
{
    if a.finite() && b.finite() {
        less_compares_values(a, b);
        less_compares_values(b, a);
    }
}

/// On numbers one side is at least the other unless it is below it; what is no number is
/// neither.
pub proof fn at_least_is_not_below(a: Single, b: Single)
    ensures
        !a.nan() && !b.nan() ==> a.ge_spec(b) == !a.lt_spec(b),
        a.nan() || b.nan() ==> !a.ge_spec(b) && !a.lt_spec(b) && !a.eq_value_spec(b),
        a.ge_spec(b) && b.ge_spec(a) <==> a.eq_value_spec(b),
        a.finite() && b.finite() ==> a.ge_spec(b) == (a.value() >= b.value()),
{
    if a.finite() && b.finite() {
        less_compares_values(a, b);
    }
}

/// The negative of a finite number is finite and has the opposite value.
pub proof fn negation_negates_values(a: Single)
    ensures
        a.neg_spec() != a,
        a.finite() ==> a.neg_spec().finite() && a.neg_spec().value() == -a.value(),
        Single::infinity_spec().neg_spec() == Single::neg_infinity_spec(),
{
}

/// The infinities are numbers, and every finite number lies between them.
pub proof fn finite_numbers_lie_between_the_infinities(a: Single)
    ensures
        !Single::infinity_spec().nan() && !Single::infinity_spec().finite(),
        !Single::neg_infinity_spec().nan() && !Single::neg_infinity_spec().finite(),
        a.finite() ==> Single::neg_infinity_spec().lt_spec(a) && a.lt_spec(
            Single::infinity_spec(),
        ),
        !a.nan() ==> !a.lt_spec(Single::neg_infinity_spec()) && !Single::infinity_spec().lt_spec(a),
        a.finite() ==> !a.nan(),
{
}

/// Zero is worth nothing, and one is worth as many units as make a whole; the numbers between
/// them are those whose value is.
pub proof fn unit_interval_is_from_zero_to_one(a: Single)
    ensures
        Single::zero_spec().finite() && Single::zero_spec().value() == 0,
        Single::one_spec().finite() && Single::one_spec().value() == power_of_two(149),
        a.finite() ==> a.in_unit_interval() == (0 <= a.value() <= power_of_two(149)),
        a.in_unit_interval() ==> a.finite(),
{
    assert(power_of_two(149) == 0x80_0000 * power_of_two(126)) by {
        reveal_with_fuel(power_of_two, 24);
    }
    if a.finite() {
        at_least_is_not_below(a, Single::zero_spec());
        at_least_is_not_below(Single::one_spec(), a);
    }
}

} // verus!
