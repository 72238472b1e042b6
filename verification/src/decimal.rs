//! Decimal representation: sign tag, base-10^9 digit groups, weight and
//! display scale, together with the mathematical value model used by the
//! contracts of the comparator and the formatter.

use vstd::prelude::*;
use vstd::arithmetic::power::pow;
use vstd::arithmetic::mul::lemma_mul_inequality;
use vstd::arithmetic::mul::lemma_mul_basics;
use vstd::arithmetic::mul::lemma_mul_is_distributive_add_other_way;
use vstd::arithmetic::power::lemma_pow_positive;
use vstd::arithmetic::power::lemma_pow_adds;
use vstd::arithmetic::power::lemma_pow1;
use core::cmp::Ordering;

verus! {

/// Maximum number of significant decimal digits accepted by the parser.
pub const MAX_PRECISION: u32 = 36;

/// Number of decimal digits packed into one digit group.
pub const DEC_DIGITS: u32 = 9;

/// One digit group holds a value in `[0, NBASE)`.
pub const NBASE: u32 = 1_000_000_000;

/// Sign tag of a decimal value. `NaN` is a distinguished sign and carries
/// no digits.
#[derive(Debug, Clone, Copy, PartialEq, Eq, Structural)]
pub enum Sign {
    Positive,
    Negative,
    NaN,
}

/// The abstract content of a decimal value: what the parser promises and
/// what the comparator and formatter consume.
pub struct DecModel {
    pub sign: Sign,
    pub weight: int,
    pub dscale: int,
    pub groups: Seq<u32>,
}

/// A fixed-capacity decimal number: up to 45 stored decimal digits in five
/// base-10^9 groups, of which at most 36 significant digits are ever
/// produced by the parser. Values are immutable once constructed.
#[derive(Debug, Clone, Copy)]
pub struct Decimal {
    pub(crate) sign: Sign,
    pub(crate) weight: i8,
    pub(crate) dscale: i16,
    pub(crate) ndigits: u8,
    pub(crate) digits: [u32; 5],
}

/// 10^(9*e): the place value of a digit group e base-10^9 places above the
/// least representable one.
pub open spec fn pow_b(e: int) -> int {
    pow(1_000_000_000, e as nat)
}

/// Magnitude of a group sequence whose leading group sits at group weight
/// `w`, scaled by 10^(9*132): the sum of g[i] * 10^(9*(132 + w - i)).
/// The shift by 132 makes every term an integer for all representable
/// weights (weight is at least -128 and at most four further groups follow).
pub open spec fn seq_mag(g: Seq<u32>, w: int) -> int
    decreases g.len(),
{
    if g.len() == 0 {
        0
    } else {
        g[0] * pow_b(132 + w) + seq_mag(g.drop_first(), w - 1)
    }
}

impl Decimal {
    /// Structural well-formedness, maintained as a type invariant: the digit
    /// count is in range, every stored group is a valid base-10^9 digit,
    /// unused slots are zero, no stored group is all-zero at the leading or
    /// trailing edge, and the two digitless values (zero and NaN) carry
    /// canonical field values.
    #[verifier::type_invariant]
    pub(crate) open spec fn wf(self) -> bool {
        &&& self.ndigits <= 5
        &&& forall|i: int| 0 <= i < 5 ==> self.digits[i] < 1_000_000_000
        &&& forall|i: int| self.ndigits <= i < 5 ==> self.digits[i] == 0
        &&& self.ndigits > 0 ==> self.digits[0] != 0 && self.digits[self.ndigits as int - 1]
            != 0
        &&& self.ndigits == 0 ==> self.weight == 0 && self.dscale == 0
        &&& self.sign is NaN ==> self.ndigits == 0
    }

    /// The sign tag of this value.
    pub open(crate) spec fn spec_sign(self) -> Sign {
        self.sign
    }

    /// The group weight: base-10^9 exponent of the first stored group.
    pub open(crate) spec fn spec_weight(self) -> int {
        self.weight as int
    }

    /// The display scale: decimal digits rendered after the point.
    pub open(crate) spec fn spec_scale(self) -> int {
        self.dscale as int
    }

    /// The stored digit groups, most significant first.
    pub open(crate) spec fn spec_groups(self) -> Seq<u32> {
        self.digits@.take(self.ndigits as int)
    }

    /// The abstract content of this value.
    pub open spec fn model(self) -> DecModel {
        DecModel {
            sign: self.spec_sign(),
            weight: self.spec_weight(),
            dscale: self.spec_scale(),
            groups: self.spec_groups(),
        }
    }

    /// Whether this value is the (unique) zero: no stored digits and a
    /// non-NaN sign tag.
    pub open spec fn spec_is_zero(self) -> bool {
        self.spec_groups().len() == 0 && !(self.spec_sign() is NaN)
    }

    /// The magnitude of this value scaled by 10^(9*132), which makes it a
    /// non-negative integer for every representable weight.
    pub open spec fn mag(self) -> int {
        model_mag(self.model())
    }

    /// The signed value scaled by 10^(9*132). Meaningless for NaN.
    pub open spec fn sval(self) -> int {
        if self.spec_sign() is Negative {
            -self.mag()
        } else {
            self.mag()
        }
    }

    /// The canonical zero value.
    pub open(crate) spec fn spec_zero() -> Decimal {
        Decimal {
            sign: Sign::Positive,
            weight: 0,
            dscale: 0,
            ndigits: 0,
            digits: [0u32, 0u32, 0u32, 0u32, 0u32],
        }
    }

    /// The canonical NaN value.
    pub open(crate) spec fn spec_nan() -> Decimal {
        Decimal {
            sign: Sign::NaN,
            weight: 0,
            dscale: 0,
            ndigits: 0,
            digits: [0u32, 0u32, 0u32, 0u32, 0u32],
        }
    }

    /// The canonical zero value.
    pub fn zero() -> (r: Decimal)
        ensures
            r == Decimal::spec_zero(),
    {
        Decimal {
            sign: Sign::Positive,
            weight: 0,
            dscale: 0,
            ndigits: 0,
            digits: [0u32, 0u32, 0u32, 0u32, 0u32],
        }
    }

    /// The canonical NaN value.
    pub fn nan() -> (r: Decimal)
        ensures
            r == Decimal::spec_nan(),
    {
        Decimal {
            sign: Sign::NaN,
            weight: 0,
            dscale: 0,
            ndigits: 0,
            digits: [0u32, 0u32, 0u32, 0u32, 0u32],
        }
    }

    /// Checks if `self` is positive.
    #[inline]
    pub fn is_sign_positive(&self) -> (r: bool)
        ensures
            r == (self.spec_sign() is Positive),
    {
        matches!(self.sign, Sign::Positive)
    }

    /// Checks if `self` is negative.
    #[inline]
    pub fn is_sign_negative(&self) -> (r: bool)
        ensures
            r == (self.spec_sign() is Negative),
    {
        matches!(self.sign, Sign::Negative)
    }

    /// Checks if `self` is NaN.
    #[inline]
    pub fn is_nan(&self) -> (r: bool)
        ensures
            r == (self.spec_sign() is NaN),
    {
        matches!(self.sign, Sign::NaN)
    }

    /// Checks if `self` is zero. NaN also stores no digits, so both the
    /// digit count and the sign tag decide.
    #[inline]
    pub fn is_zero(&self) -> (r: bool)
        ensures
            r == self.spec_is_zero(),
    {
        proof {
            use_type_invariant(self);
        }
        self.ndigits == 0 && !matches!(self.sign, Sign::NaN)
    }

    /// The stored digit groups, most significant first.
    pub fn digits(&self) -> (r: &[u32])
        ensures
            r@ == self.spec_groups(),
    {
        proof {
            use_type_invariant(self);
        }
        vstd::slice::slice_subrange(self.digits.as_slice(), 0, self.ndigits as usize)
    }
}

/// The magnitude a model denotes, scaled by 10^(9*132).
pub open spec fn model_mag(m: DecModel) -> int {
    seq_mag(m.groups, m.weight)
}

/// Magnitude of the groups of `d` that remain from stored index `i` on.
pub(crate) open spec fn rem_mag(d: Decimal, i: int) -> int {
    seq_mag(d.spec_groups().skip(i), d.spec_weight() - i)
}

/// pow_b grows one factor of 10^9 per step.
proof fn lemma_pow_b_step(e: int)
    requires
        e >= 1,
    ensures
        pow_b(e) == 1_000_000_000 * pow_b(e - 1),
{
    lemma_pow1(1_000_000_000);
    lemma_pow_adds(1_000_000_000, 1nat, (e - 1) as nat);
}

/// pow_b is positive on non-negative exponents.
proof fn lemma_pow_b_pos(e: int)
    requires
        e >= 0,
    ensures
        pow_b(e) > 0,
{
    lemma_pow_positive(1_000_000_000, e as nat);
}

/// pow_b is monotone on non-negative exponents.
proof fn lemma_pow_b_mono(e1: int, e2: int)
    requires
        0 <= e1 <= e2,
    ensures
        pow_b(e1) <= pow_b(e2),
    decreases e2 - e1,
{
    if e1 < e2 {
        lemma_pow_b_mono(e1, e2 - 1);
        lemma_pow_b_pos(e2 - 1);
        lemma_pow_b_step(e2);
    }
}

/// A group sequence of valid base-10^9 digits at weight `w` has a magnitude
/// in [0, pow_b(133 + w)).
pub(crate) proof fn lemma_seq_mag_bounds(g: Seq<u32>, w: int)
    requires
        g.len() <= 133 + w,
        forall|i: int| 0 <= i < g.len() ==> g[i] < 1_000_000_000,
    ensures
        0 <= seq_mag(g, w) < pow_b(133 + w),
    decreases g.len(),
{
    if g.len() == 0 {
        lemma_pow_b_pos(133 + w);
    } else {
        let tail = g.drop_first();
        lemma_seq_mag_bounds(tail, w - 1);
        lemma_pow_b_pos(132 + w);
        let p = pow_b(132 + w);
        lemma_mul_inequality(g[0] as int, 999_999_999, p);
        lemma_mul_inequality(0, g[0] as int, p);
        lemma_pow_b_step(133 + w);
    }
}

/// A group sequence with a nonzero leading digit has magnitude at least the
/// place value of that digit.
pub(crate) proof fn lemma_seq_mag_lower(g: Seq<u32>, w: int)
    requires
        1 <= g.len() <= 133 + w,
        forall|i: int| 0 <= i < g.len() ==> g[i] < 1_000_000_000,
        g[0] >= 1,
    ensures
        seq_mag(g, w) >= pow_b(132 + w),
{
    let p = pow_b(132 + w);
    lemma_pow_b_pos(132 + w);
    lemma_mul_inequality(1, g[0] as int, p);
    lemma_seq_mag_bounds(g.drop_first(), w - 1);
}

/// A group sequence with some nonzero digit has positive magnitude.
pub(crate) proof fn lemma_seq_mag_pos(g: Seq<u32>, w: int)
    requires
        g.len() <= 133 + w,
        forall|i: int| 0 <= i < g.len() ==> g[i] < 1_000_000_000,
        exists|i: int| 0 <= i < g.len() && g[i] != 0,
    ensures
        seq_mag(g, w) > 0,
    decreases g.len(),
{
    let k = choose|i: int| 0 <= i < g.len() && g[i] != 0;
    if g[0] != 0 {
        lemma_seq_mag_lower(g, w);
        lemma_pow_b_pos(132 + w);
    } else {
        let tail = g.drop_first();
        assert(tail[k - 1] == g[k] && tail[k - 1] != 0);
        lemma_seq_mag_pos(tail, w - 1);
    }
}

/// Dropping the group at index `i` splits the remaining magnitude into the
/// group's place value plus the magnitude of what follows.
pub(crate) proof fn lemma_rem_step(d: Decimal, i: int)
    requires
        0 <= i < d.spec_groups().len(),
    ensures
        rem_mag(d, i) == d.spec_groups()[i] * pow_b(132 + d.spec_weight() - i) + rem_mag(
            d,
            i + 1,
        ),
{
    let g = d.spec_groups();
    assert(g.skip(i).drop_first() =~= g.skip(i + 1));
    assert(g.skip(i)[0] == g[i]);
}

/// Skipping a zero group leaves the remaining magnitude unchanged.
pub(crate) proof fn lemma_rem_skip_zero(d: Decimal, i: int)
    requires
        0 <= i < d.spec_groups().len(),
        d.spec_groups()[i] == 0,
    ensures
        rem_mag(d, i) == rem_mag(d, i + 1),
{
    lemma_rem_step(d, i);
    lemma_mul_basics(pow_b(132 + d.spec_weight() - i));
}

/// The whole magnitude is the remaining magnitude from the first group.
pub(crate) proof fn lemma_mag_rem0(d: Decimal)
    ensures
        d.mag() == rem_mag(d, 0),
{
    assert(d.spec_groups().skip(0) =~= d.spec_groups());
}

/// A well-formed decimal with stored digits has a nonzero group.
pub(crate) proof fn lemma_nonzero_group_exists(d: Decimal)
    requires
        d.wf(),
        d.ndigits > 0,
    ensures
        exists|i: int| 0 <= i < d.spec_groups().len() && d.spec_groups()[i] != 0,
{
    assert(d.spec_groups()[0] != 0);
}

/// Three-way comparison of two decimals. NaN is decided to be equal to NaN
/// and greater than every non-NaN value; two non-NaN values are ordered by
/// their signed mathematical values, so the display scale never matters.
pub open spec fn decimal_cmp(a: Decimal, b: Decimal) -> Ordering {
    if a.spec_sign() is NaN && b.spec_sign() is NaN {
        Ordering::Equal
    } else if a.spec_sign() is NaN {
        Ordering::Greater
    } else if b.spec_sign() is NaN {
        Ordering::Less
    } else if a.sval() < b.sval() {
        Ordering::Less
    } else if a.sval() == b.sval() {
        Ordering::Equal
    } else {
        Ordering::Greater
    }
}

/// The comparator is a strict total order on non-NaN values, consistent
/// with the mathematical value a decimal denotes: comparison is reflexive,
/// antisymmetric and transitive, and two values compare equal exactly when
/// they denote the same number, whatever their display scales or stored
/// digit alignments.
pub proof fn lemma_cmp_total_order(a: Decimal, b: Decimal, c: Decimal)
    requires
        !(a.model().sign is NaN),
        !(b.model().sign is NaN),
        !(c.model().sign is NaN),
    ensures
        decimal_cmp(a, a) is Equal,
        (decimal_cmp(a, b) is Equal) <==> (decimal_cmp(b, a) is Equal),
        (decimal_cmp(a, b) is Less) <==> (decimal_cmp(b, a) is Greater),
        (decimal_cmp(a, b) is Less && decimal_cmp(b, c) is Less) ==> decimal_cmp(a, c) is Less,
        (decimal_cmp(a, b) is Equal && decimal_cmp(b, c) is Equal) ==> decimal_cmp(
            a,
            c,
        ) is Equal,
        (decimal_cmp(a, b) is Equal) <==> (a.sval() == b.sval()),
        (decimal_cmp(a, b) is Less) <==> (a.sval() < b.sval()),
        (decimal_cmp(a, b) is Greater) <==> (a.sval() > b.sval()),
{
}

impl Decimal {
    /// Compare the absolute values of `self` and `other` by walking the two
    /// group sequences aligned by weight.
    pub(crate) fn cmp_abs(&self, other: &Self) -> (r: Ordering)
        ensures
            r == (if self.mag() < other.mag() {
                Ordering::Less
            } else if self.mag() == other.mag() {
                Ordering::Equal
            } else {
                Ordering::Greater
            }),
    {
        proof {
            use_type_invariant(self);
            use_type_invariant(other);
            lemma_mag_rem0(*self);
            lemma_mag_rem0(*other);
        }
        let dec1_ndigits = self.ndigits;
        let dec2_ndigits = other.ndigits;
        let mut dec1_weight: i32 = self.weight as i32;
        let mut dec2_weight: i32 = other.weight as i32;

        let mut i1: u8 = 0;
        let mut i2: u8 = 0;

        // Check any digits before the first common digit

        while dec1_weight > dec2_weight && i1 < dec1_ndigits
            invariant
                self.wf(),
                other.wf(),
                0 <= i1 <= dec1_ndigits,
                i2 == 0,
                dec1_ndigits == self.ndigits,
                dec2_ndigits == other.ndigits,
                dec1_weight == self.spec_weight() - i1,
                dec2_weight == other.spec_weight(),
                self.mag() - other.mag() == rem_mag(*self, i1 as int) - rem_mag(*other, 0),
            decreases dec1_ndigits - i1,
        {
            proof {
                lemma_rem_step(*self, i1 as int);
            }
            if self.digits[i1 as usize] != 0 {
                proof {
                    lemma_seq_mag_lower(
                        self.spec_groups().skip(i1 as int),
                        self.spec_weight() - i1,
                    );
                    assert(other.spec_groups().skip(0) =~= other.spec_groups());
                    lemma_seq_mag_bounds(other.spec_groups(), other.spec_weight());
                    lemma_pow_b_mono(
                        133 + other.spec_weight(),
                        132 + self.spec_weight() - i1,
                    );
                }
                return Ordering::Greater;
            }
            proof {
                lemma_rem_skip_zero(*self, i1 as int);
            }
            i1 += 1;
            dec1_weight -= 1;
        }
        while dec2_weight > dec1_weight && i2 < dec2_ndigits
            invariant
                self.wf(),
                other.wf(),
                0 <= i1 <= dec1_ndigits,
                0 <= i2 <= dec2_ndigits,
                dec1_ndigits == self.ndigits,
                dec2_ndigits == other.ndigits,
                dec1_weight == self.spec_weight() - i1,
                dec2_weight == other.spec_weight() - i2,
                dec1_weight <= dec2_weight || i1 == dec1_ndigits,
                self.mag() - other.mag() == rem_mag(*self, i1 as int) - rem_mag(
                    *other,
                    i2 as int,
                ),
            decreases dec2_ndigits - i2,
        {
            proof {
                lemma_rem_step(*other, i2 as int);
            }
            if other.digits[i2 as usize] != 0 {
                proof {
                    lemma_seq_mag_lower(
                        other.spec_groups().skip(i2 as int),
                        other.spec_weight() - i2,
                    );
                    lemma_seq_mag_bounds(
                        self.spec_groups().skip(i1 as int),
                        self.spec_weight() - i1,
                    );
                    lemma_pow_b_mono(
                        133 + self.spec_weight() - i1,
                        132 + other.spec_weight() - i2,
                    );
                }
                return Ordering::Less;
            }
            proof {
                lemma_rem_skip_zero(*other, i2 as int);
            }
            i2 += 1;
            dec2_weight -= 1;
        }

        // At this point, either both weights agree or we have run out of
        // digits on the side whose weight is still higher.

        if dec1_weight == dec2_weight {
            while i1 < dec1_ndigits && i2 < dec2_ndigits
                invariant
                    self.wf(),
                    other.wf(),
                    0 <= i1 <= dec1_ndigits,
                    0 <= i2 <= dec2_ndigits,
                    dec1_ndigits == self.ndigits,
                    dec2_ndigits == other.ndigits,
                    dec1_weight == self.spec_weight() - i1,
                    dec2_weight == other.spec_weight() - i2,
                    dec1_weight == dec2_weight,
                    self.mag() - other.mag() == rem_mag(*self, i1 as int) - rem_mag(
                        *other,
                        i2 as int,
                    ),
                decreases dec1_ndigits - i1,
            {
                proof {
                    lemma_rem_step(*self, i1 as int);
                    lemma_rem_step(*other, i2 as int);
                    lemma_seq_mag_bounds(
                        self.spec_groups().skip(i1 as int + 1),
                        self.spec_weight() - i1 - 1,
                    );
                    lemma_seq_mag_bounds(
                        other.spec_groups().skip(i2 as int + 1),
                        other.spec_weight() - i2 - 1,
                    );
                    lemma_pow_b_pos(132 + self.spec_weight() - i1);
                }
                let d1 = self.digits[i1 as usize];
                let d2 = other.digits[i2 as usize];
                if d1 != d2 {
                    proof {
                        let p = pow_b(132 + self.spec_weight() - i1);
                        lemma_mul_basics(p);
                        if d1 > d2 {
                            lemma_mul_inequality(d2 as int + 1, d1 as int, p);
                            lemma_mul_is_distributive_add_other_way(p, d2 as int, 1);
                        } else {
                            lemma_mul_inequality(d1 as int + 1, d2 as int, p);
                            lemma_mul_is_distributive_add_other_way(p, d1 as int, 1);
                        }
                    }
                    return if d1 > d2 {
                        Ordering::Greater
                    } else {
                        Ordering::Less
                    };
                }
                i1 += 1;
                i2 += 1;
                dec1_weight -= 1;
                dec2_weight -= 1;
            }
        }

        // We have run out of digits on one side or the other; any remaining
        // nonzero digit decides.

        proof {
            assert(i1 == dec1_ndigits || i2 == dec2_ndigits);
        }
        while i1 < dec1_ndigits
            invariant
                self.wf(),
                other.wf(),
                0 <= i1 <= dec1_ndigits,
                0 <= i2 <= dec2_ndigits,
                dec1_ndigits == self.ndigits,
                dec2_ndigits == other.ndigits,
                i1 < dec1_ndigits ==> i2 == dec2_ndigits,
                self.mag() - other.mag() == rem_mag(*self, i1 as int) - rem_mag(
                    *other,
                    i2 as int,
                ),
            decreases dec1_ndigits - i1,
        {
            proof {
                lemma_rem_step(*self, i1 as int);
                assert(other.spec_groups().skip(i2 as int).len() == 0);
            }
            if self.digits[i1 as usize] != 0 {
                proof {
                    lemma_seq_mag_lower(
                        self.spec_groups().skip(i1 as int),
                        self.spec_weight() - i1,
                    );
                    lemma_pow_b_pos(132 + self.spec_weight() - i1);
                }
                return Ordering::Greater;
            }
            proof {
                lemma_rem_skip_zero(*self, i1 as int);
            }
            i1 += 1;
        }
        proof {
            assert(self.spec_groups().skip(i1 as int).len() == 0);
        }
        while i2 < dec2_ndigits
            invariant
                self.wf(),
                other.wf(),
                0 <= i2 <= dec2_ndigits,
                dec2_ndigits == other.ndigits,
                self.mag() - other.mag() == 0 - rem_mag(*other, i2 as int),
            decreases dec2_ndigits - i2,
        {
            proof {
                lemma_rem_step(*other, i2 as int);
            }
            if other.digits[i2 as usize] != 0 {
                proof {
                    lemma_seq_mag_lower(
                        other.spec_groups().skip(i2 as int),
                        other.spec_weight() - i2,
                    );
                    lemma_pow_b_pos(132 + other.spec_weight() - i2);
                }
                return Ordering::Less;
            }
            proof {
                lemma_rem_skip_zero(*other, i2 as int);
            }
            i2 += 1;
        }
        proof {
            assert(rem_mag(*other, i2 as int) == 0);
        }
        Ordering::Equal
    }


    /// Compare two decimals. NaN equals NaN and is greater than every
    /// non-NaN value; non-NaN values are ordered by their mathematical
    /// value, independent of display scale.
    pub fn cmp_common(&self, other: &Self) -> (r: Ordering)
        ensures
            r == decimal_cmp(*self, *other),
    {
        proof {
            use_type_invariant(self);
            use_type_invariant(other);
            if self.ndigits > 0 {
                lemma_nonzero_group_exists(*self);
                lemma_seq_mag_pos(self.spec_groups(), self.spec_weight());
            }
            if other.ndigits > 0 {
                lemma_nonzero_group_exists(*other);
                lemma_seq_mag_pos(other.spec_groups(), other.spec_weight());
            }
        }
        if self.is_nan() {
            if other.is_nan() {
                Ordering::Equal
            } else {
                Ordering::Greater
            }
        } else if other.is_nan() {
            Ordering::Less
        } else if self.is_zero() {
            if other.is_zero() {
                Ordering::Equal
            } else if other.is_sign_negative() {
                Ordering::Greater
            } else {
                Ordering::Less
            }
        } else if other.is_zero() {
            if self.is_sign_positive() {
                Ordering::Greater
            } else {
                Ordering::Less
            }
        } else if self.is_sign_positive() {
            if other.is_sign_negative() {
                Ordering::Greater
            } else {
                self.cmp_abs(other)
            }
        } else if other.is_sign_positive() {
            Ordering::Less
        } else {
            other.cmp_abs(self)
        }
    }
}

/// The ASCII character for one decimal digit value.
pub open spec fn digit_char(n: int) -> char {
    if n == 0 {
        '0'
    } else if n == 1 {
        '1'
    } else if n == 2 {
        '2'
    } else if n == 3 {
        '3'
    } else if n == 4 {
        '4'
    } else if n == 5 {
        '5'
    } else if n == 6 {
        '6'
    } else if n == 7 {
        '7'
    } else if n == 8 {
        '8'
    } else {
        '9'
    }
}

/// 10^n, for digit place values.
pub open spec fn ten_pow(n: nat) -> int
    decreases n,
{
    if n == 0 {
        1
    } else {
        10 * ten_pow((n - 1) as nat)
    }
}

/// A non-negative number rendered in decimal without leading zeros.
pub open spec fn dec_rep(n: int) -> Seq<char>
    decreases n,
{
    if n <= 9 {
        seq![digit_char(n)]
    } else {
        dec_rep(n / 10).push(digit_char(n % 10))
    }
}

/// A number rendered as exactly `width` decimal digits, zero-padded: digit
/// `j` holds the place value 10^(width-1-j).
pub open spec fn pad_rep(n: int, width: nat) -> Seq<char> {
    Seq::new(width, |j: int| digit_char((n / ten_pow((width - 1 - j) as nat)) % 10))
}

/// The stored group at index `i`, reading groups outside the stored range
/// as zero.
pub open spec fn group_at(d: Decimal, i: int) -> int {
    if 0 <= i < d.spec_groups().len() {
        d.spec_groups()[i] as int
    } else {
        0
    }
}

/// The zero-padded groups from index `i` through the group weight: the
/// integral digits after the first group.
pub open spec fn int_groups(d: Decimal, i: int) -> Seq<char>
    decreases d.spec_weight() - i + 1,
{
    if i > d.spec_weight() {
        Seq::empty()
    } else {
        pad_rep(group_at(d, i), 9) + int_groups(d, i + 1)
    }
}

/// The fractional digits from display position `scale` (a multiple of nine)
/// up to the display scale: full nine-digit groups, and a final group
/// truncated (not rounded) to the remaining width.
pub open spec fn frac_groups(d: Decimal, scale: int) -> Seq<char>
    decreases d.spec_scale() - scale,
{
    if scale >= d.spec_scale() {
        Seq::empty()
    } else {
        let g = group_at(d, d.spec_weight() + 1 + scale / 9);
        if scale + 9 <= d.spec_scale() {
            pad_rep(g, 9) + frac_groups(d, scale + 9)
        } else {
            pad_rep(g / ten_pow((9 - (d.spec_scale() - scale)) as nat), (d.spec_scale()
                - scale) as nat)
        }
    }
}

/// The canonical text of a decimal: `NaN` for NaN, `0` for zero, and
/// otherwise an optional minus sign, the integral digits (a single `0` when
/// the value has none), and exactly `scale` fractional digits after a point
/// when the scale is positive.
pub open spec fn format_spec(d: Decimal) -> Seq<char> {
    if d.spec_sign() is NaN {
        seq!['N', 'a', 'N']
    } else if d.spec_is_zero() {
        seq!['0']
    } else {
        let sgn: Seq<char> = if d.spec_sign() is Negative {
            seq!['-']
        } else {
            Seq::empty()
        };
        let ip: Seq<char> = if d.spec_weight() < 0 {
            seq!['0']
        } else {
            dec_rep(group_at(d, 0)) + int_groups(d, 1)
        };
        let fp: Seq<char> = if d.spec_scale() > 0 {
            seq!['.'] + frac_groups(d, 0)
        } else {
            Seq::empty()
        };
        sgn + ip + fp
    }
}

/// The ASCII digit string for one decimal digit value.
fn digit_str(n: u32) -> (r: &'static str)
    requires
        n <= 9,
    ensures
        r@ == seq![digit_char(n as int)],
{
    proof {
        reveal_strlit("0");
        reveal_strlit("1");
        reveal_strlit("2");
        reveal_strlit("3");
        reveal_strlit("4");
        reveal_strlit("5");
        reveal_strlit("6");
        reveal_strlit("7");
        reveal_strlit("8");
        reveal_strlit("9");
    }
    match n {
        0 => "0",
        1 => "1",
        2 => "2",
        3 => "3",
        4 => "4",
        5 => "5",
        6 => "6",
        7 => "7",
        8 => "8",
        _ => "9",
    }
}

/// Small powers of ten as machine integers.
fn ten_pow_u32(e: usize) -> (r: u32)
    requires
        e <= 8,
    ensures
        r as int == ten_pow(e as nat),
        r >= 1,
{
    proof {
        assert(ten_pow(0) == 1);
        assert(ten_pow(1) == 10);
        assert(ten_pow(2) == 100);
        assert(ten_pow(3) == 1000);
        assert(ten_pow(4) == 10000);
        assert(ten_pow(5) == 100000);
        assert(ten_pow(6) == 1000000);
        assert(ten_pow(7) == 10000000);
        assert(ten_pow(8) == 100000000);
    }
    match e {
        0 => 1,
        1 => 10,
        2 => 100,
        3 => 1000,
        4 => 10000,
        5 => 100000,
        6 => 1000000,
        7 => 10000000,
        _ => 100000000,
    }
}

/// Appends a non-negative number in decimal without leading zeros.
fn push_uint(out: &mut String, n: u32)
    ensures
        final(out)@ == old(out)@ + dec_rep(n as int),
    decreases n,
{
    if n <= 9 {
        out.append(digit_str(n));
    } else {
        push_uint(out, n / 10);
        out.append(digit_str(n % 10));
        proof {
            assert(final(out)@ =~= old(out)@ + dec_rep(n as int));
        }
    }
}

/// Appends a number as exactly `width` zero-padded decimal digits.
fn push_padded(out: &mut String, n: u32, width: usize)
    requires
        1 <= width <= 9,
    ensures
        final(out)@ == old(out)@ + pad_rep(n as int, width as nat),
{
    let mut j: usize = 0;
    while j < width
        invariant
            0 <= j <= width <= 9,
            out@ =~= old(out)@ + pad_rep(n as int, width as nat).take(j as int),
        decreases width - j,
    {
        let div = ten_pow_u32(width - 1 - j);
        let d = (n / div) % 10;
        proof {
            assert(d as int == (n as int / ten_pow((width - 1 - j) as nat)) % 10);
            assert(pad_rep(n as int, width as nat)[j as int] == digit_char(d as int));
        }
        out.append(digit_str(d));
        proof {
            assert(out@ =~= old(out)@ + pad_rep(n as int, width as nat).take(j as int + 1));
        }
        j += 1;
    }
    proof {
        assert(pad_rep(n as int, width as nat).take(width as int) =~= pad_rep(
            n as int,
            width as nat,
        ));
    }
}

impl Decimal {
    /// The stored group at index `i`, reading groups outside the stored
    /// range as zero.
    fn group(&self, i: i32) -> (g: u32)
        ensures
            g as int == group_at(*self, i as int),
            g < 1_000_000_000,
    {
        proof {
            use_type_invariant(self);
        }
        if i >= 0 && (i as usize) < self.ndigits as usize {
            self.digits[i as usize]
        } else {
            0
        }
    }

    /// Renders `self` onto the end of `out`.
    /// `self` is displayed to the number of digits indicated by its dscale.
    pub fn write(&self, out: &mut String)
        ensures
            final(out)@ == old(out)@ + format_spec(*self),
    {
        proof {
            use_type_invariant(self);
            reveal_strlit("NaN");
            reveal_strlit("0");
            reveal_strlit("-");
            reveal_strlit(".");
        }
        if self.is_nan() {
            out.append("NaN");
            proof {
                assert(final(out)@ =~= old(out)@ + format_spec(*self));
            }
            return ;
        }
        if self.is_zero() {
            out.append("0");
            proof {
                assert(final(out)@ =~= old(out)@ + format_spec(*self));
            }
            return ;
        }

        let ghost sgn: Seq<char> = if self.spec_sign() is Negative {
            seq!['-']
        } else {
            Seq::empty()
        };

        // Output a dash for negative values.
        if self.is_sign_negative() {
            out.append("-");
        }
        proof {
            assert(out@ =~= old(out)@ + sgn);
        }

        let ghost ip: Seq<char> = if self.spec_weight() < 0 {
            seq!['0']
        } else {
            dec_rep(group_at(*self, 0)) + int_groups(*self, 1)
        };

        // Output all digits before the decimal point.
        let weight: i32 = self.weight as i32;
        if weight < 0 {
            out.append("0");
            proof {
                assert(out@ =~= old(out)@ + sgn + ip);
            }
        } else {
            let g0 = self.group(0);
            push_uint(out, g0);
            let mut d: i32 = 1;
            proof {
                assert(out@ + int_groups(*self, 1) =~= old(out)@ + sgn + (dec_rep(
                    group_at(*self, 0),
                ) + int_groups(*self, 1)));
            }
            while d <= weight
                invariant
                    1 <= d <= weight + 1,
                    weight == self.spec_weight(),
                    weight >= 0,
                    self.wf(),
                    out@ + int_groups(*self, d as int) == old(out)@ + sgn + ip,
                decreases weight + 1 - d,
            {
                let g = self.group(d);
                push_padded(out, g, 9);
                proof {
                    assert(out@ + int_groups(*self, d as int + 1) =~= old(out)@ + sgn + ip);
                }
                d += 1;
            }
            proof {
                assert(int_groups(*self, d as int) =~= Seq::<char>::empty());
                assert(out@ =~= old(out)@ + sgn + ip);
            }
        }

        // If requested, output a decimal point and all the digits that
        // follow it.
        if self.dscale > 0 {
            out.append(".");
            let dscale: usize = self.dscale as usize;
            let mut scale: usize = 0;
            proof {
                assert(out@ =~= old(out)@ + sgn + ip + seq!['.']);
                assert(out@ + frac_groups(*self, 0) =~= old(out)@ + sgn + ip + seq!['.']
                    + frac_groups(*self, 0));
            }
            while scale < dscale
                invariant
                    0 <= scale <= dscale + 8,
                    scale % 9 == 0,
                    dscale == self.spec_scale(),
                    dscale >= 1,
                    self.wf(),
                    out@ + frac_groups(*self, scale as int) == old(out)@ + sgn + ip + seq!['.']
                        + frac_groups(*self, 0),
                decreases dscale + 8 - scale,
            {
                let gi: i32 = self.weight as i32 + 1 + (scale / 9) as i32;
                let g = self.group(gi);
                proof {
                    frac_step(*self, scale as int);
                }
                if scale + 9 <= dscale {
                    push_padded(out, g, 9);
                    proof {
                        assert(out@ + frac_groups(*self, scale as int + 9) =~= old(out)@ + sgn
                            + ip + seq!['.'] + frac_groups(*self, 0));
                    }
                } else {
                    let width = dscale - scale;
                    let g2 = g / ten_pow_u32(9 - width);
                    push_padded(out, g2, width);
                    proof {
                        assert(frac_groups(*self, scale as int + 9) =~= Seq::<char>::empty());
                        assert(out@ + frac_groups(*self, scale as int + 9) =~= old(out)@ + sgn
                            + ip + seq!['.'] + frac_groups(*self, 0));
                    }
                }
                scale += 9;
            }
            proof {
                assert(frac_groups(*self, scale as int) =~= Seq::<char>::empty());
                assert(out@ =~= old(out)@ + format_spec(*self));
            }
        } else {
            proof {
                assert(out@ =~= old(out)@ + format_spec(*self));
            }
        }
    }

    /// Convert `self` to its canonical text representation.
    pub fn to_string(&self) -> (r: String)
        ensures
            r@ == format_spec(*self),
    {
        let mut s = String::new();
        self.write(&mut s);
        proof {
            assert(s@ =~= format_spec(*self));
        }
        s
    }
}

/// Facts about one step of the fractional rendering loop.
proof fn frac_step(d: Decimal, scale: int)
    requires
        0 <= scale < d.spec_scale(),
        scale % 9 == 0,
    ensures
        scale + 9 <= d.spec_scale() ==> frac_groups(d, scale) == pad_rep(
            group_at(d, d.spec_weight() + 1 + scale / 9),
            9,
        ) + frac_groups(d, scale + 9),
        scale + 9 > d.spec_scale() ==> frac_groups(d, scale) == pad_rep(
            group_at(d, d.spec_weight() + 1 + scale / 9) / ten_pow(
                (9 - (d.spec_scale() - scale)) as nat,
            ),
            (d.spec_scale() - scale) as nat,
        ),
{
}

/// One of the ten ASCII digit characters.
pub open spec fn is_digit_char(c: char) -> bool {
    c == '0' || c == '1' || c == '2' || c == '3' || c == '4' || c == '5' || c == '6' || c == '7'
        || c == '8' || c == '9'
}

/// Every zero-padded rendering consists of digit characters.
proof fn lemma_pad_rep_digits(n: int, width: nat)
    ensures
        forall|j: int| 0 <= j < width ==> is_digit_char(#[trigger] pad_rep(n, width)[j]),
{
}

/// The fractional rendering from a nine-aligned position has exactly the
/// remaining display digits, all of them digit characters.
proof fn lemma_frac_groups_len(d: Decimal, scale: int)
    requires
        0 <= scale <= d.spec_scale(),
        scale % 9 == 0,
    ensures
        frac_groups(d, scale).len() == d.spec_scale() - scale,
        forall|j: int|
            0 <= j < frac_groups(d, scale).len() ==> is_digit_char(
                #[trigger] frac_groups(d, scale)[j],
            ),
    decreases d.spec_scale() - scale,
{
    if scale < d.spec_scale() {
        let g = group_at(d, d.spec_weight() + 1 + scale / 9);
        if scale + 9 <= d.spec_scale() {
            lemma_frac_groups_len(d, scale + 9);
            lemma_pad_rep_digits(g, 9);
        } else {
            lemma_pad_rep_digits(
                g / ten_pow((9 - (d.spec_scale() - scale)) as nat),
                (d.spec_scale() - scale) as nat,
            );
        }
    }
}

/// A nonzero value with a positive display scale renders with a decimal
/// point followed by exactly `dscale` digit characters: the display scale
/// alone decides how many fractional digits appear.
pub proof fn lemma_format_exact_scale(d: Decimal)
    requires
        !(d.model().sign is NaN),
        d.model().groups.len() > 0,
        d.model().dscale > 0,
    ensures
        format_spec(d).len() > d.model().dscale,
        format_spec(d)[format_spec(d).len() - d.model().dscale - 1] == '.',
        forall|j: int|
            format_spec(d).len() - d.model().dscale <= j < format_spec(d).len()
                ==> is_digit_char(#[trigger] format_spec(d)[j]),
{
    lemma_frac_groups_len(d, 0);
    let cs = format_spec(d);
    let ds = d.model().dscale;
    let fr = frac_groups(d, 0);
    assert(cs[cs.len() - ds - 1] == '.');
    assert forall|j: int| cs.len() - ds <= j < cs.len() implies is_digit_char(
        #[trigger] cs[j],
    ) by {
        assert(cs[j] == fr[j - (cs.len() - ds)]);
    }
}

} // verus!

