//! Double-precision numbers, computed with integers.

use std::cmp::Ordering;
use vstd::arithmetic::power2::{
    lemma2_to64, lemma2_to64_rest, lemma_pow2_adds, lemma_pow2_pos,
    lemma_pow2_strictly_increases, lemma_pow2_unfold, pow2,
};
use vstd::prelude::*;
use vstd::std_specs::cmp::{PartialEqSpecImpl, PartialOrdSpecImpl};

use crate::rounding::{
    complement, counted, has_53_bits, lemma_counted_positive, lemma_near_one, lemma_nearest_scale,
    lemma_rounded_at, lemma_rounded_scale, lemma_zero, nearest, one, quotient, rounded, shifted,
};

verus! {

/// A double-precision number, held as its IEEE 754 encoding: from the top one
/// bit for the sign, eleven for the exponent and fifty-two for the fraction.
#[derive(Debug, Clone, Copy)]
pub struct Double {
    /// The encoding.
    pub bits: u64,
}

/// The absolute value that an encoding without its sign stands for, in units of
/// 2^-1074. Infinity counts as the power of two above all finite numbers.
pub open spec fn magnitude(bits: nat) -> nat {
    let (e, f) = (bits / 0x10_0000_0000_0000, bits % 0x10_0000_0000_0000);
    if e == 0 {
        f
    } else {
        (0x10_0000_0000_0000 + f) * pow2((e - 1) as nat)
    }
}

/// A number is modelled by its value, in units of 2^-1074.
impl View for Double {
    type V = int;

    open spec fn view(&self) -> int {
        if self.bits < 0x8000_0000_0000_0000 {
            magnitude(self.bits as nat) as int
        } else {
            -magnitude((self.bits - 0x8000_0000_0000_0000) as nat)
        }
    }
}

/// The smallest encodings stand for so many units, and a step of the exponent
/// doubles a number.
pub proof fn encodings_count_and_double(bits: nat)
    ensures
        bits <= 0x20_0000_0000_0000 ==> magnitude(bits) == bits,
        bits >= 0x10_0000_0000_0000 ==> magnitude(bits + 0x10_0000_0000_0000) == 2 * magnitude(
            bits,
        ),
{
    let (e, f) = (bits / 0x10_0000_0000_0000, bits % 0x10_0000_0000_0000);
    lemma2_to64();
    assert((0x10_0000_0000_0000 + f) * 1 == 0x10_0000_0000_0000 + f);
    if e > 0 {
        let p = pow2((e - 1) as nat);
        lemma_pow2_unfold(e);
        if bits == 0x20_0000_0000_0000 {
            assert(e == 2 && f == 0 && p == 2);
            assert(0x10_0000_0000_0000 * p == 0x20_0000_0000_0000);
        }
        assert((0x10_0000_0000_0000 + f) * (2 * p) == 2 * ((0x10_0000_0000_0000 + f) * p))
            by (nonlinear_arith);
        assert((bits + 0x10_0000_0000_0000) / 0x10_0000_0000_0000 == e + 1);
        assert((bits + 0x10_0000_0000_0000) % 0x10_0000_0000_0000 == f);
    }
}

/// The sign bit turns a number into its opposite.
pub proof fn sign_negates(x: Double, y: Double)
    requires
        x.bits < 0x8000_0000_0000_0000,
        y.bits == x.bits + 0x8000_0000_0000_0000,
    ensures
        x@ == magnitude(x.bits as nat),
        y@ == -x@,
        x.is_nan() == y.is_nan(),
        x.is_nan() <==> x.bits > 0x7ff0_0000_0000_0000,
        x.is_plain() <==> x.bits < 0x7ff0_0000_0000_0000,
        !y.is_plain(),
{
}

/// A greater encoding stands for a greater number.
pub proof fn lemma_magnitude_monotone(a: nat, b: nat)
    requires
        a < b,
    ensures
        magnitude(a) < magnitude(b),
{
    let (e, f) = (a / 0x10_0000_0000_0000, a % 0x10_0000_0000_0000);
    let (g, h) = (b / 0x10_0000_0000_0000, b % 0x10_0000_0000_0000);
    lemma2_to64();
    if e == g {
        if e > 0 {
            let p = pow2((e - 1) as nat);
            lemma_pow2_pos((e - 1) as nat);
            assert((0x10_0000_0000_0000 + f) * p < (0x10_0000_0000_0000 + h) * p)
                by (nonlinear_arith)
                requires
                    f < h,
                    p > 0,
            ;
        }
    } else {
        let p = pow2((g - 1) as nat);
        lemma_pow2_pos((g - 1) as nat);
        assert((0x10_0000_0000_0000 + h) * p >= 0x10_0000_0000_0000 * p) by (nonlinear_arith);
        if e > 0 {
            let o = pow2((e - 1) as nat);
            lemma_pow2_pos((e - 1) as nat);
            lemma_pow2_unfold(e);
            if e < g - 1 {
                lemma_pow2_strictly_increases(e, (g - 1) as nat);
            }
            assert((0x10_0000_0000_0000 + f) * o < 0x20_0000_0000_0000 * o) by (nonlinear_arith)
                requires
                    f < 0x10_0000_0000_0000,
                    o > 0,
            ;
        }
    }
}

/// The integer nearest to a quotient that has 53 bits.
fn nearest_integer(n: u128, d: u128) -> (m: u64)
    requires
        0 < d < 0x100_0000_0000_0000_0000_0000_0000,
        0x10_0000_0000_0000 * d <= n < 0x20_0000_0000_0000 * d,
    ensures
        m == nearest(n as nat, d as nat),
        0x10_0000_0000_0000 <= m <= 0x20_0000_0000_0000,
{
    let (q, r): (u128, u128) = (n / d, n % d);
    assert(0x10_0000_0000_0000 <= q < 0x20_0000_0000_0000) by (nonlinear_arith)
        requires
            q == n / d,
            d > 0,
            0x10_0000_0000_0000 * d <= n < 0x20_0000_0000_0000 * d,
    ;
    if 2 * r < d || (2 * r == d && q % 2 == 0) {
        q as u64
    } else {
        (q + 1) as u64
    }
}

/// Rounds `n / d`, counted in units of `2^k` times 2^-1074: the significand, and
/// the power of two that it counts.
#[verifier::loop_isolation(false)]
fn round(n: u128, d: u128, k: u64) -> (parts: (u64, u64))
    requires
        0 < n < 0x100_0000_0000_0000_0000_0000_0000_0000,
        0 < d <= 0x1_0000_0000_0000_0000,
        200 <= k <= 1800,
    ensures
        parts.0 * pow2(parts.1 as nat) == rounded((n * pow2(k as nat)) as nat, d as nat),
        0x10_0000_0000_0000 <= parts.0 <= 0x20_0000_0000_0000,
        k - 125 <= parts.1 <= k + 125,
{
    let ghost goal = rounded((n * pow2(k as nat)) as nat, d as nat);
    let (mut a, mut b, mut j): (u128, u128, u64) = (n, d, k);
    let ghost mut steps: nat = 0;
    proof {
        lemma2_to64();
        lemma2_to64_rest();
    }
    while a < 0x10_0000_0000_0000 * b
        invariant
            0 < a,
            b == d,
            a < 0x100_0000_0000_0000_0000_0000_0000_0000,
            j == k - steps,
            steps <= 120,
            a >= pow2(steps),
            rounded((a * pow2(j as nat)) as nat, b as nat) == goal,
        decreases 120 - steps,
    {
        proof {
            let p = pow2((j - 1) as nat);
            lemma_pow2_unfold(j as nat);
            assert(a * pow2(j as nat) == (2 * a) * p) by (nonlinear_arith)
                requires
                    pow2(j as nat) == 2 * p,
            ;
            lemma_pow2_unfold(steps + 1);
            if steps >= 119 {
                lemma_pow2_adds(60, 59);
                assert(pow2(119) == 0x80_0000_0000_0000_0000_0000_0000_0000);
                if steps > 119 {
                    lemma_pow2_strictly_increases(119, steps);
                }
            }
            steps = steps + 1;
        }
        a = 2 * a;
        j = j - 1;
    }
    proof {
        steps = 0;
    }
    let ghost start = j;
    while a >= 0x20_0000_0000_0000 * b
        invariant
            0 < b <= 0x100_0000_0000_0000_0000,
            a >= 0x10_0000_0000_0000 * b,
            j == start + steps,
            steps <= 72,
            b >= pow2(steps),
            rounded((a * pow2(j as nat)) as nat, b as nat) == goal,
        decreases a - b,
    {
        proof {
            let x = (a * pow2(j as nat)) as nat;
            lemma_pow2_unfold((j + 1) as nat);
            lemma_rounded_scale(x, b as nat, 2);
            assert(x * 2 == a * pow2((j + 1) as nat)) by (nonlinear_arith)
                requires
                    x == a * pow2(j as nat),
                    pow2((j + 1) as nat) == 2 * pow2(j as nat),
            ;
            lemma_pow2_unfold(steps + 1);
            lemma_pow2_adds(64, 8);
            steps = steps + 1;
        }
        b = 2 * b;
        j = j + 1;
    }
    proof {
        let p = pow2(j as nat);
        lemma_pow2_pos(j as nat);
        assert(0x10_0000_0000_0000 * (b * p) <= a * p < 0x20_0000_0000_0000 * (b * p))
            by (nonlinear_arith)
            requires
                0x10_0000_0000_0000 * b <= a < 0x20_0000_0000_0000 * b,
                p > 0,
        ;
        lemma_rounded_at((a * p) as nat, b as nat, j as nat);
        lemma_nearest_scale(a as nat, b as nat, p);
    }
    (nearest_integer(a, b), j)
}

impl Double {
    /// The encoding stands for no number.
    pub open spec fn is_nan(self) -> bool {
        self.bits % 0x8000_0000_0000_0000 > 0x7ff0_0000_0000_0000
    }

    /// The number is finite, and it bears no minus sign.
    pub open spec fn is_plain(self) -> bool {
        self.bits < 0x7ff0_0000_0000_0000
    }

    /// `numer / denom`, both as double-precision numbers.
    pub fn new(numer: u64, denom: u64) -> (ratio: Double)
        requires
            denom > 0,
        ensures
            ratio.is_plain(),
            ratio@ == quotient(numer as nat, denom as nat),
    {
        if numer == 0 {
            proof {
                lemma_counted_positive(denom as nat);
                lemma_zero();
            }
            return Double { bits: 0 };
        }
        let (m, j): (u64, u64) = round(numer as u128, 1, 1074);
        let (n, k): (u64, u64) = round(denom as u128, 1, 1074);
        let (p, l): (u64, u64) = round(m as u128, n as u128, 1074 + j - k);
        proof {
            let (x, y) = (counted(numer as nat), counted(denom as nat));
            let (s, t) = (pow2((1074 + j - k) as nat), pow2(k as nat));
            lemma_pow2_pos(k as nat);
            lemma_pow2_adds((1074 + j - k) as nat, k as nat);
            lemma_pow2_adds(1074, j as nat);
            assert(s * t == one() * pow2(j as nat));
            assert((m * s) * t == x * one()) by (nonlinear_arith)
                requires
                    x == m * pow2(j as nat),
                    s * t == one() * pow2(j as nat),
            ;
            lemma_rounded_scale((m * s) as nat, n as nat, t);
            assert(rounded((m * s) as nat, n as nat) == rounded(x * one(), y));
        }
        Self::encode(p, l)
    }

    /// The number `m * 2^k` units.
    fn encode(m: u64, k: u64) -> (number: Double)
        requires
            0x10_0000_0000_0000 <= m <= 0x20_0000_0000_0000,
            k < 2045,
        ensures
            number.is_plain(),
            number@ == m * pow2(k as nat),
    {
        let bits: u64 = k * 0x10_0000_0000_0000 + m;
        proof {
            let (e, f) = (
                bits as nat / 0x10_0000_0000_0000,
                bits as nat % 0x10_0000_0000_0000,
            );
            if m < 0x20_0000_0000_0000 {
                assert(e == k + 1 && f == m - 0x10_0000_0000_0000);
            } else {
                assert(e == k + 2 && f == 0);
                lemma_pow2_unfold((k + 1) as nat);
                assert(m * pow2(k as nat) == 0x20_0000_0000_0000 * pow2(k as nat));
                assert(magnitude(bits as nat) == 0x10_0000_0000_0000 * pow2((k + 1) as nat));
            }
        }
        Double { bits }
    }

    /// The significand of a plain number, and the power of two that it counts.
    fn parts(self) -> (parts: (u64, u64))
        requires
            self.is_plain(),
        ensures
            self@ == parts.0 * pow2(parts.1 as nat),
            parts.0 < 0x20_0000_0000_0000,
            parts.1 < 2046,
    {
        let (e, f): (u64, u64) = (
            self.bits / 0x10_0000_0000_0000,
            self.bits % 0x10_0000_0000_0000,
        );
        proof {
            lemma2_to64();
            assert(f * 1 == f);
        }
        if e == 0 {
            (f, 0)
        } else {
            (0x10_0000_0000_0000 + f, e - 1)
        }
    }

    /// One minus this number.
    #[verifier::loop_isolation(false)]
    pub fn complement(self) -> (difference: Double)
        requires
            self.is_plain(),
            self@ <= one(),
        ensures
            difference.is_plain(),
            difference@ == complement(self@ as nat),
    {
        let (m, k): (u64, u64) = self.parts();
        if m == 0 || k < 955 {
            let whole = Self::encode(0x10_0000_0000_0000, 1022);
            proof {
                lemma_pow2_adds(52, 1022);
                lemma2_to64();
                lemma2_to64_rest();
                if m == 0 {
                    assert(0 * pow2(k as nat) == 0);
                } else {
                    lemma_pow2_adds(53, k as nat);
                    assert(m * pow2(k as nat) <= pow2(53) * pow2(k as nat)) by (nonlinear_arith)
                        requires
                            m <= pow2(53),
                    ;
                    lemma_pow2_strictly_increases((53 + k) as nat, 1019);
                }
                lemma_pow2_pos(1019);
                lemma_near_one(self@ as nat);
            }
            return whole;
        }
        proof {
            lemma_pow2_pos(k as nat);
            assert(m * pow2(k as nat) >= pow2(k as nat)) by (nonlinear_arith)
                requires
                    m >= 1,
            ;
            if k > 1074 {
                lemma_pow2_strictly_increases(1074, k as nat);
            }
        }
        let mut power: u128 = 1;
        let mut i: u64 = k;
        proof {
            lemma2_to64();
        }
        while i < 1074
            invariant
                k <= i <= 1074,
                power == pow2((i - k) as nat),
                power <= 0x80_0000_0000_0000_0000_0000_0000_0000,
            decreases 1074 - i,
        {
            proof {
                lemma_pow2_unfold((i + 1 - k) as nat);
                lemma_pow2_adds(60, 59);
                lemma2_to64_rest();
                if i + 1 - k < 119 {
                    lemma_pow2_strictly_increases((i + 1 - k) as nat, 119);
                }
            }
            power = 2 * power;
            i = i + 1;
        }
        proof {
            lemma_pow2_adds((1074 - k) as nat, k as nat);
            assert(m <= power) by (nonlinear_arith)
                requires
                    m * pow2(k as nat) <= power * pow2(k as nat),
                    pow2(k as nat) > 0,
            ;
            assert((power - m) * pow2(k as nat) == one() - self@) by (nonlinear_arith)
                requires
                    power * pow2(k as nat) == one(),
                    self@ == m * pow2(k as nat),
            ;
        }
        let rest: u128 = power - m as u128;
        if rest == 0 {
            proof {
                lemma_zero();
            }
            return Double { bits: 0 };
        }
        let (n, j): (u64, u64) = round(rest, 1, k);
        Self::encode(n, j)
    }

    /// Where a number stands among all numbers.
    fn place(self) -> (place: i64)
        requires
            !self.is_nan(),
        ensures
            place == if self.bits < 0x8000_0000_0000_0000 {
                self.bits as int
            } else {
                0x8000_0000_0000_0000 - self.bits
            },
    {
        if self.bits < 0x8000_0000_0000_0000 {
            self.bits as i64
        } else {
            -((self.bits - 0x8000_0000_0000_0000) as i64)
        }
    }

    /// Whether this is no number.
    fn lacks_value(self) -> (nan: bool)
        ensures
            nan == self.is_nan(),
    {
        self.bits % 0x8000_0000_0000_0000 > 0x7ff0_0000_0000_0000
    }

    /// Whether both are numbers, and this one is less than or equal to the other.
    pub fn is_at_most(&self, other: &Double) -> (b: bool)
        ensures
            b == (!self.is_nan() && !other.is_nan() && self@ <= other@),
    {
        if self.lacks_value() || other.lacks_value() {
            return false;
        }
        proof {
            lemma_places_order(*self, *other);
        }
        self.place() <= other.place()
    }
}

/// A plain number has at most 53 significant bits.
pub proof fn doubles_have_53_bits(x: Double)
    requires
        x.is_plain(),
    ensures
        x@ >= 0,
        has_53_bits(x@ as nat),
{
    let (e, f) = (x.bits as nat / 0x10_0000_0000_0000, x.bits as nat % 0x10_0000_0000_0000);
    lemma2_to64();
    if e == 0 {
        assert(x@ == shifted(f, 0));
    } else {
        assert(x@ == shifted(0x10_0000_0000_0000 + f, (e - 1) as nat));
    }
}

/// Numbers are ordered as their places.
proof fn lemma_places_order(x: Double, y: Double)
    requires
        !x.is_nan(),
        !y.is_nan(),
    ensures
        ({
            let sign: int = 0x8000_0000_0000_0000;
            let i = if x.bits < sign { x.bits as int } else { sign - x.bits };
            let j = if y.bits < sign { y.bits as int } else { sign - y.bits };
            &&& (i < j) == (x@ < y@)
            &&& (i == j) == (x@ == y@)
        }),
{
    let sign: int = 0x8000_0000_0000_0000;
    let a = (if x.bits < sign { x.bits as int } else { x.bits - sign }) as nat;
    let b = (if y.bits < sign { y.bits as int } else { y.bits - sign }) as nat;
    if a < b {
        lemma_magnitude_monotone(a, b);
    } else if b < a {
        lemma_magnitude_monotone(b, a);
    }
    assert(magnitude(0) == 0);
    if a > 0 {
        lemma_magnitude_monotone(0, a);
    }
    if b > 0 {
        lemma_magnitude_monotone(0, b);
    }
}

impl PartialEq for Double {
    fn eq(&self, other: &Double) -> (equal: bool) {
        if self.lacks_value() || other.lacks_value() {
            return false;
        }
        proof {
            lemma_places_order(*self, *other);
        }
        self.place() == other.place()
    }
}

impl PartialEqSpecImpl for Double {
    open spec fn obeys_eq_spec() -> bool {
        true
    }

    open spec fn eq_spec(&self, other: &Double) -> bool {
        !self.is_nan() && !other.is_nan() && self@ == other@
    }
}

impl PartialOrd for Double {
    fn partial_cmp(&self, other: &Double) -> (ordering: Option<Ordering>) {
        if self.lacks_value() || other.lacks_value() {
            return None;
        }
        proof {
            lemma_places_order(*self, *other);
        }
        let (i, j): (i64, i64) = (self.place(), other.place());
        if i < j {
            Some(Ordering::Less)
        } else if i == j {
            Some(Ordering::Equal)
        } else {
            Some(Ordering::Greater)
        }
    }
}

impl PartialOrdSpecImpl for Double {
    open spec fn obeys_partial_cmp_spec() -> bool {
        true
    }

    open spec fn partial_cmp_spec(&self, other: &Double) -> Option<Ordering> {
        if self.is_nan() || other.is_nan() {
            None
        } else if self@ < other@ {
            Some(Ordering::Less)
        } else if self@ == other@ {
            Some(Ordering::Equal)
        } else {
            Some(Ordering::Greater)
        }
    }
}

} // verus!
