//! Rounding to double precision.
//!
//! Every double-precision number is a whole multiple of the smallest positive
//! one, 2^-1074. Numbers are counted in that unit here, so that the values of
//! doubles are integers and compare as such. An operation on doubles gives the
//! exact result, rounded to 53 significant bits. In hexadecimal, 2^52 is
//! `0x10_0000_0000_0000`, and 2^53 twice that.

use vstd::arithmetic::div_mod::{lemma_fundamental_div_mod, lemma_fundamental_div_mod_converse};
use vstd::arithmetic::power2::{
    lemma2_to64, lemma2_to64_rest, lemma_pow2_adds, lemma_pow2_pos, lemma_pow2_unfold, pow2,
};
use vstd::prelude::*;

verus! {

/// The integer nearest to `n / d`; of two that are equally near, the even one.
pub open spec fn nearest(n: nat, d: nat) -> nat {
    let (q, r) = (n / d, n % d);
    if 2 * r < d || (2 * r == d && q % 2 == 0) {
        q
    } else {
        q + 1
    }
}

/// `n / d` rounded to 53 significant bits. What is below 2^53 is rounded to the
/// nearest integer; what is not is halved, rounded and doubled.
pub open spec fn rounded(n: nat, d: nat) -> nat
    decreases n - d,
{
    if d == 0 || n < 0x20_0000_0000_0000 * d {
        nearest(n, d)
    } else {
        2 * rounded(n, 2 * d)
    }
}

/// The number one.
pub open spec fn one() -> nat {
    pow2(1074)
}

/// A whole number as a double.
pub open spec fn counted(a: nat) -> nat {
    rounded(a * one(), 1)
}

/// The quotient of two doubles.
pub open spec fn divided(x: nat, y: nat) -> nat {
    rounded(x * one(), y)
}

/// One whole number over another: both as doubles, and divided as such.
pub open spec fn quotient(a: nat, b: nat) -> nat {
    divided(counted(a), counted(b))
}

/// One minus a double that is not above one.
pub open spec fn complement(x: nat) -> nat {
    rounded((one() - x) as nat, 1)
}

/// So many tenths, to double precision.
pub open spec fn tenths(n: nat) -> nat {
    rounded(n * one(), 10)
}

/// A factor that stands above and below the line changes no nearest integer.
pub(crate) proof fn lemma_nearest_scale(n: nat, d: nat, c: nat)
    requires
        d > 0,
        c > 0,
    ensures
        nearest(n * c, d * c) == nearest(n, d),
{
    let (q, r) = (n / d, n % d);
    lemma_fundamental_div_mod(n as int, d as int);
    assert(n * c == q * (d * c) + r * c) by (nonlinear_arith)
        requires
            n == d * q + r,
    ;
    assert(0 <= r * c < d * c) by (nonlinear_arith)
        requires
            0 <= r < d,
            c > 0,
    ;
    lemma_fundamental_div_mod_converse((n * c) as int, (d * c) as int, q as int, (r * c) as int);
    assert((2 * (r * c) < d * c) == (2 * r < d)) by (nonlinear_arith)
        requires
            c > 0,
    ;
    assert((2 * (r * c) == d * c) == (2 * r == d)) by (nonlinear_arith)
        requires
            c > 0,
    ;
}

/// A factor that stands above and below the line changes nothing.
pub proof fn lemma_rounded_scale(n: nat, d: nat, c: nat)
    requires
        d > 0,
        c > 0,
    ensures
        rounded(n * c, d * c) == rounded(n, d),
    decreases n - d,
{
    assert(d * c > 0) by (nonlinear_arith)
        requires
            d > 0,
            c > 0,
    ;
    assert((n * c < 0x20_0000_0000_0000 * (d * c)) == (n < 0x20_0000_0000_0000 * d)) by (nonlinear_arith)
        requires
            c > 0,
    ;
    if n < 0x20_0000_0000_0000 * d {
        lemma_nearest_scale(n, d, c);
    } else {
        lemma_rounded_scale(n, 2 * d, c);
        assert((2 * d) * c == 2 * (d * c)) by (nonlinear_arith);
    }
}

/// A number with 53 bits before its last one at `2^k` is rounded there.
pub(crate) proof fn lemma_rounded_at(n: nat, d: nat, k: nat)
    requires
        d > 0,
        0x10_0000_0000_0000 * (d * pow2(k)) <= n < 0x20_0000_0000_0000 * (d * pow2(k)),
    ensures
        rounded(n, d) == nearest(n, d * pow2(k)) * pow2(k),
    decreases k,
{
    lemma2_to64();
    lemma_pow2_pos(k);
    if k == 0 {
        assert(d * 1 == d);
    } else {
        let p = pow2((k - 1) as nat);
        lemma_pow2_unfold(k);
        lemma_pow2_pos((k - 1) as nat);
        assert(d * pow2(k) == (2 * d) * p) by (nonlinear_arith)
            requires
                pow2(k) == 2 * p,
        ;
        assert(n >= 0x20_0000_0000_0000 * d) by (nonlinear_arith)
            requires
                0x10_0000_0000_0000 * ((2 * d) * p) <= n,
                p >= 1,
        ;
        lemma_rounded_at(n, 2 * d, (k - 1) as nat);
        let m = nearest(n, d * pow2(k));
        assert(2 * (m * p) == m * (2 * p)) by (nonlinear_arith);
    }
}

/// What has at most 53 bits stays as it is.
pub proof fn lemma_rounded_exact(m: nat, k: nat)
    requires
        m <= 0x20_0000_0000_0000,
    ensures
        rounded(m * pow2(k), 1) == m * pow2(k),
    decreases k,
{
    lemma2_to64();
    lemma_pow2_pos(k);
    if m * pow2(k) >= 0x20_0000_0000_0000 {
        if k == 0 {
            assert(m * pow2(0) == m);
            assert(rounded(m, 2) == nearest(m, 2));
        } else {
            let p = pow2((k - 1) as nat);
            lemma_pow2_unfold(k);
            assert(m * pow2(k) == (m * p) * 2) by (nonlinear_arith)
                requires
                    pow2(k) == 2 * p,
            ;
            lemma_rounded_scale(m * p, 1, 2);
            lemma_rounded_exact(m, (k - 1) as nat);
        }
    }
}

proof fn lemma_nearest_monotone(n1: nat, d1: nat, n2: nat, d2: nat)
    requires
        d1 > 0,
        d2 > 0,
        n1 * d2 <= n2 * d1,
    ensures
        nearest(n1, d1) <= nearest(n2, d2),
{
    let (q1, r1, q2, r2) = (n1 / d1, n1 % d1, n2 / d2, n2 % d2);
    lemma_fundamental_div_mod(n1 as int, d1 as int);
    lemma_fundamental_div_mod(n2 as int, d2 as int);
    assert(q1 <= q2) by (nonlinear_arith)
        requires
            n1 == d1 * q1 + r1,
            n2 == d2 * q2 + r2,
            0 <= r1,
            0 <= r2 < d2,
            d1 > 0,
            d2 > 0,
            n1 * d2 <= n2 * d1,
    {
        if q1 >= q2 + 1 {
            assert(d1 * d2 * q1 <= (d2 * q2 + r2) * d1);
            assert(d1 * d2 * (q2 + 1) <= d1 * d2 * q1);
            assert(r2 * d1 < d2 * d1);
        }
    }
    if q1 == q2 {
        assert(r1 * d2 <= r2 * d1) by (nonlinear_arith)
            requires
                n1 == d1 * q1 + r1,
                n2 == d2 * q1 + r2,
                n1 * d2 <= n2 * d1,
        ;
        assert(2 * r1 >= d1 ==> 2 * r2 >= d2) by (nonlinear_arith)
            requires
                r1 * d2 <= r2 * d1,
                d1 > 0,
                d2 > 0,
        ;
        assert(2 * r1 > d1 ==> 2 * r2 > d2) by (nonlinear_arith)
            requires
                r1 * d2 <= r2 * d1,
                d1 > 0,
                d2 > 0,
        ;
    }
}

/// What is not below 2^52 is not rounded to less.
proof fn lemma_rounded_large(n: nat, d: nat)
    requires
        d > 0,
        n >= 0x10_0000_0000_0000 * d,
    ensures
        rounded(n, d) >= 0x10_0000_0000_0000,
        n >= 0x20_0000_0000_0000 * d ==> rounded(n, d) >= 0x20_0000_0000_0000,
    decreases n - d,
{
    let half: nat = 0x10_0000_0000_0000;
    if n < 0x20_0000_0000_0000 * d {
        assert(half * d <= n * 1);
        lemma_nearest_monotone(half, 1, n, d);
    } else {
        lemma_rounded_large(n, 2 * d);
    }
}

/// Rounding keeps the order of what is rounded.
pub proof fn lemma_rounded_monotone(n1: nat, d1: nat, n2: nat, d2: nat)
    requires
        d1 > 0,
        d2 > 0,
        n1 * d2 <= n2 * d1,
    ensures
        rounded(n1, d1) <= rounded(n2, d2),
    decreases n1 - d1,
{
    if n1 < 0x20_0000_0000_0000 * d1 {
        if n2 < 0x20_0000_0000_0000 * d2 {
            lemma_nearest_monotone(n1, d1, n2, d2);
        } else {
            lemma_rounded_large(n2, d2);
            lemma_nearest_monotone(n1, d1, 0x20_0000_0000_0000, 1);
        }
    } else {
        assert(n2 >= 0x20_0000_0000_0000 * d2) by (nonlinear_arith)
            requires
                n1 >= 0x20_0000_0000_0000 * d1,
                n1 * d2 <= n2 * d1,
                d1 > 0,
                d2 > 0,
        {
            if n2 < 0x20_0000_0000_0000 * d2 {
                assert(n2 * d1 < 0x20_0000_0000_0000 * d2 * d1);
                assert(n1 * d2 >= 0x20_0000_0000_0000 * d1 * d2);
            }
        }
        assert(n1 * (2 * d2) <= n2 * (2 * d1)) by (nonlinear_arith)
            requires
                n1 * d2 <= n2 * d1,
        ;
        lemma_rounded_monotone(n1, 2 * d1, n2, 2 * d2);
    }
}

/// `m` at the `k`-th place.
pub open spec fn shifted(m: nat, k: nat) -> nat {
    m * pow2(k)
}

/// A number with at most 53 significant bits, which a double can stand for.
pub open spec fn has_53_bits(x: nat) -> bool {
    exists|m: nat, k: nat| m <= 0x20_0000_0000_0000 && x == #[trigger] shifted(m, k)
}

/// How far apart two numbers are.
pub open spec fn distance(x: int, y: int) -> int {
    if x <= y {
        y - x
    } else {
        x - y
    }
}

proof fn lemma_nearest_is_nearest(n: nat, d: nat, x: nat)
    requires
        d > 0,
    ensures
        distance((nearest(n, d) * d) as int, n as int) <= distance((x * d) as int, n as int),
{
    let (q, r) = (n / d, n % d);
    lemma_fundamental_div_mod(n as int, d as int);
    assert(q * d + r == n && (q + 1) * d == q * d + d) by (nonlinear_arith)
        requires
            n == d * q + r,
    ;
    assert(x <= q ==> x * d <= q * d) by (nonlinear_arith);
    assert(x > q ==> x * d >= (q + 1) * d) by (nonlinear_arith);
}

/// Rounding gives a number with at most 53 significant bits, and none of these is
/// nearer to `n / d`.
pub proof fn rounding_is_nearest(n: nat, d: nat, x: nat)
    requires
        d > 0,
        has_53_bits(x),
    ensures
        has_53_bits(rounded(n, d)),
        distance((rounded(n, d) * d) as int, n as int) <= distance((x * d) as int, n as int),
    decreases n - d,
{
    lemma2_to64();
    let result = rounded(n, d);
    if n < 0x20_0000_0000_0000 * d {
        lemma_nearest_is_nearest(n, d, x);
        lemma_nearest_monotone(n, d, 0x20_0000_0000_0000, 1);
        assert(result == shifted(result, 0));
    } else {
        let half: nat = 0x10_0000_0000_0000;
        assert(half == shifted(half, 0));
        rounding_is_nearest(n, 2 * d, half);
        let inner = rounded(n, 2 * d);
        let (m, k) = choose|m: nat, k: nat|
            m <= 0x20_0000_0000_0000 && inner == #[trigger] shifted(m, k);
        lemma_pow2_unfold(k + 1);
        assert(2 * inner == m * pow2(k + 1)) by (nonlinear_arith)
            requires
                inner == m * pow2(k),
                pow2(k + 1) == 2 * pow2(k),
        ;
        assert(result == shifted(m, k + 1));
        assert(inner * (2 * d) == result * d) by (nonlinear_arith)
            requires
                result == 2 * inner,
        ;
        if x > 0x20_0000_0000_0000 {
            let (i, j) = choose|i: nat, j: nat|
                i <= 0x20_0000_0000_0000 && x == #[trigger] shifted(i, j);
            assert(i * 1 == i);
            assert(j > 0);
            let y = i * pow2((j - 1) as nat);
            lemma_pow2_unfold(j);
            assert(x == 2 * y) by (nonlinear_arith)
                requires
                    x == i * pow2(j),
                    y == i * pow2((j - 1) as nat),
                    pow2(j) == 2 * pow2((j - 1) as nat),
            ;
            assert(y * (2 * d) == x * d) by (nonlinear_arith)
                requires
                    x == 2 * y,
            ;
            assert(y == shifted(i, (j - 1) as nat));
            rounding_is_nearest(n, 2 * d, y);
        } else {
            assert(x * d <= 0x20_0000_0000_0000 * d) by (nonlinear_arith)
                requires
                    x <= 0x20_0000_0000_0000,
            ;
        }
    }
}

/// Where another number with at most 53 significant bits is equally near, the
/// result has at most 52: ties go to the even significand.
pub proof fn ties_go_to_even(n: nat, d: nat, x: nat)
    requires
        d > 0,
        has_53_bits(x),
        x != rounded(n, d),
        distance((rounded(n, d) * d) as int, n as int) == distance((x * d) as int, n as int),
    ensures
        exists|m: nat, k: nat|
            m <= 0x10_0000_0000_0000 && rounded(n, d) == #[trigger] shifted(m, k),
    decreases n - d,
{
    lemma2_to64();
    let result = rounded(n, d);
    if n < 0x20_0000_0000_0000 * d {
        let (q, r) = (n / d, n % d);
        lemma_fundamental_div_mod(n as int, d as int);
        lemma_nearest_monotone(n, d, 0x20_0000_0000_0000, 1);
        assert(q * d + r == n && (q + 1) * d == q * d + d) by (nonlinear_arith)
            requires
                n == d * q + r,
        ;
        assert(x < q ==> x * d <= q * d - d) by (nonlinear_arith);
        assert(x > q + 1 ==> x * d >= (q + 1) * d + d) by (nonlinear_arith);
        assert(2 * r == d);
        assert(result == shifted(result / 2, 1));
    } else {
        let inner = rounded(n, 2 * d);
        assert(inner * (2 * d) == result * d) by (nonlinear_arith)
            requires
                result == 2 * inner,
        ;
        let half: nat = 0x10_0000_0000_0000;
        assert(half == shifted(half, 0));
        rounding_is_nearest(n, 2 * d, half);
        assert(x < 0x20_0000_0000_0000 ==> x * d < 0x20_0000_0000_0000 * d) by (nonlinear_arith)
            requires
                d > 0,
        ;
        assert(x >= 0x20_0000_0000_0000);
        let (i, j) = choose|i: nat, j: nat|
            i <= 0x20_0000_0000_0000 && x == #[trigger] shifted(i, j);
        assert(i * 1 == i);
        let y = if j == 0 {
            half
        } else {
            i * pow2((j - 1) as nat)
        };
        if j > 0 {
            lemma_pow2_unfold(j);
            assert(y == shifted(i, (j - 1) as nat));
            assert(x == 2 * y) by (nonlinear_arith)
                requires
                    x == i * pow2(j),
                    y == i * pow2((j - 1) as nat),
                    pow2(j) == 2 * pow2((j - 1) as nat),
            ;
        }
        assert(y * (2 * d) == x * d) by (nonlinear_arith)
            requires
                x == 2 * y,
        ;
        ties_go_to_even(n, 2 * d, y);
        let (m, k) = choose|m: nat, k: nat|
            m <= 0x10_0000_0000_0000 && inner == #[trigger] shifted(m, k);
        lemma_pow2_unfold(k + 1);
        assert(2 * inner == m * pow2(k + 1)) by (nonlinear_arith)
            requires
                inner == m * pow2(k),
                pow2(k + 1) == 2 * pow2(k),
        ;
        assert(result == shifted(m, k + 1));
    }
}

/// No double is nearer to a whole number than its count, and up to 2^53 the count
/// is the number itself.
pub proof fn counts_are_nearest(a: nat, x: nat)
    requires
        has_53_bits(x),
    ensures
        has_53_bits(counted(a)),
        distance(counted(a) as int, (a * pow2(1074)) as int) <= distance(
            x as int,
            (a * pow2(1074)) as int,
        ),
        a <= 0x20_0000_0000_0000 ==> counted(a) == a * pow2(1074),
        counted(a) == rounded(a * pow2(1074), 1),
{
    rounding_is_nearest(a * one(), 1, x);
    counts_keep_order(a, a);
}

/// No double is nearer to the quotient of two counts than theirs.
pub proof fn quotients_are_nearest(a: nat, b: nat, x: nat)
    requires
        b > 0,
        has_53_bits(x),
    ensures
        has_53_bits(quotient(a, b)),
        distance(
            (quotient(a, b) * counted(b)) as int,
            (counted(a) * pow2(1074)) as int,
        ) <= distance((x * counted(b)) as int, (counted(a) * pow2(1074)) as int),
        a <= 0x20_0000_0000_0000 && b <= 0x20_0000_0000_0000 ==> distance(
            (quotient(a, b) * b) as int,
            (a * pow2(1074)) as int,
        ) <= distance((x * b) as int, (a * pow2(1074)) as int),
        quotient(a, b) == rounded(counted(a) * pow2(1074), counted(b)),
{
    lemma_counted_positive(b);
    rounding_is_nearest(counted(a) * one(), counted(b), x);
    if a <= 0x20_0000_0000_0000 && b <= 0x20_0000_0000_0000 {
        quotients_of_exact_counts(a, b);
        rounding_is_nearest(a * one(), b, x);
    }
}

/// No double is nearer to what is left of one.
pub proof fn complements_are_nearest(y: nat, x: nat)
    requires
        y <= pow2(1074),
        has_53_bits(x),
    ensures
        has_53_bits(complement(y)),
        distance(complement(y) as int, pow2(1074) - y) <= distance(x as int, pow2(1074) - y),
        complement(y) == rounded((pow2(1074) - y) as nat, 1),
{
    rounding_is_nearest((one() - y) as nat, 1, x);
}

pub(crate) proof fn lemma_zero()
    ensures
        forall|d: nat| d > 0 ==> #[trigger] rounded(0, d) == 0,
        counted(0) == 0,
        forall|b: nat| counted(b) > 0 ==> #[trigger] quotient(0, b) == 0,
{
    assert forall|d: nat| d > 0 implies #[trigger] rounded(0, d) == 0 by {
        lemma_fundamental_div_mod_converse(0, d as int, 0, 0);
    }
    assert(0 * one() == 0);
}

/// Every count from one on is at least one.
pub(crate) proof fn lemma_counted_positive(a: nat)
    requires
        a > 0,
    ensures
        counted(a) >= one() > 0,
{
    lemma_pow2_pos(1074);
    lemma_rounded_exact(1, 1074);
    assert(one() * 1 <= (a * one()) * 1) by (nonlinear_arith)
        requires
            a >= 1,
    ;
    lemma_rounded_monotone(one(), 1, a * one(), 1);
}

/// Taking next to nothing from one leaves one.
pub(crate) proof fn lemma_near_one(x: nat)
    requires
        x <= pow2(1019),
    ensures
        complement(x) == one(),
{
    let p = pow2(1021);
    lemma2_to64();
    lemma2_to64_rest();
    lemma_pow2_adds(53, 1021);
    lemma_pow2_unfold(1020);
    lemma_pow2_unfold(1021);
    lemma_pow2_pos(1019);
    if x == 0 {
        lemma_rounded_exact(1, 1074);
    } else {
        let n = (one() - x) as nat;
        assert(1 * p == p);
        lemma_rounded_at(n, 1, 1021);
        lemma_fundamental_div_mod_converse(n as int, p as int, 0x1f_ffff_ffff_ffff, p - x);
    }
}

/// Counting keeps the order, and up to 2^53 it is exact.
pub proof fn counts_keep_order(a: nat, b: nat)
    requires
        a <= b,
    ensures
        counted(a) <= counted(b),
        b <= 0x20_0000_0000_0000 ==> counted(b) == b * one(),
{
    assert((a * one()) * 1 <= (b * one()) * 1) by (nonlinear_arith)
        requires
            a <= b,
    ;
    lemma_rounded_monotone(a * one(), 1, b * one(), 1);
    if b <= 0x20_0000_0000_0000 {
        lemma_rounded_exact(b, 1074);
    }
}

/// Over one whole number, the larger of two gives no smaller quotient.
pub proof fn quotients_keep_order(a: nat, b: nat, c: nat)
    requires
        a <= b,
        c > 0,
    ensures
        quotient(a, c) <= quotient(b, c),
{
    let (x, y, z) = (counted(a), counted(b), counted(c));
    counts_keep_order(a, b);
    lemma_counted_positive(c);
    assert((x * one()) * z <= (y * one()) * z) by (nonlinear_arith)
        requires
            x <= y,
    ;
    lemma_rounded_monotone(x * one(), z, y * one(), z);
}

/// A part of a whole is a quotient from zero to one: zero of nothing, one of all
/// of it, and the more the larger the part is.
pub proof fn quotients_grow_up_to_one(a: nat, b: nat, whole: nat)
    requires
        a <= b <= whole,
        whole > 0,
    ensures
        quotient(a, whole) <= quotient(b, whole) <= one(),
        quotient(0, whole) == 0,
        quotient(whole, whole) == one(),
{
    let z = counted(whole);
    lemma_counted_positive(whole);
    lemma_zero();
    quotients_keep_order(a, b, whole);
    quotients_keep_order(b, whole, whole);
    lemma_rounded_scale(one(), 1, z);
    lemma_rounded_exact(1, 1074);
    assert(z * one() == one() * z) by (nonlinear_arith);
}

/// The more is taken from one, the less is left: nothing where all is taken.
pub proof fn complements_fall(x: nat, y: nat)
    requires
        x <= y <= one(),
    ensures
        complement(y) <= complement(x) <= one(),
        complement(0) == one(),
        complement(one()) == 0,
{
    lemma_rounded_monotone((one() - y) as nat, 1, (one() - x) as nat, 1);
    lemma_rounded_monotone((one() - x) as nat, 1, one(), 1);
    lemma_rounded_exact(1, 1074);
    lemma_zero();
}

/// The double next to six tenths, and that next to three tenths.
pub proof fn lemma_tenths()
    ensures
        tenths(6) == 5404319552844595 * pow2(1021),
        tenths(3) == 5404319552844595 * pow2(1020),
        0 < tenths(3) < tenths(6) < one(),
{
    lemma_near(6, 10, 5404319552844595, 1021);
    lemma_near(3, 10, 5404319552844595, 1020);
    lemma2_to64();
    lemma2_to64_rest();
    lemma_pow2_adds(53, 1021);
    lemma_pow2_unfold(1021);
    lemma_pow2_pos(1020);
}

/// `n / d` is nearest to `m` of so many parts of one.
proof fn lemma_near(n: nat, d: nat, m: nat, k: nat)
    requires
        0 < d <= 100,
        k == 1021 || k == 1020,
        ({
            let scaled = n * if k == 1021 { 0x20_0000_0000_0000int } else { 0x40_0000_0000_0000int };
            &&& 0x10_0000_0000_0000 * d <= scaled < 0x20_0000_0000_0000 * d
            &&& nearest(scaled as nat, d) == m
        }),
    ensures
        rounded(n * one(), d) == m * pow2(k),
{
    let s: nat = if k == 1021 { 0x20_0000_0000_0000 } else { 0x40_0000_0000_0000 };
    let p = pow2(k);
    lemma2_to64();
    lemma2_to64_rest();
    lemma_pow2_adds(53, 1021);
    lemma_pow2_adds(54, 1020);
    lemma_pow2_pos(k);
    assert(n * one() == (n * s) * p) by (nonlinear_arith)
        requires
            one() == s * p,
    ;
    assert(0x10_0000_0000_0000 * (d * p) <= (n * s) * p < 0x20_0000_0000_0000 * (d * p))
        by (nonlinear_arith)
        requires
            0x10_0000_0000_0000 * d <= n * s < 0x20_0000_0000_0000 * d,
            p > 0,
    ;
    lemma_rounded_at(n * one(), d, k);
    lemma_nearest_scale(n * s, d, p);
}

/// Up to 2^53 a quotient of counts is the exact one, rounded once. So it keeps
/// the order of the exact ones.
pub proof fn quotients_of_exact_counts(a: nat, b: nat)
    requires
        a <= 0x20_0000_0000_0000,
        0 < b <= 0x20_0000_0000_0000,
    ensures
        quotient(a, b) == rounded(a * one(), b),
{
    counts_keep_order(a, a);
    counts_keep_order(b, b);
    lemma_pow2_pos(1074);
    lemma_rounded_scale(a * one(), b, one());
}

/// A number below `2^(53 + k)` is rounded by at most half of `2^k`.
proof fn lemma_rounding_error(n: nat, d: nat, k: nat)
    requires
        d > 0,
        n <= 0x20_0000_0000_0000 * (d * pow2(k)),
    ensures
        2 * distance((rounded(n, d) * d) as int, n as int) <= d * pow2(k),
    decreases k,
{
    lemma2_to64();
    lemma_pow2_pos(k);
    assert(d * 1 == d);
    assert(d <= d * pow2(k)) by (nonlinear_arith)
        requires
            pow2(k) >= 1,
    ;
    if n < 0x20_0000_0000_0000 * d {
        lemma_nearest_error(n, d);
    } else {
        let inner = rounded(n, 2 * d);
        assert(inner * (2 * d) == (2 * inner) * d) by (nonlinear_arith);
        if k == 0 {
            lemma_nearest_scale(0x10_0000_0000_0000, 1, 2 * d);
        } else {
            let p = pow2((k - 1) as nat);
            lemma_pow2_unfold(k);
            assert(d * pow2(k) == (2 * d) * p) by (nonlinear_arith)
                requires
                    pow2(k) == 2 * p,
            ;
            lemma_rounding_error(n, 2 * d, (k - 1) as nat);
        }
    }
}

proof fn lemma_nearest_error(n: nat, d: nat)
    requires
        d > 0,
    ensures
        2 * distance((nearest(n, d) * d) as int, n as int) <= d,
{
    let (q, r) = (n / d, n % d);
    lemma_fundamental_div_mod(n as int, d as int);
    assert(q * d + r == n && (q + 1) * d == q * d + d) by (nonlinear_arith)
        requires
            n == d * q + r,
    ;
}

/// A quotient of counts up to 2^53 that is at most `2^k` differs from the exact
/// one by at most `2^(k - 54)`.
pub proof fn quotients_are_accurate(a: nat, b: nat, k: nat)
    requires
        a <= 0x20_0000_0000_0000,
        0 < b <= 0x20_0000_0000_0000,
        a <= b * pow2(k),
    ensures
        2 * distance((quotient(a, b) * b) as int, (a * one()) as int) <= b * pow2(1021 + k),
{
    let (p, s) = (pow2(1021), pow2(k));
    lemma2_to64();
    lemma2_to64_rest();
    lemma_pow2_adds(53, 1021);
    lemma_pow2_adds(1021, k);
    assert(a * one() <= 0x20_0000_0000_0000 * (b * (p * s))) by (nonlinear_arith)
        requires
            a <= b * s,
            one() == 0x20_0000_0000_0000 * p,
    ;
    quotients_of_exact_counts(a, b);
    lemma_rounding_error(a * one(), b, 1021 + k);
}

/// A quotient of counts up to 2^53 that has at most 53 significant bits is exact.
pub proof fn short_quotients_are_exact(a: nat, b: nat, x: nat)
    requires
        a <= 0x20_0000_0000_0000,
        0 < b <= 0x20_0000_0000_0000,
        has_53_bits(x),
        x * b == a * one(),
    ensures
        quotient(a, b) == x,
{
    let (m, k) = choose|m: nat, k: nat| m <= 0x20_0000_0000_0000 && x == #[trigger] shifted(m, k);
    quotients_of_exact_counts(a, b);
    lemma_rounded_scale(x, 1, b);
    lemma_rounded_exact(m, k);
}

/// One minus a number is at most 2^-54 off.
pub proof fn complements_are_accurate(x: nat)
    requires
        x <= one(),
    ensures
        2 * distance(complement(x) as int, one() - x) <= pow2(1021),
{
    lemma2_to64();
    lemma2_to64_rest();
    lemma_pow2_adds(53, 1021);
    lemma_rounding_error((one() - x) as nat, 1, 1021);
}

/// What is left of one, where the part taken is at most `n / d`.
pub(crate) proof fn lemma_left_at_least(a: nat, b: nat, n: nat, d: nat)
    requires
        a <= b,
        0 < b <= 0x20_0000_0000_0000,
        n <= d,
        d > 0,
        a * d <= n * b,
    ensures
        complement(quotient(a, b)) >= complement(rounded(n * one(), d)),
{
    quotients_of_exact_counts(a, b);
    assert((a * one()) * d <= (n * one()) * b) by (nonlinear_arith)
        requires
            a * d <= n * b,
    ;
    lemma_rounded_monotone(a * one(), b, n * one(), d);
    assert((n * one()) * 1 <= one() * d) by (nonlinear_arith)
        requires
            n <= d,
    ;
    lemma_rounded_monotone(n * one(), d, one(), 1);
    lemma_rounded_exact(1, 1074);
    complements_fall(quotient(a, b), rounded(n * one(), d));
}

/// What is left of one, where the part taken is at least `m / 2^53`.
pub(crate) proof fn lemma_left_at_most(a: nat, b: nat, m: nat)
    requires
        a <= b,
        0 < b <= 0x20_0000_0000_0000,
        m <= 0x20_0000_0000_0000,
        m * b <= 0x20_0000_0000_0000 * a,
    ensures
        complement(quotient(a, b)) <= (0x20_0000_0000_0000 - m) * pow2(1021),
{
    let p = pow2(1021);
    lemma2_to64();
    lemma2_to64_rest();
    lemma_pow2_adds(53, 1021);
    quotients_of_exact_counts(a, b);
    quotients_grow_up_to_one(a, a, b);
    assert((m * p) * b <= (a * one()) * 1) by (nonlinear_arith)
        requires
            m * b <= 0x20_0000_0000_0000 * a,
            one() == 0x20_0000_0000_0000 * p,
    ;
    lemma_rounded_monotone(m * p, 1, a * one(), b);
    lemma_rounded_exact(m, 1021);
    complements_fall(m * p, quotient(a, b));
    assert(one() - m * p == (0x20_0000_0000_0000 - m) * p) by (nonlinear_arith)
        requires
            one() == 0x20_0000_0000_0000 * p,
    ;
    lemma_rounded_exact((0x20_0000_0000_0000 - m) as nat, 1021);
}

/// What is left of one when `m / 2^53` is taken.
pub(crate) proof fn lemma_left_exactly(m: nat)
    requires
        m <= 0x20_0000_0000_0000,
    ensures
        complement(m * pow2(1021)) == (0x20_0000_0000_0000 - m) * pow2(1021),
{
    let p = pow2(1021);
    lemma2_to64();
    lemma2_to64_rest();
    lemma_pow2_adds(53, 1021);
    assert(one() - m * p == (0x20_0000_0000_0000 - m) * p) by (nonlinear_arith)
        requires
            one() == 0x20_0000_0000_0000 * p,
    ;
    lemma_rounded_exact((0x20_0000_0000_0000 - m) as nat, 1021);
}

/// Of a whole of up to 2^50, what is left falls short of six tenths, and of
/// three tenths, exactly where the exact fraction does.
pub proof fn tenths_are_told_apart(a: nat, b: nat)
    requires
        a <= b,
        0 < b <= 0x4_0000_0000_0000,
    ensures
        complement(quotient(a, b)) >= tenths(6) <==> 10 * (b - a) >= 6 * b,
        complement(quotient(a, b)) >= tenths(3) <==> 10 * (b - a) >= 3 * b,
{
    let p = pow2(1020);
    lemma_tenths();
    lemma_pow2_unfold(1021);
    lemma_pow2_pos(1020);
    if 10 * (b - a) >= 6 * b {
        lemma_near(2, 5, 7205759403792794, 1020);
        assert(7205759403792794 * p == 3602879701896397 * pow2(1021));
        lemma_left_at_least(a, b, 2, 5);
        lemma_left_exactly(3602879701896397);
    } else {
        lemma_left_at_most(a, b, 3602879701896398);
    }
    if 10 * (b - a) >= 3 * b {
        lemma_near(7, 10, 6305039478318694, 1021);
        lemma_left_at_least(a, b, 7, 10);
        lemma_left_exactly(6305039478318694);
    } else {
        lemma_left_at_most(a, b, 6305039478318695);
    }
}

} // verus!
