//! Numbers of double precision: 53 binary digits, rounded half to even. Such a number,
//! where it is not negative, is a whole number of the smallest steps, of which there
//! are 2^1074 to one; below 2^53 steps they lie one step apart, and twice as far from
//! each power of two on.

use vstd::prelude::*;

verus! {

// --- powers -----------------------------------------------------------------

/// Ten to the power of `k`.
pub open spec fn pow10(k: nat) -> int
    decreases k,
{
    if k == 0 {
        1
    } else {
        10 * pow10((k - 1) as nat)
    }
}

/// Two to the power of `k`.
pub open spec fn pow2(k: nat) -> int
    decreases k,
{
    if k == 0 {
        1
    } else {
        2 * pow2((k - 1) as nat)
    }
}

/// A power of ten is positive.
pub proof fn lemma_pow10(k: nat)
    ensures
        pow10(k) > 0,
    decreases k,
{
    if k > 0 {
        lemma_pow10((k - 1) as nat);
    }
}

/// A power of two is positive.
proof fn lemma_pow2(k: nat)
    ensures
        pow2(k) > 0,
    decreases k,
{
    if k > 0 {
        lemma_pow2((k - 1) as nat);
    }
}

/// Exponents add up.
proof fn lemma_pow2_sum(a: nat, b: nat)
    ensures
        pow2(a + b) == pow2(a) * pow2(b),
    decreases a,
{
    if a == 0 {
        assert(1 * pow2(b) == pow2(b));
    } else {
        let front = (a - 1) as nat;
        lemma_pow2_sum(front, b);
        assert((a + b - 1) as nat == front + b);
        assert((2 * pow2(front)) * pow2(b) == 2 * (pow2(front) * pow2(b))) by (nonlinear_arith);
    }
}

// --- rounding ---------------------------------------------------------------

/// The quotient of `a` and `b`, rounded to the nearest number, and to the even
/// one of two that are as near.
pub open spec fn rounded(a: int, b: int) -> int {
    let q = a / b;
    let r = a % b;
    if 2 * r > b || (2 * r == b && q % 2 == 1) {
        q + 1
    } else {
        q
    }
}

/// The distance between the numbers of 53 binary digits around `n`.
pub open spec fn spacing(n: int) -> int
    decreases n,
{
    if n < 0x20_0000_0000_0000 {
        1
    } else {
        2 * spacing(n / 2)
    }
}

/// `n` rounded to 53 binary digits.
pub open spec fn significant(n: int) -> int {
    rounded(n, spacing(n)) * spacing(n)
}

/// The quotient of `a` and `b`, rounded to 53 binary digits.
pub open spec fn nearest(a: int, b: int) -> int {
    rounded(a, b * spacing(a / b)) * spacing(a / b)
}

/// The decimal number `digits / 10^places` in double precision, in smallest steps.
pub open spec fn double_of(digits: int, places: nat) -> int {
    nearest(digits * pow2(1074), pow10(places))
}

/// The product of a double, in smallest steps, and a whole number that is itself one of
/// double precision, in double precision, rounded down to a whole number.
pub open spec fn double_times(steps: int, unit: int) -> int {
    nearest(steps * unit, 1) / pow2(1074)
}

/// A number, or the largest 64-bit one where it is larger.
pub open spec fn capped(v: int) -> u64 {
    if v > u64::MAX {
        u64::MAX
    } else {
        v as u64
    }
}

/// Scaling both sides of a quotient does not change how it is rounded.
proof fn lemma_rounded_scale(a: int, b: int, k: int)
    requires
        0 <= a,
        0 < b,
        0 < k,
    ensures
        rounded(a * k, b * k) == rounded(a, b),
{
    let (q, r) = (a / b, a % b);
    vstd::arithmetic::div_mod::lemma_fundamental_div_mod(a, b);
    assert(a * k == q * (b * k) + r * k && 0 <= r * k < b * k) by (nonlinear_arith)
        requires
            a == b * q + r,
            0 <= r < b,
            0 < k,
    ;
    vstd::arithmetic::div_mod::lemma_fundamental_div_mod_converse(a * k, b * k, q, r * k);
    assert((2 * (r * k) > b * k <==> 2 * r > b) && (2 * (r * k) == b * k <==> 2 * r == b))
        by (nonlinear_arith)
        requires
            0 < k,
    ;
}

/// Rounding moves a quotient by one at most, and never below the quotient rounded down.
proof fn lemma_rounded_bounds(a: int, b: int)
    requires
        0 <= a,
        0 < b,
    ensures
        0 <= a / b <= rounded(a, b) <= a / b + 1,
{
    assert(0 <= a / b) by (nonlinear_arith)
        requires
            0 <= a,
            0 < b,
    ;
}

/// The exponent of the distance between the numbers of 53 binary digits around `n`.
spec fn gap_exponent(n: int) -> nat
    decreases n,
{
    if n < 0x20_0000_0000_0000 {
        0
    } else {
        1 + gap_exponent(n / 2)
    }
}

/// Distances are powers of two.
proof fn lemma_gap(n: int)
    ensures
        spacing(n) == pow2(gap_exponent(n)),
        spacing(n) > 0,
    decreases n,
{
    if n >= 0x20_0000_0000_0000 {
        lemma_gap(n / 2);
    }
}

/// The distance depends on the leading digits only.
proof fn lemma_spacing_top(y: int, n: int, t: nat)
    requires
        0 <= y,
        0x20_0000_0000_0000 <= n,
        y / pow2(t) == n,
    ensures
        spacing(y) == spacing(n) * pow2(t),
    decreases t,
{
    if t == 0 {
        assert(y / 1 == y);
    } else {
        let p = pow2((t - 1) as nat);
        lemma_pow2((t - 1) as nat);
        vstd::arithmetic::div_mod::lemma_div_denominator(y, 2, p);
        lemma_spacing_top(y / 2, n, (t - 1) as nat);
        vstd::arithmetic::div_mod::lemma_fundamental_div_mod(y / 2, p);
        assert(y / 2 >= n) by (nonlinear_arith)
            requires
                y / 2 == p * n + (y / 2) % p,
                0 <= (y / 2) % p,
                p >= 1,
                n >= 0,
        ;
        assert(2 * (spacing(n) * p) == spacing(n) * (2 * p)) by (nonlinear_arith);
    }
}

/// Twice a number is rounded to twice what the number is.
proof fn lemma_nearest_twice(x: int)
    requires
        0 <= x,
    ensures
        nearest(2 * x, 1) == 2 * nearest(x, 1),
{
    lemma_gap(x);
    let s = spacing(x);
    assert(x / 1 == x && (2 * x) / 1 == 2 * x);
    assert(1 * s == s);
    if 2 * x >= 0x20_0000_0000_0000 {
        assert((2 * x) / 2 == x);
        assert(spacing(2 * x) == 2 * s);
        lemma_rounded_scale(x, s, 2);
        assert(x * 2 == 2 * x && s * 2 == 2 * s);
        assert(rounded(x, s) * (2 * s) == 2 * (rounded(x, s) * s)) by (nonlinear_arith);
    }
}

/// A number times a power of two is rounded to what the number is, times that power.
proof fn lemma_nearest_shift(x: int, e: nat)
    requires
        0 <= x,
    ensures
        nearest(x * pow2(e), 1) == nearest(x, 1) * pow2(e),
    decreases e,
{
    if e > 0 {
        let p = pow2((e - 1) as nat);
        lemma_pow2((e - 1) as nat);
        lemma_nearest_shift(x, (e - 1) as nat);
        assert(x * p >= 0) by (nonlinear_arith)
            requires
                x >= 0,
                p > 0,
        ;
        lemma_nearest_twice(x * p);
        assert(x * (2 * p) == 2 * (x * p)) by (nonlinear_arith);
        assert(nearest(x, 1) * (2 * p) == 2 * (nearest(x, 1) * p)) by (nonlinear_arith);
    }
}

/// A whole number is rounded to its 53 leading digits.
proof fn lemma_nearest_whole(x: int)
    requires
        0 <= x,
    ensures
        nearest(x, 1) == significant(x),
{
    assert(x / 1 == x);
    assert(1 * spacing(x) == spacing(x));
}

/// Rounding to 53 digits, even down, does not fall below a power of two.
proof fn lemma_floor_power(n: int, p: nat)
    requires
        n >= pow2(p),
    ensures
        (n / spacing(n)) * spacing(n) >= pow2(p),
    decreases n,
{
    lemma_pow2(p);
    lemma_gap(n);
    if n < 0x20_0000_0000_0000 {
        assert((n / 1) * 1 == n);
    } else {
        let s = spacing(n / 2);
        lemma_gap(n / 2);
        let q = if p == 0 {
            0
        } else {
            (p - 1) as nat
        };
        assert(n / 2 >= pow2(q));
        lemma_floor_power(n / 2, q);
        vstd::arithmetic::div_mod::lemma_div_denominator(n, 2, s);
        let k = (n / 2) / s;
        assert(k * (2 * s) == 2 * (k * s)) by (nonlinear_arith);
        lemma_pow2(q);
    }
}

/// What is not below a power of two is not rounded to less.
proof fn lemma_nearest_power(a: int, b: int, p: nat)
    requires
        0 <= a,
        0 < b,
        a / b >= pow2(p),
    ensures
        nearest(a, b) >= pow2(p),
{
    let s = spacing(a / b);
    lemma_gap(a / b);
    lemma_floor_power(a / b, p);
    vstd::arithmetic::div_mod::lemma_div_denominator(a, b, s);
    assert(b * s > 0) by (nonlinear_arith)
        requires
            b > 0,
            s > 0,
    ;
    lemma_rounded_bounds(a, b * s);
    assert(rounded(a, b * s) * s >= ((a / b) / s) * s) by (nonlinear_arith)
        requires
            rounded(a, b * s) >= (a / b) / s,
            s > 0,
    ;
}

/// A decimal number beyond 64 bits stays beyond them.
pub proof fn lemma_double_beyond(digits: int, places: nat, unit: int)
    requires
        digits >= 0x1_0000_0000_0000_0000 * pow10(places),
        unit >= 1,
    ensures
        double_of(digits, places) > 0,
        double_times(double_of(digits, places), unit) > u64::MAX,
{
    let one = pow2(1074);
    let b = pow10(places);
    lemma_pow10(places);
    lemma_pow2(1074);
    lemma_pow2_sum(64, 1074);
    assert(pow2(64) == 0x1_0000_0000_0000_0000) by {
        reveal_with_fuel(pow2, 65);
    }
    let big = pow2(1138);
    assert(big == 0x1_0000_0000_0000_0000 * one);
    let a = digits * one;
    assert(a >= big * b && a >= 0) by (nonlinear_arith)
        requires
            a == digits * one,
            digits >= 0x1_0000_0000_0000_0000 * b,
            big == 0x1_0000_0000_0000_0000 * one,
            one > 0,
            b > 0,
    ;
    vstd::arithmetic::div_mod::lemma_div_is_ordered(big * b, a, b);
    vstd::arithmetic::div_mod::lemma_div_by_multiple(big, b);
    lemma_nearest_power(a, b, 1138);
    let steps = double_of(digits, places);
    let x = steps * unit;
    assert(x >= big) by (nonlinear_arith)
        requires
            x == steps * unit,
            steps >= big,
            big > 0,
            unit >= 1,
    ;
    assert(x / 1 == x);
    lemma_nearest_power(x, 1, 1138);
    vstd::arithmetic::div_mod::lemma_div_is_ordered(big, nearest(x, 1), one);
    vstd::arithmetic::div_mod::lemma_div_by_multiple(0x1_0000_0000_0000_0000, one);
}

/// Whole numbers are exact as long as 53 binary digits hold them.
pub proof fn lemma_whole_is_exact(n: int, unit: int)
    requires
        0 <= n < 0x20_0000_0000_0000,
        0 <= unit,
        n * unit < 0x20_0000_0000_0000,
    ensures
        double_times(double_of(n, 0), unit) == n * unit,
{
    let one = pow2(1074);
    lemma_pow2(1074);
    lemma_nearest_shift(n, 1074);
    lemma_nearest_whole(n);
    let x = n * unit;
    assert(x >= 0) by (nonlinear_arith)
        requires
            x == n * unit,
            n >= 0,
            unit >= 0,
    ;
    assert((n * one) * unit == x * one) by (nonlinear_arith)
        requires
            x == n * unit,
    ;
    lemma_nearest_shift(x, 1074);
    lemma_nearest_whole(x);
    vstd::arithmetic::div_mod::lemma_div_by_multiple(x, one);
}

// --- decimal digits ---------------------------------------------------------

/// The number that digits denote, the last place first.
pub open spec fn low_first(ds: Seq<u8>) -> int
    decreases ds.len(),
{
    if ds.len() == 0 {
        0
    } else {
        low_first(ds.drop_last()) + ds.last() * pow10((ds.len() - 1) as nat)
    }
}

/// Whether each element is a digit.
pub open spec fn are_digits(ds: Seq<u8>) -> bool {
    forall|i: int| 0 <= i < ds.len() ==> #[trigger] ds[i] <= 9
}

/// Digits denote no more than their places can hold, and no less than their first ones.
proof fn lemma_low_first(ds: Seq<u8>, n: int)
    requires
        are_digits(ds),
        0 <= n <= ds.len(),
    ensures
        0 <= low_first(ds.take(n)) <= low_first(ds) < pow10(ds.len()),
    decreases ds.len(),
{
    if ds.len() > 0 {
        let front = ds.drop_last();
        let p = pow10(front.len());
        let d = ds.last() as int;
        assert(ds[ds.len() - 1] <= 9);
        lemma_pow10(front.len());
        assert forall|i: int| 0 <= i < front.len() implies #[trigger] front[i] <= 9 by {
            assert(ds[i] <= 9);
        }
        assert(0 <= d * p <= 9 * p) by (nonlinear_arith)
            requires
                0 <= d <= 9,
                p > 0,
        ;
        if n == ds.len() {
            assert(ds.take(n) =~= ds);
            lemma_low_first(front, 0);
        } else {
            lemma_low_first(front, n);
            assert(front.take(n) =~= ds.take(n));
        }
    } else {
        assert(ds.take(n) =~= ds);
    }
}

/// Doubles the number that digits denote, within their places. Returns what is carried
/// out of them.
fn double(ds: &mut Vec<u8>) -> (carry: bool)
    requires
        are_digits(old(ds)@),
    ensures
        are_digits(final(ds)@),
        final(ds)@.len() == old(ds)@.len(),
        2 * low_first(old(ds)@) == low_first(final(ds)@) + (if carry {
            pow10(old(ds)@.len())
        } else {
            0
        }),
{
    let ghost all = ds@;
    let mut carry = false;
    let mut i: usize = 0;
    assert(all.take(0) =~= Seq::<u8>::empty());
    while i < ds.len()
        invariant
            i <= ds@.len(),
            ds@.len() == all.len(),
            are_digits(all),
            are_digits(ds@),
            forall|k: int| i <= k < all.len() ==> #[trigger] ds@[k] == all[k],
            2 * low_first(all.take(i as int)) == low_first(ds@.take(i as int)) + (if carry {
                pow10(i as nat)
            } else {
                0
            }),
        decreases ds@.len() - i,
    {
        let ghost before = ds@;
        let ghost had: int = if carry {
            1
        } else {
            0
        };
        assert(all[i as int] <= 9 && ds@[i as int] == all[i as int]);
        let twice: u8 = 2 * ds[i] + if carry {
            1
        } else {
            0
        };
        let digit: u8 = twice % 10;
        ds.set(i, digit);
        carry = twice >= 10;
        proof {
            let p = pow10(i as nat);
            assert(all.take(i + 1).drop_last() =~= all.take(i as int));
            assert(ds@.take(i + 1).drop_last() =~= before.take(i as int));
            let now: int = if carry {
                1
            } else {
                0
            };
            assert(2 * all[i as int] + had == digit + 10 * now);
            assert(2 * (all[i as int] * p) + had * p == digit * p + now * (10 * p))
                by (nonlinear_arith)
                requires
                    2 * all[i as int] + had == digit + 10 * now,
            ;
            assert(had * p == if had == 1 {
                p
            } else {
                0
            }) by (nonlinear_arith)
                requires
                    had == 0 || had == 1,
            ;
            assert(now * (10 * p) == if now == 1 {
                10 * p
            } else {
                0
            }) by (nonlinear_arith)
                requires
                    now == 0 || now == 1,
            ;
        }
        i += 1;
    }
    assert(all.take(i as int) =~= all);
    assert(ds@.take(i as int) =~= ds@);
    carry
}

/// Whether digits denote zero.
fn is_zero(ds: &[u8]) -> (yes: bool)
    requires
        are_digits(ds@),
    ensures
        yes == (low_first(ds@) == 0),
{
    let mut i: usize = 0;
    assert(ds@.take(0) =~= Seq::<u8>::empty());
    while i < ds.len()
        invariant
            i <= ds@.len(),
            are_digits(ds@),
            low_first(ds@.take(i as int)) == 0,
        decreases ds@.len() - i,
    {
        assert(ds@.take(i + 1).drop_last() =~= ds@.take(i as int));
        proof {
            lemma_pow10(i as nat);
        }
        if ds[i] != 0 {
            proof {
                let (d, p) = (ds@[i as int] as int, pow10(i as nat));
                assert(d * p > 0) by (nonlinear_arith)
                    requires
                        d > 0,
                        p > 0,
                ;
                lemma_low_first(ds@, i + 1);
            }
            return false;
        }
        assert(0 * pow10(i as nat) == 0);
        i += 1;
    }
    assert(ds@.take(i as int) =~= ds@);
    true
}

// --- reading and scaling ----------------------------------------------------

/// A number of double precision: `digits` times a power of two, which is `gap` where
/// `shift` is zero, and else the number of smallest steps in 2^(1 - shift).
pub struct Double {
    pub digits: u64,
    pub gap: u64,
    pub shift: usize,
}

impl Double {
    /// The smallest steps in one digit.
    pub open spec fn weight(&self) -> int {
        if self.shift == 0 {
            self.gap * pow2(1074)
        } else {
            pow2((1075 - self.shift) as nat)
        }
    }

    /// The number, in smallest steps.
    pub open spec fn steps(&self) -> int {
        self.digits * self.weight()
    }

    /// It has 53 digits at most.
    pub open spec fn wf(&self) -> bool {
        &&& self.digits <= 0x20_0000_0000_0000
        &&& self.shift <= 1075
        &&& self.gap <= 2048
        &&& exists|e: nat| #[trigger] pow2(e) == self.gap
    }
}

/// A number is zero if and only if its digits are.
pub proof fn lemma_weight(x: Double)
    requires
        x.wf(),
    ensures
        x.weight() > 0,
        x.steps() == 0 <==> x.digits == 0,
{
    lemma_pow2(1074);
    lemma_pow2((1075 - x.shift) as nat);
    let e = choose|e: nat| #[trigger] pow2(e) == x.gap;
    lemma_pow2(e);
    assert(x.gap * pow2(1074) > 0) by (nonlinear_arith)
        requires
            x.gap > 0,
            pow2(1074) > 0,
    ;
    let (d, w) = (x.digits as int, x.weight());
    assert(d * w == 0 <==> d == 0) by (nonlinear_arith)
        requires
            w > 0,
            d >= 0,
    ;
}

/// The leading binary digits of a decimal number give the double that is nearest to it.
/// It is `d / b`; `acc` is it times 2^j, rounded down, and `f / b` what is left over.
proof fn lemma_leading(d: int, b: int, acc: int, f: int, j: nat, gap: int)
    requires
        0 < b,
        0 <= f < b,
        0 <= acc,
        0 <= d,
        j <= 1075,
        d * pow2(j) == acc * b + f,
        j == 1075 ==> acc < 0x40_0000_0000_0000 && gap == 2,
        j < 1075 ==> acc >= 0x20_0000_0000_0000 && gap == spacing(acc),
    ensures
        nearest(d * pow2(1074), b) == rounded(acc * b + f, b * gap) * (if j == 1075 {
            1
        } else {
            gap * pow2((1074 - j) as nat)
        }),
{
    let x = acc * b + f;
    let a = d * pow2(1074);
    lemma_pow2(1074);
    lemma_pow2(j);
    assert(x >= 0 && a >= 0) by (nonlinear_arith)
        requires
            x == acc * b + f,
            a == d * pow2(1074),
            acc >= 0,
            b > 0,
            f >= 0,
            d >= 0,
            pow2(1074) > 0,
    ;
    if j == 1075 {
        assert(d * (2 * pow2(1074)) == 2 * (d * pow2(1074))) by (nonlinear_arith);
        assert(x == 2 * a);
        assert(a < b * 0x20_0000_0000_0000) by (nonlinear_arith)
            requires
                2 * a == acc * b + f,
                f < b,
                acc < 0x40_0000_0000_0000,
                b > 0,
        ;
        vstd::arithmetic::div_mod::lemma_multiply_divide_lt(a, b, 0x20_0000_0000_0000);
        lemma_rounded_scale(a, b, 2);
        assert(a * 2 == x);
        assert(b * 1 == b);
    } else {
        let t = (1074 - j) as nat;
        let p = pow2(t);
        lemma_pow2(t);
        lemma_gap(acc);
        lemma_pow2_sum(j, t);
        assert(a == x * p) by (nonlinear_arith)
            requires
                a == d * pow2(1074),
                pow2(1074) == pow2(j) * p,
                x == d * pow2(j),
        ;
        assert(acc == x / b) by {
            vstd::arithmetic::div_mod::lemma_fundamental_div_mod_converse(x, b, acc, f);
        }
        vstd::arithmetic::div_mod::lemma_div_denominator(a, b, p);
        vstd::arithmetic::div_mod::lemma_div_multiples_vanish_quotient(p, x, b);
        assert(p * x == a && p * b == b * p) by (nonlinear_arith)
            requires
                a == x * p,
        ;
        assert(a / b >= 0) by (nonlinear_arith)
            requires
                a >= 0,
                b > 0,
        ;
        lemma_spacing_top(a / b, acc, t);
        let g = b * gap;
        assert(g > 0) by (nonlinear_arith)
            requires
                g == b * gap,
                b > 0,
                gap > 0,
        ;
        lemma_rounded_scale(x, g, p);
        assert(b * (gap * p) == g * p) by (nonlinear_arith)
            requires
                g == b * gap,
        ;
    }
}

/// How a number is rounded can be told from its digits and whether anything is left.
proof fn lemma_round(acc: int, b: int, f: int, half: int)
    requires
        0 < b,
        0 <= f < b,
        0 <= acc,
        1 <= half,
    ensures
        ({
            let gap = 2 * half;
            let (q, r) = (acc / gap, acc % gap);
            rounded(acc * b + f, b * gap) == (if r > half || (r == half && (f > 0 || q % 2 == 1)) {
                q + 1
            } else {
                q
            })
        }),
{
    let gap = 2 * half;
    let (q, r) = (acc / gap, acc % gap);
    let x = acc * b + f;
    let rest = r * b + f;
    vstd::arithmetic::div_mod::lemma_fundamental_div_mod(acc, gap);
    assert(x == q * (b * gap) + rest && 0 <= rest < b * gap) by (nonlinear_arith)
        requires
            x == acc * b + f,
            rest == r * b + f,
            acc == gap * q + r,
            0 <= r < gap,
            0 <= f < b,
    ;
    vstd::arithmetic::div_mod::lemma_fundamental_div_mod_converse(x, b * gap, q, rest);
    if r > half {
        assert(2 * rest > b * gap) by (nonlinear_arith)
            requires
                rest == r * b + f,
                gap == 2 * half,
                r >= half + 1,
                0 <= f,
                0 < b,
        ;
    } else if r < half {
        assert(2 * rest < b * gap) by (nonlinear_arith)
            requires
                rest == r * b + f,
                gap == 2 * half,
                r <= half - 1,
                f < b,
                0 < b,
        ;
    } else {
        assert(2 * rest == b * gap + 2 * f) by (nonlinear_arith)
            requires
                rest == r * b + f,
                gap == 2 * half,
                r == half,
        ;
    }
}

/// The spacing of 53-digit numbers around a 64-bit number.
pub fn spacing_of(n: u64) -> (unit: u64)
    ensures
        unit == spacing(n as int),
        1 <= unit <= 2048,
        n >= 0x20_0000_0000_0000 ==> unit * 0x10_0000_0000_0000 <= n,
        unit <= 1 || n / unit < 0x20_0000_0000_0000,
{
    if n < 0x20_0000_0000_0000 {
        return 1;
    }
    proof {
        reveal_with_fuel(spacing, 13);
    }
    if n < 0x40_0000_0000_0000 {
        2
    } else if n < 0x80_0000_0000_0000 {
        4
    } else if n < 0x100_0000_0000_0000 {
        8
    } else if n < 0x200_0000_0000_0000 {
        16
    } else if n < 0x400_0000_0000_0000 {
        32
    } else if n < 0x800_0000_0000_0000 {
        64
    } else if n < 0x1000_0000_0000_0000 {
        128
    } else if n < 0x2000_0000_0000_0000 {
        256
    } else if n < 0x4000_0000_0000_0000 {
        512
    } else if n < 0x8000_0000_0000_0000 {
        1024
    } else {
        2048
    }
}

/// The double that is nearest to a whole number and a decimal fraction, the digits of
/// which come the last place first.
pub fn read_double(whole: u64, fraction: Vec<u8>) -> (out: Double)
    requires
        are_digits(fraction@),
    ensures
        out.wf(),
        out.steps() == double_of(
            whole * pow10(fraction@.len()) + low_first(fraction@),
            fraction@.len(),
        ),
{
    let ghost b = pow10(fraction@.len());
    let ghost d = whole * b + low_first(fraction@);
    let mut rest = fraction;
    let mut acc: u64 = whole;
    let mut j: usize = 0;
    proof {
        lemma_pow10(fraction@.len());
        lemma_low_first(fraction@, 0);
        assert(d >= 0) by (nonlinear_arith)
            requires
                d == whole * b + low_first(fraction@),
                b > 0,
                low_first(fraction@) >= 0,
        ;
        assert(d * 1 == d);
    }
    while acc < 0x20_0000_0000_0000 && j < 1075
        invariant
            j <= 1075,
            j > 0 ==> acc < 0x40_0000_0000_0000,
            are_digits(rest@),
            rest@.len() == fraction@.len(),
            b == pow10(fraction@.len()),
            d * pow2(j as nat) == acc * b + low_first(rest@),
        decreases 1075 - j,
    {
        let ghost (was, left) = (acc, low_first(rest@));
        let carry = double(&mut rest);
        acc = 2 * acc + if carry {
            1
        } else {
            0
        };
        proof {
            let c: int = if carry {
                1
            } else {
                0
            };
            let p = pow2(j as nat);
            assert(d * (2 * p) == 2 * (d * p)) by (nonlinear_arith);
            assert(c * b == if c == 1 {
                b
            } else {
                0
            }) by (nonlinear_arith)
                requires
                    c == 0 || c == 1,
            ;
            assert((2 * was + c) * b == 2 * (was * b) + c * b) by (nonlinear_arith);
        }
        j += 1;
    }
    let gap: u64 = if j == 0 {
        spacing_of(acc)
    } else {
        2
    };
    let half: u64 = gap / 2;
    let exact = is_zero(rest.as_slice());
    let q: u64 = acc / gap;
    let r: u64 = acc % gap;
    let digits: u64 = if r > half || (r == half && (!exact || q % 2 == 1)) {
        q + 1
    } else {
        q
    };
    proof {
        let f = low_first(rest@);
        lemma_low_first(rest@, 0);
        assert(1 <= j < 1075 ==> spacing(acc as int) == 2) by {
            reveal_with_fuel(spacing, 3);
        }
        lemma_gap(acc as int);
        assert(pow2(1) == 2) by {
            reveal_with_fuel(pow2, 2);
        }
        assert(gap == 2 * half) by {
            if j == 0 {
                assert(spacing(acc as int) == 2 * spacing(acc as int / 2));
            }
        }
        lemma_round(acc as int, b, f, half as int);
        lemma_leading(d, b, acc as int, f, j as nat, gap as int);
        if 0 < j < 1075 {
            assert(pow2((1075 - j) as nat) == 2 * pow2((1074 - j) as nat));
        }
    }
    Double { digits, gap, shift: j }
}

/// Divides, rounding half to even.
pub fn round_half_even(a: u128, b: u128) -> (q: u128)
    requires
        0 < b <= 0x4000_0000_0000_0000_0000_0000_0000_0000,
        a < u128::MAX,
    ensures
        q == rounded(a as int, b as int),
        q <= a / b + 1,
{
    let q: u128 = a / b;
    let r: u128 = a % b;
    assert(r < b);
    assert(q <= a) by (nonlinear_arith)
        requires
            q == a / b,
            b > 0,
            a >= 0,
    ;
    if 2 * r > b || (2 * r == b && q % 2 == 1) {
        q + 1
    } else {
        q
    }
}

/// The spacing of 53-digit numbers around a number.
fn wide_spacing(n: u128) -> (unit: u128)
    ensures
        unit == spacing(n as int),
        1 <= unit,
        unit == 1 || unit <= n,
    decreases n,
{
    if n < 0x20_0000_0000_0000 {
        1
    } else {
        2 * wide_spacing(n / 2)
    }
}

/// The product of a double and a whole number, in double precision, rounded down to a
/// whole number, or the largest 64-bit one where that is larger.
pub fn times(x: &Double, unit: u64) -> (out: u64)
    requires
        x.wf(),
        1 <= unit <= 0x100_0000_0000,
    ensures
        out == capped(double_times(x.steps(), unit as int)),
{
    let ghost product = x.digits * unit;
    assert(0 <= product <= 0x20_0000_0000_0000 * 0x100_0000_0000) by (nonlinear_arith)
        requires
            product == x.digits * unit,
            0 <= x.digits <= 0x20_0000_0000_0000u64,
            0 <= unit <= 0x100_0000_0000u64,
    ;
    let exact: u128 = (x.digits as u128) * (unit as u128);
    let gap: u128 = wide_spacing(exact);
    let kept: u128 = round_half_even(exact, gap);
    assert(0 <= kept * gap <= exact + gap) by (nonlinear_arith)
        requires
            0 <= kept <= exact / gap + 1,
            gap >= 1,
            exact >= 0,
    ;
    let whole: u128 = kept * gap;
    let ghost one = pow2(1074);
    let ghost weight = x.weight();
    proof {
        lemma_pow2(1074);
        lemma_nearest_whole(exact as int);
        assert(x.steps() * unit == exact * weight) by (nonlinear_arith)
            requires
                x.steps() == x.digits * weight,
                exact == x.digits * unit,
        ;
    }
    if x.shift == 0 {
        assert(whole * x.gap <= 0x4000_0000_0000_0000_0000_0000 * 2048) by (nonlinear_arith)
            requires
                0 <= whole <= 0x4000_0000_0000_0000_0000_0000u128,
                0 <= x.gap <= 2048u64,
        ;
        let v: u128 = whole * (x.gap as u128);
        proof {
            let e = choose|e: nat| #[trigger] pow2(e) == x.gap;
            lemma_pow2_sum(e, 1074);
            lemma_nearest_shift(exact as int, e + 1074);
            assert(whole * (x.gap * one) == v * one) by (nonlinear_arith)
                requires
                    v == whole * x.gap,
            ;
            vstd::arithmetic::div_mod::lemma_div_by_multiple(v as int, one);
        }
        return if v > 0xffff_ffff_ffff_ffff {
            u64::MAX
        } else {
            v as u64
        };
    }
    let mut v: u128 = whole;
    let mut i: usize = 1;
    assert(whole as int / 1 == whole);
    while i < x.shift
        invariant
            1 <= i <= x.shift,
            v == whole as int / pow2((i - 1) as nat),
        decreases x.shift - i,
    {
        proof {
            lemma_pow2((i - 1) as nat);
            vstd::arithmetic::div_mod::lemma_div_denominator(
                whole as int,
                pow2((i - 1) as nat),
                2,
            );
        }
        v = v / 2;
        i += 1;
    }
    proof {
        let p = pow2((x.shift - 1) as nat);
        lemma_pow2((x.shift - 1) as nat);
        lemma_pow2((1075 - x.shift) as nat);
        lemma_pow2_sum((1075 - x.shift) as nat, (x.shift - 1) as nat);
        lemma_nearest_shift(exact as int, (1075 - x.shift) as nat);
        vstd::arithmetic::div_mod::lemma_div_multiples_vanish_quotient(weight, whole as int, p);
        assert(weight * whole == whole * weight) by (nonlinear_arith);
    }
    if v > 0xffff_ffff_ffff_ffff {
        u64::MAX
    } else {
        v as u64
    }
}

// --- laws -------------------------------------------------------------------

/// A quotient is rounded to the nearest whole number, and to an even one where two are as
/// near.
pub proof fn lemma_rounded(a: int, b: int)
    requires
        0 <= a,
        0 < b,
    ensures
        -b <= 2 * (rounded(a, b) * b - a) <= b,
        2 * (rounded(a, b) * b - a) == b || 2 * (rounded(a, b) * b - a) == -b ==> rounded(a, b) % 2
            == 0,
{
    let (q, r) = (a / b, a % b);
    vstd::arithmetic::div_mod::lemma_fundamental_div_mod(a, b);
    vstd::arithmetic::div_mod::lemma_mod_bound(a, b);
    assert(q * b == b * q) by (nonlinear_arith);
    assert((q + 1) * b == b * q + b) by (nonlinear_arith);
}

/// Numbers of 53 binary digits lie one apart below two to the fifty-third, and twice as far
/// apart from each power of two to the next.
pub proof fn lemma_spacing(n: int)
    requires
        0 <= n,
    ensures
        n < 0x20_0000_0000_0000 ==> spacing(n) == 1,
        n >= 0x20_0000_0000_0000 ==> spacing(n) == 2 * spacing(n / 2),
        n < 0x20_0000_0000_0000 ==> significant(n) == n,
        capped(n) == (if n <= 0xffff_ffff_ffff_ffff {
            n
        } else {
            0xffff_ffff_ffff_ffff
        }),
{
}

} // verus!
