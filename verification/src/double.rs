//! Binary64 arithmetic on whole numbers.
//!
//! Every finite binary64 number is a whole multiple of the smallest positive one, `2^-1074`.
//! The specification therefore writes such a number as that multiple, an `int`, and rounding to
//! nearest (ties to even) becomes a statement about quotients of integers. The executable side
//! works on a 53-bit significand and an exponent.

use vstd::arithmetic::div_mod::*;
use vstd::arithmetic::power2::*;
use vstd::prelude::*;

verus! {

/// How many times the smallest positive binary64 number goes into one.
pub open spec fn unit() -> int {
    pow2(1074) as int
}

/// The number of binary digits of `v`; zero has none.
pub open spec fn bit_len(v: int) -> nat
    decreases v,
{
    if v <= 0 {
        0
    } else {
        1 + bit_len(v / 2)
    }
}

/// The quotient `n / d` rounded to a whole number, ties to the even one.
pub open spec fn round_half_even(n: int, d: int) -> int {
    let q = n / d;
    let r = n % d;
    if 2 * r < d || (2 * r == d && q % 2 == 0) {
        q
    } else {
        q + 1
    }
}

/// Exponent of the spacing of the binary64 numbers around a magnitude with whole part `v`.
pub open spec fn spacing(v: int) -> nat {
    if bit_len(v) > 53 {
        (bit_len(v) - 53) as nat
    } else {
        0
    }
}

/// The binary64 number nearest to the magnitude `n / d`, `n` not negative.
pub open spec fn nearest_magnitude(n: int, d: int) -> int {
    let step = pow2(spacing(n / d)) as int;
    round_half_even(n, d * step) * step
}

/// The binary64 number nearest to `n / d`, ties to the even significand.
pub open spec fn nearest(n: int, d: int) -> int {
    if n < 0 {
        -nearest_magnitude(-n, d)
    } else {
        nearest_magnitude(n, d)
    }
}

/// The binary64 number nearest to the whole number `x`.
pub open spec fn double_of(x: int) -> int {
    nearest(x * unit(), 1)
}

pub open spec fn double_add(a: int, b: int) -> int {
    nearest(a + b, 1)
}

pub open spec fn double_sub(a: int, b: int) -> int {
    nearest(a - b, 1)
}

pub open spec fn double_mul(a: int, b: int) -> int {
    nearest(a * b, unit())
}

/// Quotient by a positive divisor.
pub open spec fn double_div(a: int, b: int) -> int {
    nearest(a * unit(), b)
}

/// The whole part towards zero, held to the range of `i64`.
pub open spec fn double_to_i64(a: int) -> int {
    let whole = if a < 0 {
        -((-a) / unit())
    } else {
        a / unit()
    };
    if whole < i64::MIN {
        i64::MIN as int
    } else if whole > i64::MAX {
        i64::MAX as int
    } else {
        whole
    }
}

// ---------------------------------------------------------------------------
// Powers of two and binary digits
// ---------------------------------------------------------------------------

pub proof fn lemma_pow2_grows(a: nat, b: nat)
    requires
        a <= b,
    ensures
        pow2(a) <= pow2(b),
        pow2(b) == pow2(a) * pow2((b - a) as nat),
        pow2(a) > 0,
{
    lemma_pow2_pos(a);
    lemma_pow2_adds(a, (b - a) as nat);
    if a < b {
        lemma_pow2_strictly_increases(a, b);
    }
}

pub proof fn lemma_pow2_53()
    ensures
        pow2(52) == 0x10_0000_0000_0000,
        pow2(53) == 0x20_0000_0000_0000,
        pow2(54) == 0x40_0000_0000_0000,
        pow2(60) == 0x1000_0000_0000_0000,
        pow2(63) == 0x8000_0000_0000_0000,
{
    vstd::arithmetic::power2::lemma2_to64();
    vstd::arithmetic::power2::lemma2_to64_rest();
}

pub proof fn lemma_bit_len_bounds(v: int)
    requires
        v > 0,
    ensures
        bit_len(v) > 0,
        pow2((bit_len(v) - 1) as nat) <= v < pow2(bit_len(v)),
    decreases v,
{
    lemma_pow2_unfold(bit_len(v));
    if v == 1 {
        reveal_with_fuel(bit_len, 3);
        assert(bit_len(1int) == 1) by {
            assert(1int / 2 == 0);
        }
        vstd::arithmetic::power2::lemma2_to64();
    } else {
        lemma_bit_len_bounds(v / 2);
        lemma_pow2_unfold((bit_len(v) - 1) as nat);
    }
}

pub proof fn lemma_bit_len_unique(v: int, b: nat)
    requires
        b > 0,
        pow2((b - 1) as nat) <= v < pow2(b),
    ensures
        bit_len(v) == b,
{
    lemma_pow2_pos((b - 1) as nat);
    lemma_bit_len_bounds(v);
    if bit_len(v) < b {
        lemma_pow2_grows(bit_len(v), (b - 1) as nat);
    }
    if bit_len(v) > b {
        lemma_pow2_grows(b, (bit_len(v) - 1) as nat);
    }
}

/// A magnitude below `2^b` has at most `b` binary digits.
pub proof fn lemma_bit_len_at_most(v: int, b: nat)
    requires
        v < pow2(b),
    ensures
        bit_len(v) <= b,
{
    if v > 0 {
        lemma_bit_len_bounds(v);
        if bit_len(v) > b {
            lemma_pow2_grows(b, (bit_len(v) - 1) as nat);
        }
    }
}

pub proof fn lemma_bit_len_monotone(a: int, b: int)
    requires
        a <= b,
    ensures
        bit_len(a) <= bit_len(b),
{
    if b > 0 {
        lemma_bit_len_bounds(b);
        lemma_bit_len_at_most(a, bit_len(b));
    }
}

// ---------------------------------------------------------------------------
// Rounding
// ---------------------------------------------------------------------------

/// The quotient of `n` by `d` is the whole number `q` with `q * d <= n < (q + 1) * d`.
pub proof fn lemma_quotient(n: int, d: int, q: int)
    requires
        d > 0,
        q * d <= n < (q + 1) * d,
    ensures
        n / d == q,
        n % d == n - q * d,
{
    assert((q + 1) * d == q * d + d) by (nonlinear_arith);
    lemma_fundamental_div_mod_converse(n, d, q, n - q * d);
}

pub proof fn lemma_quotient_bounds(n: int, d: int)
    requires
        d > 0,
    ensures
        (n / d) * d <= n < (n / d + 1) * d,
        n % d == n - (n / d) * d,
        0 <= n % d < d,
{
    lemma_fundamental_div_mod(n, d);
    assert((n / d + 1) * d == (n / d) * d + d) by (nonlinear_arith);
    assert((n / d) * d == d * (n / d)) by (nonlinear_arith);
}

/// A bound on a magnitude is a bound on its whole part.
pub proof fn lemma_whole_part(n: int, d: int, m: int)
    requires
        d > 0,
    ensures
        n / d < m <==> n < m * d,
        n / d >= m <==> n >= m * d,
{
    lemma_quotient_bounds(n, d);
    let q = n / d;
    if q < m {
        assert((q + 1) * d <= m * d) by (nonlinear_arith)
            requires
                q + 1 <= m,
                d > 0,
        ;
    } else {
        assert(q * d >= m * d) by (nonlinear_arith)
            requires
                q >= m,
                d > 0,
        ;
    }
}

/// Between `2^(52+e)` and `2^(53+e)`, and below `2^53` for `e` zero, the spacing is `2^e`.
pub proof fn lemma_nearest_at(n: int, d: int, e: nat)
    requires
        d > 0,
        0 <= n < pow2(53 + e) * d,
        e == 0 || n >= pow2((52 + e) as nat) * d,
    ensures
        nearest(n, d) == round_half_even(n, d * pow2(e)) * pow2(e),
        spacing(n / d) == e,
{
    lemma_whole_part(n, d, pow2(53 + e) as int);
    lemma_whole_part(n, d, pow2((52 + e) as nat) as int);
    lemma_bit_len_at_most(n / d, 53 + e);
    if e > 0 {
        lemma_bit_len_unique(n / d, 53 + e);
    }
}

/// The nearest number lies between the two ends of the spacing that holds the magnitude.
pub proof fn lemma_round_bounds(n: int, d: int, lo: int, hi: int)
    requires
        d > 0,
        lo * d <= n <= hi * d,
    ensures
        lo <= round_half_even(n, d) <= hi,
{
    lemma_quotient_bounds(n, d);
    lemma_whole_part(n, d, lo);
    assert((hi + 1) * d == hi * d + d) by (nonlinear_arith);
    lemma_whole_part(n, d, hi + 1);
}

/// A whole quotient is left as it is.
pub proof fn lemma_round_exact(m: int, d: int)
    requires
        d > 0,
    ensures
        round_half_even(m * d, d) == m,
{
    lemma_round_bounds(m * d, d, m, m);
}

/// Where the spacing is `2^e`: what is known of the magnitude.
pub proof fn lemma_spacing_bounds(n: int, d: int)
    requires
        d > 0,
        n >= 0,
    ensures
        ({
            let e = spacing(n / d);
            &&& n < pow2(53 + e) * d
            &&& e > 0 ==> n >= pow2((52 + e) as nat) * d
        }),
{
    let v = n / d;
    let e = spacing(v);
    lemma_quotient_bounds(n, d);
    assert(v >= 0) by {
        lemma_whole_part(n, d, 0);
    }
    lemma_whole_part(n, d, pow2(53 + e) as int);
    lemma_whole_part(n, d, pow2((52 + e) as nat) as int);
    if v > 0 {
        lemma_bit_len_bounds(v);
        if bit_len(v) <= 53 {
            lemma_pow2_grows(bit_len(v), 53);
        }
    } else {
        lemma_pow2_pos(53 + e);
    }
}

/// A number with a significand of at most 53 binary digits is its own nearest number.
pub proof fn lemma_nearest_exact(m: int, e: nat, d: int)
    requires
        d > 0,
        0 <= m <= pow2(53),
    ensures
        nearest(m * pow2(e) * d, d) == m * pow2(e),
    decreases m,
{
    if m == pow2(53) {
        // The same number with the halved significand.
        lemma_pow2_unfold(53);
        lemma_pow2_unfold(e + 1);
        let h = pow2(52) as int;
        assert(h * pow2(e + 1) == m * pow2(e)) by (nonlinear_arith)
            requires
                m == 2 * h,
                pow2(e + 1) == 2 * pow2(e),
        ;
        lemma_pow2_53();
        lemma_nearest_exact(h, e + 1, d);
    } else {
        let v = m * pow2(e);
        let n = v * d;
        lemma_pow2_pos(e);
        assert(v >= 0) by (nonlinear_arith)
            requires
                m >= 0,
                pow2(e) > 0,
                v == m * pow2(e),
        ;
        assert(n >= 0) by (nonlinear_arith)
            requires
                v >= 0,
                d > 0,
                n == v * d,
        ;
        assert((v + 1) * d == v * d + d) by (nonlinear_arith);
        lemma_quotient(n, d, v);
        lemma_pow2_adds(53, e);
        assert(v < pow2(53 + e)) by (nonlinear_arith)
            requires
                m < pow2(53),
                pow2(e) > 0,
                v == m * pow2(e),
                pow2(53 + e) == pow2(53) * pow2(e),
        ;
        lemma_bit_len_at_most(v, 53 + e);
        let s = spacing(v);
        lemma_pow2_grows(s, e);
        let g = m * pow2((e - s) as nat);
        lemma_pow2_pos(s);
        assert(n == g * (d * pow2(s))) by (nonlinear_arith)
            requires
                n == m * pow2(e) * d,
                pow2(e) == pow2(s) * pow2((e - s) as nat),
                g == m * pow2((e - s) as nat),
        ;
        assert(g * pow2(s) == v) by (nonlinear_arith)
            requires
                v == m * pow2(e),
                pow2(e) == pow2(s) * pow2((e - s) as nat),
                g == m * pow2((e - s) as nat),
        ;
        assert(d * pow2(s) > 0) by (nonlinear_arith)
            requires
                d > 0,
                pow2(s) > 0,
        ;
        lemma_round_exact(g, d * pow2(s));
    }
}

proof fn lemma_round_monotone(n1: int, d1: int, n2: int, d2: int)
    requires
        d1 > 0,
        d2 > 0,
        n1 * d2 <= n2 * d1,
    ensures
        round_half_even(n1, d1) <= round_half_even(n2, d2),
        n1 / d1 <= n2 / d2,
{
    lemma_quotient_bounds(n1, d1);
    lemma_quotient_bounds(n2, d2);
    let q1 = n1 / d1;
    let q2 = n2 / d2;
    let r1 = n1 % d1;
    let r2 = n2 % d2;
    assert(q1 <= q2) by (nonlinear_arith)
        requires
            q1 * d1 <= n1,
            n2 < (q2 + 1) * d2,
            n1 * d2 <= n2 * d1,
            d1 > 0,
            d2 > 0,
    ;
    if q1 == q2 {
        assert(r1 * d2 <= r2 * d1) by (nonlinear_arith)
            requires
                n1 * d2 <= n2 * d1,
                r1 == n1 - q1 * d1,
                r2 == n2 - q2 * d2,
                q1 == q2,
        ;
        if 2 * r1 >= d1 {
            assert(2 * r2 >= d2) by (nonlinear_arith)
                requires
                    2 * r1 >= d1,
                    r1 * d2 <= r2 * d1,
                    d1 > 0,
                    d2 > 0,
            ;
        }
        if 2 * r1 > d1 {
            assert(2 * r2 > d2) by (nonlinear_arith)
                requires
                    2 * r1 > d1,
                    r1 * d2 <= r2 * d1,
                    d1 > 0,
                    d2 > 0,
            ;
        }
    }
}

/// A larger magnitude has no smaller nearest number.
proof fn lemma_nearest_magnitude_monotone(n1: int, d1: int, n2: int, d2: int)
    requires
        d1 > 0,
        d2 > 0,
        n1 >= 0,
        n2 >= 0,
        n1 * d2 <= n2 * d1,
    ensures
        0 <= nearest_magnitude(n1, d1) <= nearest_magnitude(n2, d2),
{
    lemma_round_monotone(n1, d1, n2, d2);
    lemma_bit_len_monotone(n1 / d1, n2 / d2);
    let e1 = spacing(n1 / d1);
    let e2 = spacing(n2 / d2);
    let s1 = pow2(e1) as int;
    let s2 = pow2(e2) as int;
    lemma_pow2_grows(e1, e2);
    lemma_pow2_pos(e2);
    lemma_spacing_bounds(n1, d1);
    lemma_spacing_bounds(n2, d2);
    assert(d1 * s1 > 0 && d2 * s2 > 0) by (nonlinear_arith)
        requires
            d1 > 0,
            d2 > 0,
            s1 > 0,
            s2 > 0,
    ;
    let g1 = round_half_even(n1, d1 * s1);
    let g2 = round_half_even(n2, d2 * s2);
    lemma_pow2_adds(53, e1);
    assert(n1 <= pow2(53) * (d1 * s1)) by (nonlinear_arith)
        requires
            n1 < pow2(53 + e1) * d1,
            pow2(53 + e1) == pow2(53) * s1,
    ;
    assert(0 * (d1 * s1) <= n1);
    lemma_round_bounds(n1, d1 * s1, 0, pow2(53) as int);
    assert(g1 * s1 >= 0) by (nonlinear_arith)
        requires
            g1 >= 0,
            s1 > 0,
    ;
    if e1 == e2 {
        assert(n1 * (d2 * s2) <= n2 * (d1 * s1)) by (nonlinear_arith)
            requires
                n1 * d2 <= n2 * d1,
                s1 == s2,
                s1 > 0,
        ;
        lemma_round_monotone(n1, d1 * s1, n2, d2 * s2);
        assert(g1 * s1 <= g2 * s2) by (nonlinear_arith)
            requires
                g1 <= g2,
                s1 == s2,
                s1 > 0,
        ;
    } else {
        assert(e2 > 0);
        lemma_pow2_adds(52, e2);
        assert(pow2(52) * (d2 * s2) <= n2) by (nonlinear_arith)
            requires
                n2 >= pow2((52 + e2) as nat) * d2,
                pow2((52 + e2) as nat) == pow2(52) * s2,
        ;
        lemma_pow2_adds(53, e2);
        assert(n2 <= pow2(53) * (d2 * s2)) by (nonlinear_arith)
            requires
                n2 < pow2(53 + e2) * d2,
                pow2(53 + e2) == pow2(53) * s2,
        ;
        lemma_round_bounds(n2, d2 * s2, pow2(52) as int, pow2(53) as int);
        lemma_pow2_53();
        lemma_pow2_unfold((e1 + 1) as nat);
        lemma_pow2_grows((e1 + 1) as nat, e2);
        assert(g1 * s1 <= g2 * s2) by (nonlinear_arith)
            requires
                g1 <= pow2(53),
                pow2(53) == 2 * pow2(52),
                2 * s1 <= s2,
                g2 >= pow2(52),
                s1 > 0,
        ;
    }
}

/// Rounding keeps order.
pub proof fn lemma_nearest_monotone(n1: int, d1: int, n2: int, d2: int)
    requires
        d1 > 0,
        d2 > 0,
        n1 * d2 <= n2 * d1,
    ensures
        nearest(n1, d1) <= nearest(n2, d2),
        n1 >= 0 ==> nearest(n1, d1) >= 0,
{
    if n1 >= 0 {
        assert(n2 >= 0) by (nonlinear_arith)
            requires
                n1 >= 0,
                d1 > 0,
                d2 > 0,
                n1 * d2 <= n2 * d1,
        ;
        lemma_nearest_magnitude_monotone(n1, d1, n2, d2);
    } else if n2 < 0 {
        assert((-n2) * d1 <= (-n1) * d2) by (nonlinear_arith)
            requires
                n1 * d2 <= n2 * d1,
        ;
        lemma_nearest_magnitude_monotone(-n2, d2, -n1, d1);
    } else {
        assert(0 * d1 <= (-n1) * d1) by (nonlinear_arith)
            requires
                n1 < 0,
                d1 > 0,
        ;
        lemma_nearest_magnitude_monotone(0, d1, -n1, d1);
        lemma_nearest_magnitude_monotone(n2, d2, n2, d2);
        assert(nearest_magnitude(-n1, d1) >= 0);
    }
}

/// Rounding up adds at most one part in `2^53`, above the subnormal range.
pub proof fn lemma_nearest_excess(n: int, d: int)
    requires
        d > 0,
        n >= pow2(52) * d,
    ensures
        nearest(n, d) * d * pow2(53) <= n * (pow2(53) + 1),
{
    let e = spacing(n / d);
    let s = pow2(e) as int;
    lemma_pow2_pos(e);
    lemma_pow2_pos(52);
    assert(n >= 0) by (nonlinear_arith)
        requires
            n >= pow2(52) * d,
            d > 0,
            pow2(52) > 0,
    ;
    lemma_spacing_bounds(n, d);
    lemma_pow2_adds(52, e);
    if e == 0 {
        vstd::arithmetic::power2::lemma2_to64();
    }
    assert(n >= pow2(52) * (d * s)) by (nonlinear_arith)
        requires
            n >= pow2((52 + e) as nat) * d,
            pow2((52 + e) as nat) == pow2(52) * s,
    ;
    let ds = d * s;
    assert(ds > 0) by (nonlinear_arith)
        requires
            d > 0,
            s > 0,
            ds == d * s,
    ;
    lemma_quotient_bounds(n, ds);
    let g = round_half_even(n, ds);
    let q = n / ds;
    assert(2 * (g * ds) <= 2 * n + ds) by (nonlinear_arith)
        requires
            g == q || (g == q + 1 && 2 * (n - q * ds) >= ds),
            q * ds <= n,
            ds > 0,
    ;
    lemma_pow2_53();
    assert(g * s * d * pow2(53) <= n * (pow2(53) + 1)) by (nonlinear_arith)
        requires
            2 * (g * ds) <= 2 * n + ds,
            n >= pow2(52) * ds,
            ds == d * s,
            pow2(53) == 2 * pow2(52),
            pow2(52) == 0x10_0000_0000_0000,
    ;
}

/// What rounding decides on the leading `q` of a magnitude with whole part `q * p + r`, where
/// `sticky` tells whether anything lies beyond the whole part.
proof fn lemma_round_parts(n: int, d: int, whole: int, p: int, q: int, r: int, sticky: bool)
    requires
        d > 0,
        p >= 2,
        p % 2 == 0,
        whole == q * p + r,
        0 <= r < p,
        whole * d <= n < (whole + 1) * d,
        sticky <==> n != whole * d,
    ensures
        n / (p * d) == q,
        round_half_even(n, p * d) == if 2 * r < p || (2 * r == p && !sticky && q % 2 == 0) {
            q
        } else {
            q + 1
        },
{
    assert(p * d > 0) by (nonlinear_arith)
        requires
            p >= 2,
            d > 0,
    ;
    let rest = n - q * (p * d);
    assert(r * d <= rest < (r + 1) * d) by (nonlinear_arith)
        requires
            whole == q * p + r,
            whole * d <= n < (whole + 1) * d,
            rest == n - q * (p * d),
    ;
    assert(q * (p * d) <= n < (q + 1) * (p * d)) by (nonlinear_arith)
        requires
            r * d <= rest < (r + 1) * d,
            0 <= r < p,
            d > 0,
            rest == n - q * (p * d),
    ;
    lemma_quotient(n, p * d, q);
    if 2 * r < p {
        assert(2 * rest < p * d) by (nonlinear_arith)
            requires
                rest < (r + 1) * d,
                2 * r + 2 <= p,
                d > 0,
        ;
    } else if 2 * r > p {
        assert(2 * rest > p * d) by (nonlinear_arith)
            requires
                rest >= r * d,
                2 * r >= p + 1,
                d > 0,
        ;
    } else {
        assert(2 * (r * d) == p * d) by (nonlinear_arith)
            requires
                2 * r == p,
        ;
        assert(sticky <==> rest != r * d) by (nonlinear_arith)
            requires
                whole == q * p + r,
                sticky <==> n != whole * d,
                rest == n - q * (p * d),
        ;
    }
}

// ---------------------------------------------------------------------------
// Executable arithmetic
// ---------------------------------------------------------------------------

/// Whether the magnitude `n / d` has the leading part `man`, counted in `2^exp`, and, beyond it,
/// a rest that is not zero exactly where `sticky` holds.
pub open spec fn leads(n: int, d: int, man: int, sticky: bool, exp: int) -> bool {
    let p = pow2((exp + 1074) as nat) as int;
    &&& d > 0
    &&& man * (p * d) <= n < (man + 1) * (p * d)
    &&& sticky <==> n != man * (p * d)
}

/// A positive binary64 number: a significand of 53 binary digits and an exponent.
#[derive(Clone, Copy)]
pub struct Magnitude {
    pub man: u64,
    pub exp: i32,
}

impl Magnitude {
    pub open spec fn wf(self) -> bool {
        &&& 0x10_0000_0000_0000 <= self.man < 0x20_0000_0000_0000
        &&& -1074 <= self.exp <= 960
    }

    /// The number as a multiple of the smallest positive one.
    pub open spec fn value(self) -> int {
        self.man * pow2((self.exp + 1074) as nat)
    }

    /// Rounds the magnitude that `man`, `sticky` and `exp` describe to 53 binary digits.
    pub fn round(man: u128, sticky: bool, exp: i32) -> (res: Magnitude)
        requires
            man > 0,
            sticky ==> man >= 0x40_0000_0000_0000,
            -1022 <= exp <= 880,
        ensures
            res.wf(),
            forall|n: int, d: int| #[trigger]
                leads(n, d, man as int, sticky, exp as int) ==> res.value() == nearest(n, d),
    {
        proof {
            lemma_pow2_53();
        }
        let ghost t = (exp + 1074) as nat;
        if man < 0x20_0000_0000_0000 {
            let mut m: u64 = man as u64;
            let mut e: i32 = exp;
            proof {
                vstd::arithmetic::power2::lemma2_to64();
                assert(man * 1 == man);
            }
            while m < 0x10_0000_0000_0000
                invariant
                    0 < m < 0x20_0000_0000_0000,
                    0 < man,
                    exp - 52 <= e <= exp,
                    -1022 <= exp <= 880,
                    m == man * pow2((exp - e) as nat),
                decreases 0x20_0000_0000_0000 - m,
            {
                proof {
                    let s = (exp - e) as nat;
                    lemma_pow2_unfold(s + 1);
                    assert(man * pow2(s + 1) == 2 * (man * pow2(s))) by (nonlinear_arith)
                        requires
                            pow2(s + 1) == 2 * pow2(s),
                    ;
                    if s >= 52 {
                        lemma_pow2_grows(52, s);
                        lemma_pow2_53();
                        assert(man * pow2(s) >= pow2(52)) by (nonlinear_arith)
                            requires
                                man > 0,
                                pow2(s) >= pow2(52),
                        ;
                    }
                }
                m = m * 2;
                e = e - 1;
            }
            let res = Magnitude { man: m, exp: e };
            proof {
                let s = (exp - e) as nat;
                let base = pow2((e + 1074) as nat) as int;
                lemma_pow2_adds((e + 1074) as nat, s);
                assert(res.value() == man * pow2(t)) by (nonlinear_arith)
                    requires
                        res.value() == m * base,
                        m == man * pow2(s),
                        pow2(t) == base * pow2(s),
                ;
                assert forall|n: int, d: int| #[trigger]
                    leads(n, d, man as int, sticky, exp as int) implies res.value() == nearest(
                    n,
                    d,
                ) by {
                    assert(n == man * pow2(t) * d) by (nonlinear_arith)
                        requires
                            n == man * (pow2(t) * d),
                    ;
                    lemma_nearest_exact(man as int, t, d);
                }
            }
            return res;
        }
        let mut p: u128 = 2;
        let mut s: i32 = 1;
        proof {
            vstd::arithmetic::power2::lemma2_to64();
        }
        while man / p >= 0x20_0000_0000_0000
            invariant
                1 <= s <= 75,
                p == pow2(s as nat),
                p >= 2,
                p % 2 == 0,
                man as int >= 0x10_0000_0000_0000 * p,
            decreases man / p,
        {
            proof {
                lemma_quotient_bounds(man as int, p as int);
                lemma_pow2_unfold((s + 1) as nat);
                assert(man >= 0x20_0000_0000_0000 * p) by (nonlinear_arith)
                    requires
                        man / p >= 0x20_0000_0000_0000,
                        (man / p) * p <= man,
                        p > 0,
                ;
                if s == 75 {
                    lemma_pow2_75();
                }
                lemma_quotient_bounds(man as int, 2 * p);
                assert(man as int / (2 * p) < man as int / p as int) by (nonlinear_arith)
                    requires
                        (man as int / (2 * p)) * (2 * p) <= man,
                        man < (man as int / p as int + 1) * p,
                        man as int / p as int >= 1,
                        man as int / (2 * p) >= 1 || man as int / (2 * p) <= 0,
                        p > 0,
                ;
            }
            p = p * 2;
            s = s + 1;
        }
        let q: u64 = (man / p) as u64;
        let r: u128 = man % p;
        let down: bool = r < p - r || (r == p - r && !sticky && q % 2 == 0);
        let res = if down {
            Magnitude { man: q, exp: exp + s }
        } else if q + 1 == 0x20_0000_0000_0000 {
            Magnitude { man: 0x10_0000_0000_0000, exp: exp + s + 1 }
        } else {
            Magnitude { man: q + 1, exp: exp + s }
        };
        proof {
            lemma_quotient_bounds(man as int, p as int);
            let e = (t + s) as nat;
            lemma_pow2_adds(t, s as nat);
            lemma_pow2_unfold(e + 1);
            lemma_pow2_pos(t);
            assert(q >= 0x10_0000_0000_0000) by (nonlinear_arith)
                requires
                    man >= 0x10_0000_0000_0000 * p,
                    man < (q + 1) * p,
                    p > 0,
            ;
            let g = if down {
                q as int
            } else {
                q + 1
            };
            assert(res.value() == g * pow2(e)) by {
                assert(0x10_0000_0000_0000 * pow2(e + 1) == 0x20_0000_0000_0000 * pow2(e));
            }
            assert forall|n: int, d: int| #[trigger]
                leads(n, d, man as int, sticky, exp as int) implies res.value() == nearest(
                n,
                d,
            ) by {
                let pt = pow2(t) as int;
                let dd = pt * d;
                assert(dd > 0) by (nonlinear_arith)
                    requires
                        pt > 0,
                        d > 0,
                        dd == pt * d,
                ;
                lemma_round_parts(n, dd, man as int, p as int, q as int, r as int, sticky);
                lemma_pow2_adds(52, e);
                lemma_pow2_adds(53, e);
                assert(p * dd == d * pow2(e)) by (nonlinear_arith)
                    requires
                        dd == pt * d,
                        pow2(e) == pt * p,
                ;
                assert(pow2((52 + e) as nat) * d <= n && n < pow2(53 + e) * d) by (nonlinear_arith)
                    requires
                        man * dd <= n,
                        n < (man + 1) * dd,
                        man >= q * p,
                        man + 1 <= (q + 1) * p,
                        0x10_0000_0000_0000 <= q,
                        q + 1 <= 0x20_0000_0000_0000,
                        p * dd == d * pow2(e),
                        pow2((52 + e) as nat) == 0x10_0000_0000_0000 * pow2(e),
                        pow2(53 + e) == 0x20_0000_0000_0000 * pow2(e),
                        dd > 0,
                        p > 0,
                        d > 0,
                ;
                assert(n >= 0) by (nonlinear_arith)
                    requires
                        man * dd <= n,
                        dd > 0,
                        man > 0,
                ;
                lemma_nearest_at(n, d, e);
            }
        }
        res
    }
}

/// Rounding again changes nothing.
pub proof fn lemma_nearest_idempotent(n: int, d: int)
    requires
        d > 0,
    ensures
        nearest(nearest(n, d), 1) == nearest(n, d),
{
    let a = if n < 0 {
        -n
    } else {
        n
    };
    let e = spacing(a / d);
    let s = pow2(e) as int;
    lemma_pow2_pos(e);
    lemma_spacing_bounds(a, d);
    lemma_pow2_adds(53, e);
    let ds = d * s;
    assert(ds > 0) by (nonlinear_arith)
        requires
            d > 0,
            s > 0,
            ds == d * s,
    ;
    assert(a <= pow2(53) * ds) by (nonlinear_arith)
        requires
            a < pow2(53 + e) * d,
            pow2(53 + e) == pow2(53) * s,
            ds == d * s,
    ;
    assert(0 * ds <= a);
    lemma_round_bounds(a, ds, 0, pow2(53) as int);
    let g = round_half_even(a, ds);
    lemma_nearest_exact(g, e, 1);
    assert(g * s >= 0) by (nonlinear_arith)
        requires
            g >= 0,
            s > 0,
    ;
}

/// Two to the power `s`.
fn power_of_two(s: u32) -> (res: u128)
    requires
        s <= 127,
    ensures
        res == pow2(s as nat),
{
    let mut res: u128 = 1;
    let mut i: u32 = 0;
    proof {
        vstd::arithmetic::power2::lemma2_to64();
    }
    while i < s
        invariant
            i <= s <= 127,
            res == pow2(i as nat),
        decreases s - i,
    {
        proof {
            lemma_pow2_unfold((i + 1) as nat);
            lemma_pow2_127();
            lemma_pow2_grows((i + 1) as nat, 127);
        }
        res = res * 2;
        i = i + 1;
    }
    res
}

impl Magnitude {
    /// The whole part.
    fn trunc(self) -> (res: u128)
        requires
            self.wf(),
            self.exp <= 70,
        ensures
            res == self.value() / unit(),
    {
        proof {
            lemma_pow2_53();
            lemma_pow2_127();
            lemma_pow2_pos(1074);
        }
        if self.exp >= 0 {
            let p: u128 = power_of_two(self.exp as u32);
            proof {
                let s = self.exp as nat;
                lemma_pow2_adds(53, s);
                lemma_pow2_grows((53 + s) as nat, 127);
                assert(self.man * p <= pow2((53 + s) as nat)) by (nonlinear_arith)
                    requires
                        self.man <= 0x20_0000_0000_0000,
                        pow2((53 + s) as nat) == 0x20_0000_0000_0000 * p,
                        p >= 0,
                ;
                lemma_pow2_adds(s, 1074);
                let w = self.man * p;
                assert(self.value() == w * unit()) by (nonlinear_arith)
                    requires
                        self.value() == self.man * pow2((s + 1074) as nat),
                        pow2((s + 1074) as nat) == p * unit(),
                        w == self.man * p,
                ;
                assert((w + 1) * unit() == w * unit() + unit()) by (nonlinear_arith);
                lemma_quotient(self.value(), unit(), w);
            }
            (self.man as u128) * p
        } else {
            let ghost s = (-self.exp) as nat;
            let ghost base = pow2((self.exp + 1074) as nat) as int;
            proof {
                lemma_pow2_adds((self.exp + 1074) as nat, s);
                lemma_pow2_pos((self.exp + 1074) as nat);
            }
            if self.exp < -64 {
                proof {
                    lemma_pow2_grows(53, s);
                    assert(0 <= self.value() < unit()) by (nonlinear_arith)
                        requires
                            self.value() == self.man * base,
                            unit() == base * pow2(s),
                            0 <= self.man < pow2(53),
                            pow2(s) >= pow2(53),
                            base > 0,
                    ;
                    lemma_quotient(self.value(), unit(), 0);
                }
                0
            } else {
                let p: u128 = power_of_two((-self.exp) as u32);
                proof {
                    lemma_pow2_pos(s);
                    let w = self.man as int / p as int;
                    lemma_quotient_bounds(self.man as int, p as int);
                    assert(w * unit() <= self.value() < (w + 1) * unit()) by (nonlinear_arith)
                        requires
                            self.value() == self.man * base,
                            unit() == base * p,
                            w * p <= self.man < (w + 1) * p,
                            base > 0,
                    ;
                    lemma_quotient(self.value(), unit(), w);
                }
                (self.man as u128) / p
            }
        }
    }
}

/// The binary64 number nearest to the whole number `x`, itself a whole number.
fn round_whole(x: u128) -> (res: u128)
    requires
        x <= 0x1_0000_0000_0000_1000,
    ensures
        res * unit() == double_of(x as int),
        res <= 0x1_0000_0000_0000_1000,
        x <= 0x1_0000_0000_0000_0000 ==> res <= 0x1_0000_0000_0000_0000,
        x > 0 ==> res > 0,
{
    proof {
        lemma_pow2_53();
        lemma_pow2_pos(1074);
    }
    if x <= 0x20_0000_0000_0000 {
        proof {
            lemma_nearest_exact(x as int, 1074, 1);
        }
        return x;
    }
    let m = Magnitude::round(x, false, 0);
    proof {
        assert((x + 1) * (unit() * 1) == x * unit() + unit()) by (nonlinear_arith);
        assert(leads(x * unit(), 1, x as int, false, 0));
        // Between 2^53 and 2^64 on both sides of the rounding.
        assert(0x20_0000_0000_0000 * unit() * 1 <= x * unit() * 1) by (nonlinear_arith)
            requires
                0x20_0000_0000_0000 <= x,
                unit() > 0,
        ;
        let top = if x <= 0x1_0000_0000_0000_0000 {
            0x1_0000_0000_0000_0000int
        } else {
            0x1_0000_0000_0000_1000int
        };
        assert(x * unit() * 1 <= top * unit() * 1) by (nonlinear_arith)
            requires
                x <= top,
                unit() > 0,
        ;
        lemma_nearest_monotone(0x20_0000_0000_0000 * unit(), 1, x * unit(), 1);
        lemma_nearest_monotone(x * unit(), 1, top * unit(), 1);
        lemma_nearest_exact(0x20_0000_0000_0000, 1074, 1);
        lemma_pow2_adds(12, 1074);
        vstd::arithmetic::power2::lemma2_to64();
        lemma_nearest_exact(0x10_0000_0000_0000, 1086, 1);
        lemma_nearest_exact(0x10_0000_0000_0001, 1086, 1);
        assert(0x10_0000_0000_0000 * pow2(1086) == 0x1_0000_0000_0000_0000 * unit());
        assert(0x10_0000_0000_0001 * pow2(1086) == 0x1_0000_0000_0000_1000 * unit());
        if m.exp < 1 {
            lemma_pow2_grows((m.exp + 1074) as nat, 1074);
            assert(m.value() < 0x20_0000_0000_0000 * unit()) by (nonlinear_arith)
                requires
                    m.value() == m.man * pow2((m.exp + 1074) as nat),
                    m.man < 0x20_0000_0000_0000,
                    pow2((m.exp + 1074) as nat) <= unit(),
                    unit() > 0,
            ;
        }
        if m.exp > 12 {
            lemma_pow2_grows(1087, (m.exp + 1074) as nat);
            lemma_pow2_unfold(1087);
            assert(m.value() > 0x1_0000_0000_0000_1000 * unit()) by (nonlinear_arith)
                requires
                    m.value() == m.man * pow2((m.exp + 1074) as nat),
                    m.man >= 0x10_0000_0000_0000,
                    pow2((m.exp + 1074) as nat) >= 0x2000 * unit(),
                    unit() > 0,
            ;
        }
        lemma_pow2_adds(m.exp as nat, 1074);
        assert(m.value() == (m.man * pow2(m.exp as nat)) * unit()) by (nonlinear_arith)
            requires
                m.value() == m.man * pow2((m.exp + 1074) as nat),
                pow2((m.exp + 1074) as nat) == pow2(m.exp as nat) * unit(),
        ;
        let w = m.man * pow2(m.exp as nat);
        assert(w <= top && w > 0) by (nonlinear_arith)
            requires
                w * unit() <= top * unit(),
                w * unit() >= 0x20_0000_0000_0000 * unit(),
                unit() > 0,
        ;
    }
    let p: u128 = power_of_two(m.exp as u32);
    (m.man as u128) * p
}

/// The binary64 number nearest to `x`, a whole number of at most `2^63` either way.
fn whole_double(x: i64) -> (res: i128)
    ensures
        res * unit() == double_of(x as int),
        -0x8000_0000_0000_0000 <= res <= 0x8000_0000_0000_0000,
{
    if x < 0 {
        let m: u128 = round_whole((-(x as i128)) as u128);
        proof {
            lemma_whole_bound(-x as int, m as int);
            assert(-(x * unit()) == (-x) * unit()) by (nonlinear_arith);
            assert((-m) * unit() == -(m * unit())) by (nonlinear_arith);
            lemma_pow2_pos(1074);
            assert(x * unit() < 0) by (nonlinear_arith)
                requires
                    x < 0,
                    unit() > 0,
            ;
        }
        -(m as i128)
    } else {
        let m: u128 = round_whole(x as u128);
        proof {
            lemma_whole_bound(x as int, m as int);
        }
        m as i128
    }
}

/// Rounding a whole number of at most `2^63` stays within `2^63`.
proof fn lemma_whole_bound(x: int, m: int)
    requires
        0 <= x <= 0x8000_0000_0000_0000,
        m * unit() == double_of(x),
    ensures
        0 <= m <= 0x8000_0000_0000_0000,
{
    lemma_pow2_53();
    lemma_pow2_pos(1074);
    let top = 0x8000_0000_0000_0000int;
    assert(0 <= x * unit() <= top * unit()) by (nonlinear_arith)
        requires
            0 <= x <= top,
            unit() > 0,
    ;
    lemma_nearest_monotone(x * unit(), 1, top * unit(), 1);
    lemma_pow2_adds(11, 1074);
    vstd::arithmetic::power2::lemma2_to64();
    lemma_nearest_exact(0x10_0000_0000_0000, 1085, 1);
    assert(0x10_0000_0000_0000 * pow2(1085) == top * unit());
    assert(0 <= m <= top) by (nonlinear_arith)
        requires
            0 <= m * unit() <= top * unit(),
            unit() > 0,
    ;
}

/// Holds a whole number to the range of `i64`.
fn saturate(x: i128) -> (res: i64)
    ensures
        res == if x < i64::MIN {
            i64::MIN as int
        } else if x > i64::MAX {
            i64::MAX as int
        } else {
            x as int
        },
{
    if x < i64::MIN as i128 {
        i64::MIN
    } else if x > i64::MAX as i128 {
        i64::MAX
    } else {
        x as i64
    }
}

/// What `x` becomes when it is held as a binary64 number for a while.
pub open spec fn stored(x: int) -> int {
    double_to_i64(double_of(x))
}

/// Passes `x` through binary64 and back.
pub fn store(x: i64) -> (res: i64)
    ensures
        res == stored(x as int),
{
    let w: i128 = whole_double(x);
    proof {
        lemma_whole_to_i64(w as int);
    }
    saturate(w)
}

/// Binary64 holds every whole number of magnitude up to `2^53`.
pub proof fn law_stored_exact(x: int)
    requires
        -0x20_0000_0000_0000 <= x <= 0x20_0000_0000_0000,
    ensures
        stored(x) == x,
{
    lemma_pow2_53();
    lemma_pow2_pos(1074);
    assert((-x) * unit() == -(x * unit())) by (nonlinear_arith);
    assert(x < 0 <==> x * unit() < 0) by (nonlinear_arith)
        requires
            unit() > 0,
    ;
    if x < 0 {
        lemma_nearest_exact(-x, 1074, 1);
    } else {
        lemma_nearest_exact(x, 1074, 1);
    }
    lemma_whole_to_i64(x);
}

proof fn lemma_whole_to_i64(w: int)
    ensures
        double_to_i64(w * unit()) == if w < i64::MIN {
            i64::MIN as int
        } else if w > i64::MAX {
            i64::MAX as int
        } else {
            w
        },
{
    lemma_pow2_pos(1074);
    assert((w + 1) * unit() == w * unit() + unit()) by (nonlinear_arith);
    assert((-w + 1) * unit() == (-w) * unit() + unit()) by (nonlinear_arith);
    assert((-w) * unit() == -(w * unit())) by (nonlinear_arith);
    lemma_quotient(w * unit(), unit(), w);
    lemma_quotient(-(w * unit()), unit(), -w);
}

/// The sum of the whole number `l` and `p`, rounded and cut to a whole number.
fn add_and_cut(l: i128, p: Magnitude) -> (res: i64)
    requires
        -0x8000_0000_0000_0000 <= l <= 0x8000_0000_0000_0000,
        p.wf(),
    ensures
        res == double_to_i64(double_add(l * unit(), p.value())),
{
    let ghost x = l * unit() + p.value();
    let ghost w = pow2(1014) as int;
    proof {
        lemma_pow2_53();
        lemma_pow2_127();
        lemma_pow2_pos(1014);
        lemma_pow2_pos(1074);
        lemma_pow2_adds(60, 1014);
        vstd::arithmetic::power2::lemma2_to64();
    }
    if p.exp > 13 {
        proof {
            lemma_pow2_adds(14, 1074);
            lemma_pow2_grows(1088, (p.exp + 1074) as nat);
            let top = 0x8000_0000_0000_0000int;
            assert(p.value() >= 0x4_0000_0000_0000_0000int * unit()) by (nonlinear_arith)
                requires
                    p.value() == p.man * pow2((p.exp + 1074) as nat),
                    p.man >= 0x10_0000_0000_0000,
                    pow2((p.exp + 1074) as nat) >= 0x4000 * unit(),
                    unit() > 0,
            ;
            assert(l * unit() >= -top * unit()) by (nonlinear_arith)
                requires
                    l >= -top,
                    unit() > 0,
            ;
            assert(x * 1 >= top * unit() * 1);
            lemma_nearest_monotone(top * unit(), 1, x, 1);
            lemma_pow2_adds(11, 1074);
            lemma_nearest_exact(0x10_0000_0000_0000, 1085, 1);
            assert(0x10_0000_0000_0000 * pow2(1085) == top * unit());
            let a = nearest(x, 1);
            lemma_whole_part(a, unit(), top);
        }
        return i64::MAX;
    }
    // `p` in parts of 2^-60, and whether anything is left.
    let whole: u128;
    let sticky: bool;
    if p.exp >= -60 {
        let f: u128 = power_of_two((p.exp + 60) as u32);
        proof {
            lemma_pow2_grows((p.exp + 60) as nat, 73);
            lemma_pow2_adds(53, 73);
            lemma_pow2_unfold(127);
            assert(p.man * f <= pow2(126)) by (nonlinear_arith)
                requires
                    p.man <= pow2(53),
                    f <= pow2(73),
                    pow2(126) == pow2(53) * pow2(73),
                    f >= 0,
            ;
            lemma_pow2_adds((p.exp + 60) as nat, 1014);
            assert(p.value() == (p.man * f) * w) by (nonlinear_arith)
                requires
                    p.value() == p.man * pow2((p.exp + 1074) as nat),
                    pow2((p.exp + 1074) as nat) == f * w,
            ;
        }
        whole = (p.man as u128) * f;
        sticky = false;
        proof {
            assert(p.value() == whole * w);
            assert(whole * w < (whole + 1) * w) by (nonlinear_arith)
                requires
                    w > 0,
            ;
            assert(whole * w <= p.value() < (whole + 1) * w);
        }
    } else {
        let ghost s = (-60 - p.exp) as nat;
        let ghost base = pow2((p.exp + 1074) as nat) as int;
        proof {
            lemma_pow2_adds((p.exp + 1074) as nat, s);
            lemma_pow2_pos((p.exp + 1074) as nat);
            lemma_pow2_pos(s);
        }
        if p.exp < -120 {
            whole = 0;
            sticky = true;
            proof {
                lemma_pow2_grows(53, s);
                assert(0 < p.value() < w) by (nonlinear_arith)
                    requires
                        p.value() == p.man * base,
                        w == base * pow2(s),
                        0 < p.man < pow2(53),
                        pow2(s) >= pow2(53),
                        base > 0,
                ;
                assert(whole * w == 0 && (whole + 1) * w == w) by (nonlinear_arith)
                    requires
                        whole == 0,
                ;
                assert(whole * w <= p.value() < (whole + 1) * w);
            }
        } else {
            let f: u128 = power_of_two((-60 - p.exp) as u32);
            whole = (p.man as u128) / f;
            sticky = (p.man as u128) % f != 0;
            proof {
                lemma_quotient_bounds(p.man as int, f as int);
                assert(whole * w <= p.value() < (whole + 1) * w) by (nonlinear_arith)
                    requires
                        p.value() == p.man * base,
                        w == base * f,
                        whole * f <= p.man < (whole + 1) * f,
                        base > 0,
                ;
                assert(p.man == whole * f <==> p.value() == whole * w) by (nonlinear_arith)
                    requires
                        p.value() == p.man * base,
                        w == base * f,
                        base > 0,
                ;
                assert(whole <= p.man) by (nonlinear_arith)
                    requires
                        whole * f <= p.man,
                        f >= 1,
                        whole >= 0,
                ;
                assert(p.man < pow2(126)) by {
                    lemma_pow2_grows(53, 126);
                }
            }
        }
        proof {
            lemma_pow2_unfold(127);
        }
    }
    assert(whole * w <= p.value() < (whole + 1) * w);
    assert(sticky <==> p.value() != whole * w);
    assert(whole <= 0x4000_0000_0000_0000_0000_0000_0000_0000int);
    let sum: i128 = l * 0x1000_0000_0000_0000 + whole as i128;
    proof {
        assert(l * unit() == (l * 0x1000_0000_0000_0000) * w) by (nonlinear_arith)
            requires
                unit() == 0x1000_0000_0000_0000 * w,
        ;
        assert(sum * w == (l * 0x1000_0000_0000_0000) * w + whole * w) by (nonlinear_arith)
            requires
                sum == l * 0x1000_0000_0000_0000 + whole,
        ;
        assert((whole + 1) * w == whole * w + w) by (nonlinear_arith);
        assert((sum + 1) * w == sum * w + w) by (nonlinear_arith);
    }
    assert(sum * w <= x < (sum + 1) * w);
    assert(sticky <==> x != sum * w);
    let negative: bool = sum < 0;
    let man: u128 = if !negative {
        sum as u128
    } else if sticky {
        (-(sum + 1)) as u128
    } else {
        (-sum) as u128
    };
    let ghost a = if negative {
        -x
    } else {
        x
    };
    proof {
        assert(negative ==> x < 0) by (nonlinear_arith)
            requires
                negative ==> sum + 1 <= 0,
                x < (sum + 1) * w,
                w > 0,
        ;
        assert(!negative ==> x >= 0) by (nonlinear_arith)
            requires
                !negative ==> sum >= 0,
                x >= sum * w,
                w > 0,
        ;
        assert((-sum) * w == -(sum * w)) by (nonlinear_arith);
        assert((-(sum + 1)) * w == -((sum + 1) * w)) by (nonlinear_arith);
        assert((-(sum + 1) + 1) * w == -(sum * w)) by (nonlinear_arith);
        assert((-sum + 1) * w == -(sum * w) + w) by (nonlinear_arith);
        assert(man * w <= a < (man + 1) * w);
        assert(sticky <==> a != man * w);
        assert(leads(a, 1, man as int, sticky, -60));
        assert(double_add(l * unit(), p.value()) == if negative {
            -nearest(a, 1)
        } else {
            nearest(a, 1)
        });
    }
    if man < 0x40_0000_0000_0000 {
        proof {
            let small = (0x20_0000_0000_0000 * pow2(1015)) as int;
            lemma_pow2_unfold(1015);
            assert(a * 1 <= small * 1) by (nonlinear_arith)
                requires
                    a < (man + 1) * w,
                    man + 1 <= 0x40_0000_0000_0000,
                    small == 0x40_0000_0000_0000 * w,
                    w > 0,
            ;
            lemma_nearest_monotone(a, 1, small, 1);
            lemma_nearest_exact(0x20_0000_0000_0000, 1015, 1);
            lemma_quotient(nearest(a, 1), unit(), 0);
        }
        return 0;
    }
    let m = Magnitude::round(man, sticky, -60);
    proof {
        // man is below 2^127, so the rounded value is at most 2^67.
        lemma_pow2_grows(127, 1074);
        assert(a * 1 <= (pow2(127) * w) * 1) by (nonlinear_arith)
            requires
                a < (man + 1) * w,
                man + 1 <= pow2(127),
                w > 0,
        ;
        lemma_nearest_monotone(a, 1, pow2(127) * w, 1);
        lemma_pow2_adds(127, 1014);
        lemma_pow2_adds(52, 1089);
        lemma_nearest_exact(0x10_0000_0000_0000, 1089, 1);
        if m.exp > 70 {
            lemma_pow2_grows(1090, (m.exp + 1074) as nat);
            lemma_pow2_unfold(1090);
            assert(m.value() > 0x10_0000_0000_0000 * pow2(1089)) by (nonlinear_arith)
                requires
                    m.value() == m.man * pow2((m.exp + 1074) as nat),
                    m.man >= 0x10_0000_0000_0000,
                    pow2((m.exp + 1074) as nat) >= 2 * pow2(1089),
                    pow2(1089) > 0,
            ;
        }
    }
    let t: u128 = m.trunc();
    proof {
        lemma_pow2_pos(1089);
        lemma_pow2_adds(67, 1074);
        lemma_pow2_53();
        lemma_pow2_grows(67, 126);
        lemma_pow2_unfold(127);
        assert(m.value() <= pow2(67) * unit());
        assert(pow2(67) * unit() < (pow2(67) + 1) * unit()) by (nonlinear_arith)
            requires
                unit() > 0,
        ;
        lemma_whole_part(m.value(), unit(), (pow2(67) + 1) as int);
        lemma_pow2_pos((m.exp + 1074) as nat);
        assert(m.value() > 0) by (nonlinear_arith)
            requires
                m.value() == m.man * pow2((m.exp + 1074) as nat),
                m.man > 0,
                pow2((m.exp + 1074) as nat) > 0,
        ;
    }
    if negative {
        saturate(-(t as i128))
    } else {
        saturate(t as i128)
    }
}

/// The significand and exponent of a positive whole number that binary64 holds.
fn to_magnitude(x: u128) -> (res: Magnitude)
    requires
        0 < x <= 0x1_0000_0000_0000_1000,
        nearest(x * unit(), 1) == x * unit(),
    ensures
        res.wf(),
        res.value() == x * unit(),
        -52 <= res.exp <= 12,
{
    proof {
        lemma_pow2_pos(1074);
        assert((x + 1) * (unit() * 1) == x * unit() + unit()) by (nonlinear_arith);
        assert(leads(x * unit(), 1, x as int, false, 0));
    }
    let res = Magnitude::round(x, false, 0);
    proof {
        lemma_pow2_53();
        vstd::arithmetic::power2::lemma2_to64();
        let v = res.value();
        assert(unit() <= v <= 0x1_0000_0000_0000_1000 * unit()) by (nonlinear_arith)
            requires
                v == x * unit(),
                1 <= x <= 0x1_0000_0000_0000_1000,
                unit() > 0,
        ;
        if res.exp < -52 {
            lemma_pow2_grows((res.exp + 1074) as nat, 1021);
            lemma_pow2_adds(1021, 53);
            lemma_pow2_pos((res.exp + 1074) as nat);
            assert(v < unit()) by (nonlinear_arith)
                requires
                    v == res.man * pow2((res.exp + 1074) as nat),
                    res.man < 0x20_0000_0000_0000,
                    0 < pow2((res.exp + 1074) as nat) <= pow2(1021),
                    unit() == pow2(1021) * 0x20_0000_0000_0000,
            ;
        }
        if res.exp > 12 {
            lemma_pow2_grows(1087, (res.exp + 1074) as nat);
            lemma_pow2_adds(13, 1074);
            assert(v > 0x1_0000_0000_0000_1000 * unit()) by (nonlinear_arith)
                requires
                    v == res.man * pow2((res.exp + 1074) as nat),
                    res.man >= 0x10_0000_0000_0000,
                    pow2((res.exp + 1074) as nat) >= 0x2000 * unit(),
                    unit() > 0,
            ;
        }
    }
    res
}

impl Magnitude {
    /// The rounded quotient of two numbers between `2^0` and `2^64`.
    fn divide(self, by: Magnitude) -> (res: Magnitude)
        requires
            self.wf(),
            by.wf(),
            -52 <= self.exp <= 12,
            -52 <= by.exp <= 12,
        ensures
            res.wf(),
            res.value() == double_div(self.value(), by.value()),
            -190 <= res.exp <= 190,
    {
        let n: u128 = (self.man as u128) * 0x1_0000_0000_0000_0000;
        let d: u128 = by.man as u128;
        let man: u128 = n / d;
        let sticky: bool = n % d != 0;
        let exp: i32 = self.exp - by.exp - 64;
        proof {
            lemma_pow2_53();
            lemma_quotient_bounds(n as int, d as int);
            assert(man >= 0x40_0000_0000_0000) by (nonlinear_arith)
                requires
                    n < (man + 1) * d,
                    n >= 0x10_0000_0000_0000 * 0x1_0000_0000_0000_0000,
                    d < 0x20_0000_0000_0000,
                    d > 0,
            ;
            assert(man <= n) by (nonlinear_arith)
                requires
                    man * d <= n,
                    d >= 1,
                    man >= 0,
            ;
            let a = self.value();
            let b = by.value();
            let p = pow2((exp + 1074) as nat) as int;
            let w = pow2((self.exp + 2084) as nat) as int;
            lemma_pow2_adds((exp + 1074) as nat, (by.exp + 1074) as nat);
            lemma_pow2_adds((self.exp + 1074) as nat, 1074);
            lemma_pow2_adds(64, (self.exp + 2084) as nat);
            vstd::arithmetic::power2::lemma2_to64();
            lemma_pow2_pos((self.exp + 2084) as nat);
            lemma_pow2_pos((by.exp + 1074) as nat);
            assert(p * b == d * w) by (nonlinear_arith)
                requires
                    b == d * pow2((by.exp + 1074) as nat),
                    w == p * pow2((by.exp + 1074) as nat),
            ;
            assert(a * unit() == n * w) by (nonlinear_arith)
                requires
                    a == self.man * pow2((self.exp + 1074) as nat),
                    pow2((self.exp + 2148) as nat) == pow2((self.exp + 1074) as nat) * unit(),
                    pow2((self.exp + 2148) as nat) == 0x1_0000_0000_0000_0000 * w,
                    n == self.man * 0x1_0000_0000_0000_0000,
            ;
            assert(b > 0) by (nonlinear_arith)
                requires
                    b == d * pow2((by.exp + 1074) as nat),
                    d > 0,
                    pow2((by.exp + 1074) as nat) > 0,
            ;
            assert(man * (d * w) <= n * w < (man + 1) * (d * w)) by (nonlinear_arith)
                requires
                    man * d <= n < (man + 1) * d,
                    w > 0,
            ;
            assert(sticky <==> n * w != man * (d * w)) by (nonlinear_arith)
                requires
                    sticky <==> n != man * d,
                    w > 0,
            ;
            assert(leads(a * unit(), b, man as int, sticky, exp as int));
        }
        let res = Magnitude::round(man, sticky, exp);
        proof {
            lemma_pow2_127();
            lemma_round_exponent(
                man as int,
                sticky,
                exp as int,
                res,
                self.value() * unit(),
                by.value(),
            );
        }
        res
    }

    /// The rounded product.
    fn multiply(self, by: Magnitude) -> (res: Magnitude)
        requires
            self.wf(),
            by.wf(),
            -190 <= self.exp <= 190,
            -52 <= by.exp <= 12,
        ensures
            res.wf(),
            res.value() == double_mul(self.value(), by.value()),
    {
        proof {
            lemma_pow2_53();
            assert(0 < self.man * by.man <= 0x20_0000_0000_0000 * 0x20_0000_0000_0000)
                by (nonlinear_arith)
                requires
                    0 < self.man <= 0x20_0000_0000_0000,
                    0 < by.man <= 0x20_0000_0000_0000,
            ;
        }
        let man: u128 = (self.man as u128) * (by.man as u128);
        let exp: i32 = self.exp + by.exp;
        proof {
            let a = self.value();
            let b = by.value();
            let p = pow2((exp + 1074) as nat) as int;
            lemma_pow2_adds((exp + 1074) as nat, 1074);
            lemma_pow2_adds((self.exp + 1074) as nat, (by.exp + 1074) as nat);
            lemma_pow2_pos((exp + 1074) as nat);
            lemma_pow2_pos(1074);
            assert(a * b == man * (p * unit())) by (nonlinear_arith)
                requires
                    a == self.man * pow2((self.exp + 1074) as nat),
                    b == by.man * pow2((by.exp + 1074) as nat),
                    pow2((exp + 2148) as nat) == pow2((self.exp + 1074) as nat) * pow2(
                        (by.exp + 1074) as nat,
                    ),
                    pow2((exp + 2148) as nat) == p * unit(),
                    man == self.man * by.man,
            ;
            assert(man * (p * unit()) < (man + 1) * (p * unit())) by (nonlinear_arith)
                requires
                    p > 0,
                    unit() > 0,
            ;
            assert(leads(a * b, unit(), man as int, false, exp as int));
        }
        Magnitude::round(man, false, exp)
    }
}

/// How far rounding moves the exponent.
proof fn lemma_round_exponent(man: int, sticky: bool, exp: int, res: Magnitude, n: int, d: int)
    requires
        0x40_0000_0000_0000 <= man < pow2(127),
        -190 + 52 <= exp <= 64,
        res.wf(),
        leads(n, d, man, sticky, exp),
        res.value() == nearest(n, d),
    ensures
        -190 <= res.exp <= 190,
{
    lemma_pow2_53();
    let t = (exp + 1074) as nat;
    let p = pow2(t) as int;
    lemma_pow2_pos(t);
    // Between 2^(53 + exp) and 2^(127 + exp).
    assert(pow2(53) * p * d <= n * 1 && n * 1 <= pow2(127) * p * d) by (nonlinear_arith)
        requires
            man * (p * d) <= n < (man + 1) * (p * d),
            pow2(53) <= man,
            man + 1 <= pow2(127),
            p > 0,
            d > 0,
    ;
    lemma_pow2_adds(52, 75);
    lemma_pow2_adds(75, t);
    assert(pow2(52) * pow2((75 + t) as nat) * d == pow2(127) * p * d) by (nonlinear_arith)
        requires
            pow2(127) == pow2(52) * pow2(75),
            pow2((75 + t) as nat) == pow2(75) * p,
    ;
    assert(pow2(53) * p * d * d <= n * d && n * d <= pow2(127) * p * d * d) by (nonlinear_arith)
        requires
            pow2(53) * p * d <= n,
            n <= pow2(127) * p * d,
            d > 0,
    ;
    lemma_nearest_monotone(pow2(53) * p * d, d, n, d);
    lemma_nearest_monotone(n, d, pow2(127) * p * d, d);
    lemma_nearest_exact(pow2(53) as int, t, d);
    lemma_nearest_exact(pow2(52) as int, (75 + t) as nat, d);
    if res.exp < exp {
        lemma_pow2_grows((res.exp + 1074) as nat, t);
        lemma_pow2_pos((res.exp + 1074) as nat);
        assert(res.value() < pow2(53) * p) by (nonlinear_arith)
            requires
                res.value() == res.man * pow2((res.exp + 1074) as nat),
                res.man < pow2(53),
                pow2((res.exp + 1074) as nat) <= p,
                p > 0,
        ;
    }
    if res.exp > exp + 75 {
        lemma_pow2_grows((76 + t) as nat, (res.exp + 1074) as nat);
        lemma_pow2_unfold((76 + t) as nat);
        lemma_pow2_pos((75 + t) as nat);
        assert(res.value() > pow2(52) * pow2((75 + t) as nat)) by (nonlinear_arith)
            requires
                res.value() == res.man * pow2((res.exp + 1074) as nat),
                res.man >= pow2(52),
                pow2((res.exp + 1074) as nat) >= 2 * pow2((75 + t) as nat),
                pow2((75 + t) as nat) > 0,
                pow2(52) == 0x10_0000_0000_0000,
        ;
    }
}

/// The `k`-th of `count` values evenly spaced between `l` and `r`, both left out, as binary64
/// arithmetic gives it: `l + (r - l) / (count + 1) * k`, cut to a whole number.
pub open spec fn interpolated(l: int, r: int, count: int, k: int) -> int {
    let step = double_div(
        double_sub(double_of(r), double_of(l)),
        double_add(double_of(count), double_of(1)),
    );
    double_to_i64(double_add(double_of(l), double_mul(step, double_of(k))))
}

/// Computes [`interpolated`].
pub fn interpolate(l: i64, r: i64, count: usize, k: usize) -> (res: i64)
    requires
        l <= r,
        k >= 1,
    ensures
        res == interpolated(l as int, r as int, count as int, k as int),
{
    let lw: i128 = whole_double(l);
    let rw: i128 = whole_double(r);
    proof {
        lemma_pow2_53();
        lemma_pow2_pos(1074);
        assert(l * unit() * 1 <= r * unit() * 1) by (nonlinear_arith)
            requires
                l <= r,
                unit() > 0,
        ;
        lemma_nearest_monotone(l * unit(), 1, r * unit(), 1);
        assert(lw <= rw) by (nonlinear_arith)
            requires
                lw * unit() <= rw * unit(),
                unit() > 0,
        ;
        assert(rw * unit() - lw * unit() == (rw - lw) * unit()) by (nonlinear_arith);
        lemma_nearest_idempotent(l * unit(), 1);
    }
    let diff: u128 = round_whole((rw - lw) as u128);
    let cw: u128 = round_whole(count as u128);
    proof {
        lemma_nearest_exact(1, 1074, 1);
        assert(cw * unit() + unit() == (cw + 1) * unit()) by (nonlinear_arith);
        assert(0 * unit() == 0);
    }
    let ghost parts = double_add(double_of(count as int), double_of(1));
    let ghost step = double_div(
        double_sub(double_of(r as int), double_of(l as int)),
        double_add(double_of(count as int), double_of(1)),
    );
    if diff == 0 {
        proof {
            lemma_positive_parts(count as int);
            lemma_nearest_zero(parts);
            lemma_nearest_zero(unit());
            assert(step == 0);
            assert(0 * double_of(k as int) == 0);
            lemma_whole_to_i64(lw as int);
        }
        return saturate(lw);
    }
    let pw: u128 = round_whole(cw + 1);
    let kw: u128 = round_whole(k as u128);
    proof {
        lemma_nearest_idempotent((rw - lw) * unit(), 1);
        lemma_nearest_idempotent((cw + 1) * unit(), 1);
        lemma_nearest_idempotent(k * unit(), 1);
    }
    let s: Magnitude = to_magnitude(diff).divide(to_magnitude(pw));
    let p: Magnitude = s.multiply(to_magnitude(kw));
    add_and_cut(lw, p)
}

/// No number with a significand of at most 53 binary digits is nearer to a magnitude than the one
/// that the magnitude is rounded to.
pub proof fn law_nothing_is_nearer(n: int, d: int, m: int, e: nat)
    requires
        d > 0,
        n >= 0,
        0 <= m <= pow2(53),
    ensures
        ({
            let x = nearest(n, d) * d;
            let y = m * pow2(e) * d;
            let off = if x < n {
                n - x
            } else {
                x - n
            };
            &&& y <= n ==> off <= n - y
            &&& y >= n ==> off <= y - n
        }),
{
    let f = spacing(n / d);
    let s = pow2(f) as int;
    let ds = d * s;
    lemma_pow2_pos(f);
    lemma_pow2_pos(e);
    assert(ds > 0) by (nonlinear_arith)
        requires
            d > 0,
            s > 0,
            ds == d * s,
    ;
    let q = n / ds;
    let r = n % ds;
    lemma_fundamental_div_mod(n, ds);
    let g = round_half_even(n, ds);
    let x = g * s * d;
    assert(x == g * ds && ds * q == q * ds && (q + 1) * ds == q * ds + ds) by (nonlinear_arith)
        requires
            ds == d * s,
            x == g * s * d,
    ;
    let off = if x < n {
        n - x
    } else {
        x - n
    };
    assert(off <= r && off <= ds - r);
    let v = m * pow2(e);
    let y = v * d;
    assert(v <= q * s || v >= (q + 1) * s) by {
        if e >= f {
            lemma_pow2_grows(f, e);
            let t = m * pow2((e - f) as nat);
            assert(v == t * s) by (nonlinear_arith)
                requires
                    v == m * pow2(e),
                    pow2(e) == s * pow2((e - f) as nat),
                    t == m * pow2((e - f) as nat),
            ;
            assert(t <= q ==> t * s <= q * s) by (nonlinear_arith)
                requires
                    s > 0,
            ;
            assert(t >= q + 1 ==> t * s >= (q + 1) * s) by (nonlinear_arith)
                requires
                    s > 0,
            ;
        } else {
            lemma_spacing_bounds(n, d);
            lemma_pow2_adds(52, f);
            lemma_pow2_53();
            lemma_pow2_grows(e, f);
            lemma_pow2_grows(1, (f - e) as nat);
            vstd::arithmetic::power2::lemma2_to64();
            let h = pow2((f - e) as nat) as int;
            assert(n >= 0x10_0000_0000_0000 * ds) by (nonlinear_arith)
                requires
                    n >= pow2((52 + f) as nat) * d,
                    pow2((52 + f) as nat) == pow2(52) * s,
                    pow2(52) == 0x10_0000_0000_0000,
                    ds == d * s,
            ;
            assert(q >= 0x10_0000_0000_0000) by (nonlinear_arith)
                requires
                    n >= 0x10_0000_0000_0000 * ds,
                    n == q * ds + r,
                    r < ds,
                    ds > 0,
            ;
            assert(v <= q * s) by (nonlinear_arith)
                requires
                    v == m * pow2(e),
                    m <= 0x20_0000_0000_0000,
                    s == pow2(e) * h,
                    h >= 2,
                    pow2(e) > 0,
                    q >= 0x10_0000_0000_0000,
            ;
        }
    }
    assert(v <= q * s ==> y <= q * ds) by (nonlinear_arith)
        requires
            y == v * d,
            ds == d * s,
            d > 0,
    ;
    assert(v >= (q + 1) * s ==> y >= (q + 1) * ds) by (nonlinear_arith)
        requires
            y == v * d,
            ds == d * s,
            d > 0,
    ;
}

/// Numbers below zero are rounded as those above, and cutting goes towards zero on both sides: what
/// is left after the whole part is dropped.
pub proof fn law_same_on_both_sides_of_zero(n: int, d: int, whole: int, rest: int)
    requires
        n > 0,
        0 <= whole <= i64::MAX,
        0 <= rest < unit(),
    ensures
        nearest(-n, d) == -nearest(n, d),
        double_to_i64(whole * unit() + rest) == whole,
        double_to_i64(-(whole * unit() + rest)) == -whole,
{
    lemma_pow2_pos(1074);
    let a = whole * unit() + rest;
    assert(a >= 0) by (nonlinear_arith)
        requires
            a == whole * unit() + rest,
            whole >= 0,
            rest >= 0,
            unit() > 0,
    ;
    lemma_fundamental_div_mod_converse(a, unit(), whole, rest);
}

/// Whole numbers of magnitude up to `2^53` are binary64 numbers.
proof fn lemma_small_double(x: int)
    requires
        -0x20_0000_0000_0000 <= x <= 0x20_0000_0000_0000,
    ensures
        nearest(x * unit(), 1) == x * unit(),
        double_of(x) == x * unit(),
{
    lemma_pow2_53();
    lemma_pow2_pos(1074);
    assert((-x) * unit() == -(x * unit())) by (nonlinear_arith);
    assert(x < 0 <==> x * unit() < 0) by (nonlinear_arith)
        requires
            unit() > 0,
    ;
    if x < 0 {
        lemma_nearest_exact(-x, 1074, 1);
    } else {
        lemma_nearest_exact(x, 1074, 1);
    }
}

/// Where whole numbers divide the way between two neighbours evenly, the values between them are
/// these numbers.
pub proof fn law_even_spacing_is_exact(l: int, s: int, count: int, k: int)
    requires
        s >= 0,
        1 <= k <= count < 0x20_0000_0000_0000,
        -0x20_0000_0000_0000 <= l,
        l + (count + 1) * s <= 0x20_0000_0000_0000,
        (count + 1) * s <= 0x20_0000_0000_0000,
    ensures
        interpolated(l, l + (count + 1) * s, count, k) == l + k * s,
{
    lemma_pow2_53();
    lemma_pow2_pos(1074);
    let u = unit();
    let way = (count + 1) * s;
    let r = l + way;
    assert(0 <= k * s <= way && s <= way) by (nonlinear_arith)
        requires
            s >= 0,
            1 <= k <= count,
            way == (count + 1) * s,
    ;
    lemma_small_double(l);
    lemma_small_double(r);
    lemma_small_double(way);
    lemma_small_double(count);
    lemma_small_double(1);
    lemma_small_double(count + 1);
    lemma_small_double(k);
    lemma_small_double(l + k * s);
    assert(r * u - l * u == way * u) by (nonlinear_arith)
        requires
            r == l + way,
    ;
    assert(count * u + 1 * u == (count + 1) * u) by (nonlinear_arith);
    let m = (count + 1) * u;
    assert(m > 0) by (nonlinear_arith)
        requires
            m == (count + 1) * u,
            count >= 1,
            u > 0,
    ;
    assert((way * u) * u == s * u * m) by (nonlinear_arith)
        requires
            way == (count + 1) * s,
            m == (count + 1) * u,
    ;
    lemma_nearest_exact(s, 1074, m);
    assert((s * u) * (k * u) == (k * s) * u * u) by (nonlinear_arith);
    lemma_nearest_exact(k * s, 1074, u);
    assert(l * u + (k * s) * u == (l + k * s) * u) by (nonlinear_arith);
    lemma_whole_to_i64(l + k * s);
}

/// Cutting to a whole number keeps order.
pub proof fn lemma_to_i64_monotone(a: int, b: int)
    requires
        a <= b,
    ensures
        double_to_i64(a) <= double_to_i64(b),
{
    lemma_pow2_pos(1074);
    if a < 0 {
        lemma_whole_part(-a, unit(), 0);
        if b < 0 {
            lemma_quotient_bounds(-b, unit());
            lemma_whole_part(-a, unit(), (-b) / unit());
        } else {
            lemma_whole_part(b, unit(), 0);
        }
    } else {
        lemma_quotient_bounds(a, unit());
        lemma_whole_part(b, unit(), a / unit());
    }
}

/// The spacing of `count` values is small enough that the last one stays short of the end.
proof fn lemma_last_step(gap: int, d: int, step: int, p: int, count: int, k: int)
    requires
        unit() > 0,
        gap >= 0,
        0 <= k <= count <= 0x8_0000_0000_0000,
        d * 1 * pow2(53) <= gap * (pow2(53) + 1),
        step * ((count + 1) * unit()) * pow2(53) <= d * unit() * (pow2(53) + 1),
        p * unit() * pow2(53) <= step * (k * unit()) * (pow2(53) + 1),
        step >= 0,
    ensures
        p <= gap,
{
    lemma_pow2_53();
    let t = 0x20_0000_0000_0000int;
    let u = unit();
    assert(step * (count + 1) * t <= d * (t + 1)) by (nonlinear_arith)
        requires
            step * ((count + 1) * u) * t <= d * u * (t + 1),
            u > 0,
    ;
    assert(p * t <= step * k * (t + 1)) by (nonlinear_arith)
        requires
            p * u * t <= step * (k * u) * (t + 1),
            u > 0,
    ;
    let c1 = count + 1;
    let t1 = t + 1;
    // All three roundings together.
    let x = step * c1 * t;
    assert((p * t) * (c1 * t) <= (k * t1) * x) by (nonlinear_arith)
        requires
            p * t <= step * k * t1,
            x == step * c1 * t,
            c1 > 0,
            t > 0,
    ;
    assert(k * t1 >= 0) by (nonlinear_arith)
        requires
            k >= 0,
            t1 > 0,
    ;
    assert((k * t1) * x <= (k * t1) * (d * t1)) by (nonlinear_arith)
        requires
            x <= d * t1,
            k * t1 >= 0,
    ;
    assert((k * t1) * (d * t1) * t <= (k * t1) * t1 * (gap * t1)) by (nonlinear_arith)
        requires
            d * t <= gap * t1,
            k * t1 >= 0,
            t1 > 0,
    ;
    assert((p * t) * (c1 * t) * t <= (k * t1) * t1 * (gap * t1)) by (nonlinear_arith)
        requires
            (p * t) * (c1 * t) <= (k * t1) * (d * t1),
            (k * t1) * (d * t1) * t <= (k * t1) * t1 * (gap * t1),
            t > 0,
    ;
    let left = c1 * (t * t * t);
    let right = k * (t1 * t1 * t1);
    assert((p * t) * (c1 * t) * t == p * left) by (nonlinear_arith)
        requires
            left == c1 * (t * t * t),
    ;
    assert((k * t1) * t1 * (gap * t1) == gap * right) by (nonlinear_arith)
        requires
            right == k * (t1 * t1 * t1),
    ;
    let cube = t * t * t;
    let cube1 = t1 * t1 * t1;
    assert(cube1 - cube <= 4 * (t * t)) by (nonlinear_arith)
        requires
            cube == t * t * t,
            cube1 == t1 * t1 * t1,
            t1 == t + 1,
            t == 0x20_0000_0000_0000,
    ;
    assert(count * (4 * (t * t)) <= cube) by (nonlinear_arith)
        requires
            count <= 0x8_0000_0000_0000,
            t == 0x20_0000_0000_0000,
            cube == t * t * t,
    ;
    assert(right <= left) by (nonlinear_arith)
        requires
            right == k * cube1,
            left == (count + 1) * cube,
            cube1 - cube <= 4 * (t * t),
            count * (4 * (t * t)) <= cube,
            0 <= k <= count,
            cube > 0,
    ;
    assert(left > 0) by (nonlinear_arith)
        requires
            left == (count + 1) * cube,
            count >= 0,
            cube > 0,
    ;
    assert(right >= 0) by (nonlinear_arith)
        requires
            right == k * cube1,
            k >= 0,
            cube1 >= 0,
    ;
    assert(p <= gap) by (nonlinear_arith)
        requires
            p * left <= gap * right,
            0 <= right <= left,
            left > 0,
            gap >= 0,
    ;
}

/// The values between two neighbours rise from the one to the other.
pub proof fn lemma_interpolated_order(l: int, r: int, count: int, k1: int, k2: int)
    requires
        i64::MIN <= l <= r <= i64::MAX,
        1 <= k1 <= k2 <= count <= 0x8_0000_0000_0000,
    ensures
        stored(l) <= interpolated(l, r, count, k1) <= interpolated(l, r, count, k2) <= stored(r),
{
    lemma_pow2_53();
    lemma_pow2_pos(1074);
    let u = unit();
    let lo = double_of(l);
    let hi = double_of(r);
    assert(l * u * 1 <= r * u * 1) by (nonlinear_arith)
        requires
            l <= r,
            u > 0,
    ;
    lemma_nearest_monotone(l * u, 1, r * u, 1);
    lemma_nearest_idempotent(l * u, 1);
    lemma_nearest_idempotent(r * u, 1);
    let gap = hi - lo;
    let d = double_sub(hi, lo);
    lemma_nearest_exact(1, 1074, 1);
    lemma_nearest_exact(count, 1074, 1);
    lemma_nearest_exact(count + 1, 1074, 1);
    lemma_nearest_exact(k1, 1074, 1);
    lemma_nearest_exact(k2, 1074, 1);
    assert(count * u + u == (count + 1) * u) by (nonlinear_arith);
    let m = (count + 1) * u;
    assert(m > 0) by (nonlinear_arith)
        requires
            m == (count + 1) * u,
            count >= 1,
            u > 0,
    ;
    lemma_nearest_monotone(0, 1, gap, 1);
    lemma_nearest_zero(1);
    assert(d >= 0);
    assert(0 * m <= d * u * 1) by (nonlinear_arith)
        requires
            d >= 0,
            u > 0,
    ;
    let step = double_div(d, m);
    lemma_nearest_monotone(0, 1, d * u, m);
    assert(step >= 0);
    let p1 = double_mul(step, k1 * u);
    let p2 = double_mul(step, k2 * u);
    assert(0 <= step * (k1 * u) <= step * (k2 * u)) by (nonlinear_arith)
        requires
            step >= 0,
            1 <= k1 <= k2,
            u > 0,
    ;
    assert(step * (k1 * u) * u <= step * (k2 * u) * u) by (nonlinear_arith)
        requires
            step * (k1 * u) <= step * (k2 * u),
            u > 0,
    ;
    lemma_nearest_monotone(step * (k1 * u), u, step * (k2 * u), u);
    assert(p1 >= 0);
    assert(p2 <= gap) by {
        if gap == 0 {
            assert(d == 0);
            assert(0 * u == 0);
            lemma_nearest_zero(m);
            assert(step == 0);
            assert(0 * (k2 * u) == 0);
            lemma_nearest_zero(u);
        } else {
            lemma_large_steps(l, r, count, k2);
            lemma_nearest_excess(gap, 1);
            lemma_nearest_excess(d * u, m);
            lemma_nearest_excess(step * (k2 * u), u);
            lemma_last_step(gap, d, step, p2, count, k2);
        }
    }
    lemma_nearest_monotone(lo, 1, lo + p1, 1);
    lemma_nearest_monotone(lo + p1, 1, lo + p2, 1);
    lemma_nearest_monotone(lo + p2, 1, hi, 1);
    lemma_to_i64_monotone(lo, double_add(lo, p1));
    lemma_to_i64_monotone(double_add(lo, p1), double_add(lo, p2));
    lemma_to_i64_monotone(double_add(lo, p2), hi);
}

/// None of the intermediate values is anywhere near the subnormal range.
proof fn lemma_large_steps(l: int, r: int, count: int, k: int)
    requires
        i64::MIN <= l <= r <= i64::MAX,
        double_of(l) < double_of(r),
        1 <= k <= count <= 0x8_0000_0000_0000,
    ensures
        ({
            let gap = double_of(r) - double_of(l);
            let d = double_sub(double_of(r), double_of(l));
            let m = (count + 1) * unit();
            let step = double_div(d, m);
            &&& gap >= pow2(52) * 1
            &&& d * unit() >= pow2(52) * m
            &&& step * (k * unit()) >= pow2(52) * unit()
        }),
{
    lemma_pow2_53();
    lemma_pow2_pos(1074);
    let u = unit();
    let t = pow2(53) as int;
    let big = pow2(1021) as int;
    lemma_pow2_adds(1021, 53);
    lemma_pow2_grows(52, 1021);
    let gap = double_of(r) - double_of(l);
    let d = double_sub(double_of(r), double_of(l));
    let m = (count + 1) * u;
    let step = double_div(d, m);
    lemma_double_of_whole(l);
    lemma_double_of_whole(r);
    let lw = choose|w: int| double_of(l) == #[trigger] (w * u);
    let rw = choose|w: int| double_of(r) == #[trigger] (w * u);
    assert(gap >= u) by (nonlinear_arith)
        requires
            gap == rw * u - lw * u,
            gap > 0,
            u > 0,
    ;
    lemma_nearest_exact(1, 1074, 1);
    lemma_nearest_monotone(u, 1, gap, 1);
    assert(d >= u);
    assert(u >= pow2(52));
    assert(d * u >= big * m && big * m >= pow2(52) * m) by (nonlinear_arith)
        requires
            d >= u,
            u == big * t,
            m == (count + 1) * u,
            0 <= count + 1 <= t,
            u > 0,
            big >= pow2(52),
    ;
    assert(big * m * m <= d * u * m) by (nonlinear_arith)
        requires
            d * u >= big * m,
            m == (count + 1) * u,
            count >= 1,
            u > 0,
    ;
    assert(m > 0) by (nonlinear_arith)
        requires
            m == (count + 1) * u,
            count >= 1,
            u > 0,
    ;
    lemma_nearest_monotone(big * m, m, d * u, m);
    lemma_nearest_exact(1, 1021, m);
    assert(step >= big);
    assert(step * (k * u) >= pow2(52) * u) by (nonlinear_arith)
        requires
            step >= big,
            big >= pow2(52),
            k >= 1,
            u > 0,
    ;
}

/// The largest and the smallest `i64` come back as they are.
proof fn lemma_stored_ends()
    ensures
        stored(i64::MAX as int) == i64::MAX,
        stored(i64::MIN as int) == i64::MIN,
{
    lemma_pow2_53();
    lemma_pow2_pos(1074);
    vstd::arithmetic::power2::lemma2_to64();
    let u = unit();
    let top = 0x8000_0000_0000_0000int;
    // Below 2^63 the spacing is 2^10.
    let n = i64::MAX * u;
    lemma_pow2_adds(10, 1074);
    lemma_pow2_adds(53, 1084);
    lemma_pow2_adds(52, 1084);
    let step = pow2(1084) as int;
    assert(step == 0x400 * u);
    assert(n == top * u - u) by (nonlinear_arith)
        requires
            n == i64::MAX * u,
            top == i64::MAX + 1,
    ;
    assert(pow2(1137) == top * u);
    assert(pow2(1136) == 0x4000_0000_0000_0000int * u);
    lemma_nearest_at(n, 1, 1084);
    let q = 0x1F_FFFF_FFFF_FFFFint;
    assert(q * step <= n < (q + 1) * step);
    lemma_quotient(n, step, q);
    assert(round_half_even(n, step) == q + 1);
    assert(double_of(i64::MAX as int) == top * u);
    lemma_whole_to_i64(top);
    // The other end is a power of two.
    lemma_pow2_adds(11, 1074);
    lemma_nearest_exact(0x10_0000_0000_0000, 1085, 1);
    assert(0x10_0000_0000_0000 * pow2(1085) == top * u);
    assert((-top) * u == -(top * u)) by (nonlinear_arith);
    assert(double_of(-top) == (-top) * u);
    lemma_whole_to_i64(-top);
}

/// What a binary64 number is cut to comes back as it is from binary64.
pub proof fn law_cut_is_stored_exactly(n: int, d: int)
    requires
        d > 0,
    ensures
        stored(double_to_i64(nearest(n, d))) == double_to_i64(nearest(n, d)),
{
    let a = if n < 0 {
        -n
    } else {
        n
    };
    let e = spacing(a / d);
    let s = pow2(e) as int;
    lemma_pow2_pos(e);
    lemma_pow2_pos(1074);
    lemma_pow2_53();
    lemma_spacing_bounds(a, d);
    lemma_pow2_adds(53, e);
    let ds = d * s;
    assert(ds > 0) by (nonlinear_arith)
        requires
            d > 0,
            s > 0,
            ds == d * s,
    ;
    assert(a <= pow2(53) * ds) by (nonlinear_arith)
        requires
            a < pow2(53 + e) * d,
            pow2(53 + e) == pow2(53) * s,
            ds == d * s,
    ;
    assert(0 * ds <= a);
    lemma_round_bounds(a, ds, 0, pow2(53) as int);
    let g = round_half_even(a, ds);
    let x = nearest(n, d);
    let mag = g * s;
    assert(0 <= mag) by (nonlinear_arith)
        requires
            g >= 0,
            s > 0,
            mag == g * s,
    ;
    assert(x == mag || x == -mag);
    let u = unit();
    if e >= 1074 {
        // A whole number.
        lemma_pow2_adds(1074, (e - 1074) as nat);
        let w = g * pow2((e - 1074) as nat);
        assert(mag == w * u) by (nonlinear_arith)
            requires
                mag == g * s,
                s == u * pow2((e - 1074) as nat),
                w == g * pow2((e - 1074) as nat),
        ;
        let v = if x == mag {
            w
        } else {
            -w
        };
        assert((-w) * u == -(w * u)) by (nonlinear_arith);
        assert(x == v * u);
        lemma_whole_to_i64(v);
        lemma_nearest_idempotent(n, d);
        lemma_stored_ends();
    } else {
        // Below 2^53.
        lemma_pow2_grows(e, 1074);
        assert(mag <= pow2(53) * u) by (nonlinear_arith)
            requires
                mag == g * s,
                0 <= g <= pow2(53),
                0 < s <= u,
        ;
        let w = mag / u;
        lemma_quotient_bounds(mag, u);
        lemma_whole_part(mag, u, 0);
        assert((pow2(53) + 1) * u == pow2(53) * u + u) by (nonlinear_arith);
        lemma_whole_part(mag, u, pow2(53) as int + 1);
        if x < 0 {
            law_stored_exact(-w);
        } else {
            law_stored_exact(w);
        }
    }
}

/// The number nearest to a whole number is a whole number.
proof fn lemma_double_of_whole(x: int)
    requires
        i64::MIN <= x <= i64::MAX,
    ensures
        exists|w: int| double_of(x) == #[trigger] (w * unit()),
{
    lemma_pow2_pos(1074);
    let u = unit();
    let a = if x < 0 {
        -x
    } else {
        x
    };
    assert((-x) * u == -(x * u)) by (nonlinear_arith);
    assert(x < 0 <==> x * u < 0) by (nonlinear_arith)
        requires
            u > 0,
    ;
    lemma_double_of_whole_magnitude(a);
    let w = choose|w: int| nearest_magnitude(a * u, 1) == #[trigger] (w * u);
    assert((-w) * u == -(w * u)) by (nonlinear_arith);
    assert(double_of(x) == w * u || double_of(x) == (-w) * u);
}

proof fn lemma_double_of_whole_magnitude(a: int)
    requires
        a >= 0,
    ensures
        exists|w: int| nearest_magnitude(a * unit(), 1) == #[trigger] (w * unit()),
{
    lemma_pow2_pos(1074);
    lemma_pow2_53();
    let u = unit();
    if a <= pow2(53) {
        lemma_nearest_exact(a, 1074, 1);
        assert(a * u >= 0) by (nonlinear_arith)
            requires
                a >= 0,
                u > 0,
        ;
        assert(nearest_magnitude(a * u, 1) == a * u);
    } else {
        let n = a * u;
        assert(n >= pow2(53) * u) by (nonlinear_arith)
            requires
                a >= pow2(53),
                u > 0,
                n == a * u,
        ;
        lemma_pow2_adds(53, 1074);
        lemma_bit_len_bounds(n);
        assert(n / 1 == n);
        let e = spacing(n);
        if bit_len(n) <= 1127 {
            lemma_pow2_grows(bit_len(n), 1127);
        }
        assert(e >= 1074);
        lemma_pow2_adds(1074, (e - 1074) as nat);
        let g = round_half_even(n, pow2(e) as int);
        let w = g * pow2((e - 1074) as nat);
        assert(g * pow2(e) == w * u) by (nonlinear_arith)
            requires
                pow2(e) == u * pow2((e - 1074) as nat),
                w == g * pow2((e - 1074) as nat),
        ;
    }
}

proof fn lemma_nearest_zero(d: int)
    requires
        d > 0,
    ensures
        nearest(0, d) == 0,
{
    lemma_nearest_exact(0, 0, d);
    assert(0 * pow2(0) * d == 0) by (nonlinear_arith);
}

proof fn lemma_positive_parts(count: int)
    requires
        count >= 0,
    ensures
        double_add(double_of(count), double_of(1)) >= unit(),
        unit() > 0,
{
    lemma_pow2_pos(1074);
    lemma_pow2_53();
    lemma_nearest_exact(1, 1074, 1);
    assert(0 * 1 <= count * unit() * 1) by (nonlinear_arith)
        requires
            count >= 0,
            unit() > 0,
    ;
    lemma_nearest_monotone(0, 1, count * unit(), 1);
    lemma_nearest_zero(1);
    let c = double_of(count);
    lemma_nearest_monotone(unit(), 1, c + unit(), 1);
}

proof fn lemma_pow2_127()
    ensures
        pow2(127) == 0x8000_0000_0000_0000_0000_0000_0000_0000int,
{
    lemma_pow2_53();
    lemma_pow2_adds(63, 64);
    vstd::arithmetic::power2::lemma2_to64();
}

proof fn lemma_pow2_75()
    ensures
        pow2(75) == 0x800_0000_0000_0000_0000int,
{
    lemma_pow2_53();
    lemma_pow2_adds(15, 60);
    vstd::arithmetic::power2::lemma2_to64();
}

} // verus!
