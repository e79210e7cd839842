//! Shaping a reading by a curve, with the roundings of single-precision arithmetic.
//!
//! A reading becomes a fraction of full scale, the fraction is bent by a curve, and the result is
//! spread over 0..=127. Each of these steps rounds to the 24 significant bits of an IEEE 754
//! single, to the nearest and to an even last bit where two are equally near. A value is held
//! as a whole number of 24 bits over a power of two, so that every step is exact integer
//! arithmetic.
use vstd::arithmetic::power2::{
    lemma2_to64, lemma2_to64_rest, lemma_pow2_adds, lemma_pow2_pos, lemma_pow2_strictly_increases,
    lemma_pow2_unfold, pow2,
};
use vstd::prelude::*;

verus! {

/// How a reading is bent.
#[derive(Debug, Clone, Copy, PartialEq, Eq, Structural)]
pub enum Bend {
    /// Left straight.
    Straight,
    /// Square root: lifts the low end.
    Root,
    /// Square: pushes the low end down.
    Square,
}

/// The value `m / 2^k`, with `m` of 24 bits (or exactly `2^24`) where it is not zero.
pub struct Single {
    pub m: u64,
    pub k: u64,
}

/// The model of a [`Single`].
pub struct Value {
    pub m: nat,
    pub k: nat,
}

impl View for Single {
    type V = Value;

    open spec fn view(&self) -> Value {
        Value { m: self.m as nat, k: self.k as nat }
    }
}

/// `2^23`, the least 24-bit number.
pub const LEAST: u64 = 0x80_0000;

/// The whole number nearest to `n / d`, the even one of two that are equally near.
pub open spec fn half_even(n: nat, d: nat) -> nat {
    let q = n / d;
    let r = n % d;
    if 2 * r < d || (2 * r == d && q % 2 == 0) {
        q
    } else {
        q + 1
    }
}

/// `n / d`, rounded to 24 bits, over the power of two that makes it so. `k` counts the doublings
/// made so far.
pub open spec fn quotient(n: nat, d: nat, k: nat) -> Value
    decreases
            (if n < d * LEAST {
                d * LEAST - n
            } else {
                0
            }),
{
    if n == 0 || n >= d * LEAST {
        Value { m: half_even(n, d), k }
    } else {
        quotient(2 * n, d, k + 1)
    }
}

/// The square of a value, rounded to 24 bits.
pub open spec fn square(x: Value) -> Value {
    let p = x.m * x.m;
    if p < 0x8000_0000_0000 {
        Value { m: half_even(p, 0x80_0000), k: (2 * x.k - 23) as nat }
    } else {
        Value { m: half_even(p, 0x100_0000), k: (2 * x.k - 24) as nat }
    }
}

/// `r` is the whole number nearest to the square root of `q`.
pub open spec fn is_root(q: nat, r: nat) -> bool {
    r * r < q + r && q <= r * r + r
}

pub open spec fn nearest_root(q: nat) -> nat {
    choose|r: nat| is_root(q, r)
}

/// The square root of a value above zero, rounded to 24 bits.
pub open spec fn root(x: Value) -> Value {
    if x.k % 2 == 1 {
        Value { m: nearest_root(x.m * 0x80_0000), k: (x.k + 23) / 2 }
    } else {
        Value { m: nearest_root(x.m * 0x100_0000), k: (x.k + 24) / 2 }
    }
}

/// 127 times a value, rounded to 24 bits.
pub open spec fn times_127(x: Value) -> Value {
    let p = x.m * 127;
    if p < 0x4000_0000 {
        Value { m: half_even(p, 64), k: (x.k - 6) as nat }
    } else {
        Value { m: half_even(p, 128), k: (x.k - 7) as nat }
    }
}

/// The whole number nearest to a value, upwards from one half.
pub open spec fn rounded(x: Value) -> nat {
    (2 * x.m + pow2(x.k)) / (2 * pow2(x.k))
}

/// A value bent by a curve.
pub open spec fn bent(x: Value, bend: Bend) -> Value {
    match bend {
        Bend::Straight => x,
        Bend::Root => root(x),
        Bend::Square => square(x),
    }
}

/// The reading `raw` out of `full`, bent and spread over 0..=127.
pub open spec fn shaped(raw: nat, full: nat, bend: Bend) -> nat {
    if raw == 0 {
        0
    } else {
        rounded(times_127(bent(quotient(raw, full, 0), bend)))
    }
}

fn pow2_of(k: u64) -> (r: u64)
    requires
        k < 63,
    ensures
        r == pow2(k as nat),
        r > 0,
        r <= 0x4000_0000_0000_0000,
{
    let mut r: u64 = 1;
    let mut i: u64 = 0;
    proof {
        lemma2_to64();
    }
    while i < k
        invariant
            i <= k < 63,
            r == pow2(i as nat),
            0 < r <= 0x4000_0000_0000_0000,
        decreases k - i,
    {
        proof {
            lemma_pow2_unfold((i + 1) as nat);
            if i + 1 < 62 {
                lemma_pow2_strictly_increases((i + 1) as nat, 62);
            }
            lemma2_to64_rest();
        }
        r = r * 2;
        i += 1;
    }
    r
}

fn half_even_of(n: u64, d: u64) -> (r: u64)
    requires
        d > 1,
        d < 0x8000_0000_0000_0000,
    ensures
        r == half_even(n as nat, d as nat),
{
    let q: u64 = n / d;
    let r: u64 = n % d;
    assert(q < u64::MAX) by (nonlinear_arith)
        requires
            q == n / d,
            d > 1,
            n <= u64::MAX,
    ;
    if 2 * r < d || (2 * r == d && q % 2 == 0) {
        q
    } else {
        q + 1
    }
}

/// At most one number is nearest to a square root.
proof fn lemma_root_unique(q: nat, r: nat)
    requires
        is_root(q, r),
    ensures
        nearest_root(q) == r,
{
    let s = nearest_root(q);
    assert(is_root(q, s));
    lemma_root_monotone(q, r, q, s);
    lemma_root_monotone(q, s, q, r);
}

/// A larger number has no smaller root.
proof fn lemma_root_monotone(q: nat, r: nat, p: nat, s: nat)
    requires
        is_root(q, r),
        is_root(p, s),
        q <= p,
    ensures
        r <= s,
{
    if r > s {
        assert(r * r - r >= s * s + s) by (nonlinear_arith)
            requires
                r >= s + 1,
                s >= 0,
        ;
    }
}

/// One of the powers of two up to `2^25`.
spec fn is_power(n: nat) -> bool {
    exists|k: nat| #[trigger] pow2(k) == n
}

proof fn lemma_power_halves(n: nat)
    requires
        is_power(n),
        n > 1,
    ensures
        n % 2 == 0,
        is_power(n / 2),
{
    let k = choose|k: nat| #[trigger] pow2(k) == n;
    lemma2_to64();
    if k == 0 {
        assert(false);
    }
    lemma_pow2_unfold(k);
    assert(pow2((k - 1) as nat) == n / 2);
}

fn root_of(q: u64) -> (r: u64)
    requires
        0 < q <= 0x1_0000_0000_0000,
    ensures
        is_root(q as nat, r as nat),
        r == nearest_root(q as nat),
        r <= 0x100_0000,
{
    let mut r: u64 = 0;
    let mut bit: u64 = 0x200_0000;
    proof {
        lemma2_to64();
        assert(pow2(25) == 0x200_0000);
    }
    while bit > 1
        invariant
            is_power(bit as nat),
            0 < bit <= 0x200_0000,
            r <= 0x100_0000,
            r * r <= q < (r + bit) * (r + bit),
            q <= 0x1_0000_0000_0000,
        decreases bit,
    {
        let half: u64 = bit / 2;
        proof {
            lemma_power_halves(bit as nat);
        }
        let c: u64 = r + half;
        assert(c * c <= 0x200_0000 * 0x200_0000) by (nonlinear_arith)
            requires
                0 <= c <= 0x200_0000,
        ;
        if c * c <= q {
            assert(c <= 0x100_0000) by (nonlinear_arith)
                requires
                    c * c <= 0x1_0000_0000_0000,
            ;
            r = c;
        }
        bit = half;
    }
    assert(r * r <= q);
    let n: u64 = if q - r * r > r {
        r + 1
    } else {
        r
    };
    proof {
        assert(r > 0 || q < 1) by (nonlinear_arith)
            requires
                q < (r + 1) * (r + 1),
        ;
        assert(is_root(q as nat, n as nat)) by (nonlinear_arith)
            requires
                r > 0,
                r * r <= q < (r + 1) * (r + 1),
                n == (if q - r * r > r { (r + 1) as int } else { r as int }),
        ;
        assert(n <= 0x100_0000) by (nonlinear_arith)
            requires
                n * n < q + n,
                q <= 0x1_0000_0000_0000,
        ;
        lemma_root_unique(q as nat, n as nat);
    }
    n
}

fn quotient_of(n: u64, d: u64) -> (r: Single)
    requires
        0 < n <= d <= 0xffff,
    ensures
        r@ == quotient(n as nat, d as nat, 0),
        r.m <= 0x100_0000,
        r.m > 0,
        23 <= r.k < 40,
{
    let mut num: u64 = n;
    let mut k: u64 = 0;
    proof {
        lemma2_to64();
    }
    while num < d * LEAST
        invariant
            0 < n <= d <= 0xffff,
            quotient(num as nat, d as nat, k as nat) == quotient(n as nat, d as nat, 0),
            num == n * pow2(k as nat),
            num < 2 * d * LEAST,
            k < 40,
        decreases 2 * d * LEAST - num,
    {
        proof {
            lemma_pow2_unfold((k + 1) as nat);
            let p = pow2(k as nat);
            assert(2 * (n * p) == n * (2 * p)) by (nonlinear_arith);
            assert(n * p >= p) by (nonlinear_arith)
                requires
                    n >= 1,
                    p >= 0,
            ;
            lemma2_to64();
            lemma2_to64_rest();
            if k >= 39 {
                assert(pow2(39) == 0x80_0000_0000);
            }
        }
        num = num * 2;
        k += 1;
    }
    proof {
        let p = pow2(k as nat);
        if k < 23 {
            lemma2_to64();
            lemma_pow2_strictly_increases(k as nat, 23);
            assert(pow2(23) == 0x80_0000);
            assert(n * p < d * LEAST) by (nonlinear_arith)
                requires
                    0 < n <= d,
                    0 <= p < LEAST,
            ;
        }
        assert(LEAST * d <= num <= 2 * LEAST * d);
        lemma_half_even_range(num as nat, d as nat, LEAST as nat);
    }
    if d == 1 {
        assert(half_even(num as nat, 1) == num) by {
            assert(num as nat % 1 == 0);
            assert(num as nat / 1 == num);
        }
        return Single { m: num, k };
    }
    let m = half_even_of(num, d);
    Single { m, k }
}

/// A number of at least `l` and at most twice that many times `d` rounds to between `l` and `2 * l`.
proof fn lemma_half_even_range(n: nat, d: nat, l: nat)
    requires
        d > 0,
        l * d <= n <= 2 * l * d,
    ensures
        l <= half_even(n, d) <= 2 * l,
        n == l * d ==> half_even(n, d) == l,
        n == 2 * l * d ==> half_even(n, d) == 2 * l,
{
    let q = n / d;
    let r = n % d;
    vstd::arithmetic::div_mod::lemma_fundamental_div_mod(n as int, d as int);
    assert(q >= l) by (nonlinear_arith)
        requires
            n == d * q + r,
            r < d,
            l * d <= n,
            q >= 0,
            d > 0,
    ;
    assert(q <= 2 * l) by (nonlinear_arith)
        requires
            n == d * q + r,
            r >= 0,
            n <= 2 * l * d,
            d > 0,
    ;
    if q == 2 * l {
        assert(r == 0) by (nonlinear_arith)
            requires
                n == d * q + r,
                r >= 0,
                q == 2 * l,
                n <= 2 * l * d,
        ;
    }
    if n == l * d {
        assert(q == l && r == 0) by (nonlinear_arith)
            requires
                n == d * q + r,
                0 <= r < d,
                n == l * d,
                q >= l,
        ;
    }
    if n == 2 * l * d {
        assert(q == 2 * l && r == 0) by (nonlinear_arith)
            requires
                n == d * q + r,
                0 <= r < d,
                n == 2 * l * d,
                q <= 2 * l,
        ;
    }
}

fn square_of(x: &Single) -> (r: Single)
    requires
        x.m <= 0x100_0000,
        23 <= x.k < 40,
    ensures
        r@ == square(x@),
        r.m <= 0x100_0000,
        22 <= r.k < 60,
{
    assert(x.m * x.m <= 0x1_0000_0000_0000) by (nonlinear_arith)
        requires
            x.m <= 0x100_0000,
    ;
    let p: u64 = x.m * x.m;
    if p < 0x8000_0000_0000 {
        Single { m: half_even_of(p, 0x80_0000), k: 2 * x.k - 23 }
    } else {
        Single { m: half_even_of(p, 0x100_0000), k: 2 * x.k - 24 }
    }
}

fn root_single(x: &Single) -> (r: Single)
    requires
        0 < x.m <= 0x100_0000,
        23 <= x.k < 40,
    ensures
        r@ == root(x@),
        r.m <= 0x100_0000,
        23 <= r.k < 40,
{
    if x.k % 2 == 1 {
        Single { m: root_of(x.m * 0x80_0000), k: (x.k + 23) / 2 }
    } else {
        Single { m: root_of(x.m * 0x100_0000), k: (x.k + 24) / 2 }
    }
}

fn spread(x: &Single) -> (r: u64)
    requires
        x.m <= 0x100_0000,
        22 <= x.k < 60,
    ensures
        r == rounded(times_127(x@)),
{
    let p: u64 = x.m * 127;
    let y = if p < 0x4000_0000 {
        Single { m: half_even_of(p, 64), k: x.k - 6 }
    } else {
        Single { m: half_even_of(p, 128), k: x.k - 7 }
    };
    let e = pow2_of(y.k);
    proof {
        lemma2_to64_rest();
        if y.k < 60 {
            lemma_pow2_strictly_increases(y.k as nat, 60);
        }
    }
    (2 * y.m + e) / (2 * e)
}

/// The reading `raw` out of `full`, bent and spread over 0..=127.
pub fn shape(raw: u16, full: u16, bend: Bend) -> (r: u8)
    requires
        raw <= full,
    ensures
        r == shaped(raw as nat, full as nat, bend),
        r <= 127,
{
    if raw == 0 {
        return 0;
    }
    let x = quotient_of(raw as u64, full as u64);
    let y = match bend {
        Bend::Straight => x,
        Bend::Root => root_single(&x),
        Bend::Square => square_of(&x),
    };
    proof {
        law_full_scale(full as nat, bend);
        law_shaped_grows(raw as nat, full as nat, full as nat, bend);
    }
    spread(&y) as u8
}

// Rounding keeps order.

/// `a` is at most `b`.
pub open spec fn le(a: Value, b: Value) -> bool {
    a.m * pow2(b.k) <= b.m * pow2(a.k)
}

/// A value of 24 bits.
spec fn normal(a: Value) -> bool {
    LEAST <= a.m <= 2 * LEAST
}

/// Whole quotients keep the order of fractions.
proof fn lemma_floor_order(a: nat, b: nat, c: nat, d: nat)
    requires
        b > 0,
        d > 0,
        a * d <= c * b,
    ensures
        a / b <= c / d,
        a / b == c / d ==> (a % b) * d <= (c % d) * b,
{
    let (q, r) = (a / b, a % b);
    let (p, s) = (c / d, c % d);
    vstd::arithmetic::div_mod::lemma_fundamental_div_mod(a as int, b as int);
    vstd::arithmetic::div_mod::lemma_fundamental_div_mod(c as int, d as int);
    if q > p {
        assert(a * d >= b * d * q) by (nonlinear_arith)
            requires
                a == b * q + r,
                r >= 0,
                d > 0,
        ;
        assert(c * b < d * b * (p + 1)) by (nonlinear_arith)
            requires
                c == d * p + s,
                s < d,
                b > 0,
        ;
        assert(b * d * q >= d * b * (p + 1)) by (nonlinear_arith)
            requires
                q >= p + 1,
                b > 0,
                d > 0,
        ;
    } else if q == p {
        assert(r * d <= s * b) by (nonlinear_arith)
            requires
                a == b * q + r,
                c == d * q + s,
                a * d <= c * b,
        ;
    }
}

/// Rounding to the nearest keeps the order of fractions.
proof fn lemma_half_even_order(a: nat, b: nat, c: nat, d: nat)
    requires
        b > 0,
        d > 0,
        a * d <= c * b,
    ensures
        half_even(a, b) <= half_even(c, d),
{
    lemma_floor_order(a, b, c, d);
    let (r, s) = (a % b, c % d);
    if a / b == c / d {
        if 2 * r > b {
            assert(2 * s > d) by (nonlinear_arith)
                requires
                    r * d <= s * b,
                    2 * r > b,
                    b > 0,
                    d > 0,
            ;
        } else if 2 * r == b {
            assert(2 * s >= d) by (nonlinear_arith)
                requires
                    r * d <= s * b,
                    2 * r == b,
                    b > 0,
                    d > 0,
            ;
        }
    }
}

/// Rounding to 24 bits keeps order, also where the two values fall on different powers of two:
/// `n / d / 2^k` stands on either side.
proof fn lemma_round_order(n1: nat, d1: nat, k1: nat, n2: nat, d2: nat, k2: nat)
    requires
        d1 > 0,
        d2 > 0,
        LEAST * d1 <= n1 <= 2 * LEAST * d1,
        LEAST * d2 <= n2 <= 2 * LEAST * d2,
        n1 * (d2 * pow2(k2)) <= n2 * (d1 * pow2(k1)),
    ensures
        le(Value { m: half_even(n1, d1), k: k1 }, Value { m: half_even(n2, d2), k: k2 }),
{
    let m1 = half_even(n1, d1);
    let m2 = half_even(n2, d2);
    let p1 = pow2(k1);
    let p2 = pow2(k2);
    lemma_pow2_pos(k1);
    lemma_pow2_pos(k2);
    lemma_half_even_range(n1, d1, LEAST as nat);
    lemma_half_even_range(n2, d2, LEAST as nat);
    if k1 == k2 {
        assert(n1 * d2 <= n2 * d1) by (nonlinear_arith)
            requires
                n1 * (d2 * p2) <= n2 * (d1 * p1),
                p1 == p2,
                p1 > 0,
        ;
        lemma_half_even_order(n1, d1, n2, d2);
        assert(m1 * p2 <= m2 * p1) by (nonlinear_arith)
            requires
                m1 <= m2,
                p1 == p2,
                p1 > 0,
        ;
    } else if k1 > k2 {
        lemma_pow2_doubles(k2, k1);
        assert(m1 * p2 <= m2 * p1) by (nonlinear_arith)
            requires
                m1 <= 2 * LEAST,
                LEAST <= m2,
                2 * p2 <= p1,
                p2 > 0,
        ;
    } else {
        lemma_pow2_doubles(k1, k2);
        let l = LEAST as nat;
        let e = d1 * d2;
        // Both values are the same power of two.
        assert(l * e * p2 <= n1 * (d2 * p2)) by (nonlinear_arith)
            requires
                l * d1 <= n1,
                e == d1 * d2,
                d2 > 0,
                p2 > 0,
        ;
        assert(n2 * (d1 * p1) <= 2 * l * e * p1) by (nonlinear_arith)
            requires
                n2 <= 2 * l * d2,
                e == d1 * d2,
                d1 > 0,
                p1 > 0,
        ;
        assert(e > 0) by (nonlinear_arith)
            requires
                e == d1 * d2,
                d1 > 0,
                d2 > 0,
        ;
        assert(2 * l * e * p1 <= l * e * p2) by (nonlinear_arith)
            requires
                2 * p1 <= p2,
                l > 0,
                e > 0,
        ;
        assert(p2 == 2 * p1) by (nonlinear_arith)
            requires
                l * e * p2 <= 2 * l * e * p1,
                2 * p1 <= p2,
                l > 0,
                e > 0,
        ;
        assert(n1 == l * d1) by (nonlinear_arith)
            requires
                n1 * (d2 * p2) <= l * e * p2,
                e == d1 * d2,
                l * d1 <= n1,
                d2 > 0,
                p2 > 0,
        ;
        assert(n2 == 2 * l * d2) by (nonlinear_arith)
            requires
                n2 * (d1 * p1) >= 2 * l * e * p1,
                e == d1 * d2,
                n2 <= 2 * l * d2,
                d1 > 0,
                p1 > 0,
        ;
        assert(m1 * p2 <= m2 * p1) by (nonlinear_arith)
            requires
                m1 == l,
                m2 == 2 * l,
                p2 == 2 * p1,
        ;
    }
}

proof fn lemma_pow2_doubles(a: nat, b: nat)
    requires
        a < b,
    ensures
        2 * pow2(a) <= pow2(b),
{
    lemma_pow2_unfold(a + 1);
    if a + 1 < b {
        lemma_pow2_strictly_increases(a + 1, b);
    }
}

/// What a quotient is: `n` doubled until it has 24 bits over `d`.
proof fn lemma_quotient(n: nat, d: nat, k: nat) -> (j: nat)
    requires
        0 < n < 2 * d * LEAST,
    ensures
        quotient(n, d, k) == (Value { m: half_even(n * pow2(j), d), k: k + j }),
        LEAST * d <= n * pow2(j) < 2 * LEAST * d,
    decreases
            (if n < d * LEAST {
                d * LEAST - n
            } else {
                0
            }),
{
    lemma2_to64();
    if n >= d * LEAST {
        assert(n * pow2(0) == n);
        0
    } else {
        let j = lemma_quotient(2 * n, d, k + 1);
        lemma_pow2_unfold(j + 1);
        let p = pow2(j);
        assert(2 * n * p == n * (2 * p)) by (nonlinear_arith);
        j + 1
    }
}

/// Quotients of a larger reading are no smaller.
proof fn lemma_quotient_order(a: nat, b: nat, d: nat)
    requires
        0 < a <= b <= d,
    ensures
        le(quotient(a, d, 0), quotient(b, d, 0)),
        normal(quotient(a, d, 0)),
        quotient(a, d, 0).k >= 23,
        quotient(a, d, 0).m <= pow2(quotient(a, d, 0).k),
{
    let i = lemma_quotient(a, d, 0);
    let j = lemma_quotient(b, d, 0);
    let (p, q) = (pow2(i), pow2(j));
    lemma_pow2_pos(i);
    lemma_pow2_pos(j);
    assert((a * p) * (d * q) <= (b * q) * (d * p)) by (nonlinear_arith)
        requires
            a <= b,
            p > 0,
            q > 0,
            d > 0,
    ;
    lemma_round_order(a * p, d, i, b * q, d, j);
    lemma_half_even_range(a * p, d, LEAST as nat);
    lemma2_to64();
    if i < 23 {
        lemma_pow2_strictly_increases(i, 23);
        assert(a * p < LEAST * d) by (nonlinear_arith)
            requires
                0 < a <= d,
                0 < p < LEAST,
        ;
    }
    assert((a * p) * 1 <= p * d) by (nonlinear_arith)
        requires
            a <= d,
            p > 0,
    ;
    lemma_half_even_order(a * p, d, p, 1);
    assert(p % 1 == 0);
    assert(half_even(p, 1) == p);
}

/// Squares keep order.
proof fn lemma_square_order(x: Value, y: Value)
    requires
        normal(x),
        normal(y),
        x.k >= 23,
        y.k >= 23,
        le(x, y),
    ensures
        le(square(x), square(y)),
        normal(square(x)),
        square(x).k >= 22,
{
    let (n1, d1) = lemma_square(x);
    let (n2, d2) = lemma_square(y);
    let (p, q) = (pow2(x.k), pow2(y.k));
    assert((x.m * q) * (x.m * q) <= (y.m * p) * (y.m * p)) by (nonlinear_arith)
        requires
            0 <= x.m * q <= y.m * p,
    ;
    assert((x.m * q) * (x.m * q) == (x.m * x.m) * (q * q)) by (nonlinear_arith);
    assert((y.m * p) * (y.m * p) == (y.m * y.m) * (p * p)) by (nonlinear_arith);
    assert(n1 * (q * q) <= n2 * (p * p));
    lemma_round_order(n1, d1, square(x).k, n2, d2, square(y).k);
    lemma_half_even_range(n1, d1, LEAST as nat);
}

/// A square before it is rounded: `n / d / 2^k`.
proof fn lemma_square(x: Value) -> (r: (nat, nat))
    requires
        normal(x),
        x.k >= 23,
    ensures
        r.0 == x.m * x.m,
        r.1 > 0,
        square(x).m == half_even(r.0, r.1),
        LEAST * r.1 <= r.0 <= 2 * LEAST * r.1,
        r.1 * pow2(square(x).k) == pow2(x.k) * pow2(x.k),
        square(x).k >= 22,
{
    let n = x.m * x.m;
    assert(LEAST * LEAST <= n <= 4 * LEAST * LEAST) by (nonlinear_arith)
        requires
            LEAST <= x.m <= 2 * LEAST,
            n == x.m * x.m,
    ;
    lemma2_to64();
    lemma_pow2_adds(x.k, x.k);
    if n < 0x8000_0000_0000 {
        assert(pow2(23) == 0x80_0000);
        lemma_pow2_adds(23, (2 * x.k - 23) as nat);
        (n, 0x80_0000)
    } else {
        assert(pow2(24) == 0x100_0000);
        lemma_pow2_adds(24, (2 * x.k - 24) as nat);
        (n, 0x100_0000)
    }
}

/// Multiples of 127 keep order.
proof fn lemma_times_order(x: Value, y: Value)
    requires
        normal(x),
        normal(y),
        x.k >= 7,
        y.k >= 7,
        le(x, y),
    ensures
        le(times_127(x), times_127(y)),
{
    let (n1, d1) = lemma_times(x);
    let (n2, d2) = lemma_times(y);
    let (p, q) = (pow2(x.k), pow2(y.k));
    assert(n1 * q <= n2 * p) by (nonlinear_arith)
        requires
            n1 == x.m * 127,
            n2 == y.m * 127,
            x.m * q <= y.m * p,
    ;
    lemma_round_order(n1, d1, times_127(x).k, n2, d2, times_127(y).k);
}

proof fn lemma_times(x: Value) -> (r: (nat, nat))
    requires
        normal(x),
        x.k >= 7,
    ensures
        r.0 == x.m * 127,
        r.1 > 0,
        times_127(x).m == half_even(r.0, r.1),
        LEAST * r.1 <= r.0 <= 2 * LEAST * r.1,
        r.1 * pow2(times_127(x).k) == pow2(x.k),
{
    lemma2_to64();
    let n = x.m * 127;
    if n < 0x4000_0000 {
        assert(pow2(6) == 64);
        lemma_pow2_adds(6, (x.k - 6) as nat);
        (n, 64)
    } else {
        assert(pow2(7) == 128);
        lemma_pow2_adds(7, (x.k - 7) as nat);
        (n, 128)
    }
}

/// The last step keeps order.
proof fn lemma_rounded_order(x: Value, y: Value)
    requires
        le(x, y),
    ensures
        rounded(x) <= rounded(y),
{
    let (p, q) = (pow2(x.k), pow2(y.k));
    lemma_pow2_pos(x.k);
    lemma_pow2_pos(y.k);
    assert((2 * x.m + p) * (2 * q) <= (2 * y.m + q) * (2 * p)) by (nonlinear_arith)
        requires
            x.m * q <= y.m * p,
    ;
    lemma_floor_order(2 * x.m + p, 2 * p, 2 * y.m + q, 2 * q);
}

/// A root before it is rounded: the number under it, and `h` such that the value is `q / 4^h`.
proof fn lemma_root(x: Value) -> (q: nat)
    requires
        normal(x),
    ensures
        is_root(q, root(x).m),
        LEAST * LEAST <= q <= 4 * LEAST * LEAST,
        normal(root(x)),
        q * pow2(x.k) == x.m * (pow2(root(x).k) * pow2(root(x).k)),
        q == LEAST * LEAST ==> root(x).m == LEAST,
        q == 4 * LEAST * LEAST ==> root(x).m == 2 * LEAST,
{
    lemma2_to64();
    let s: nat = if x.k % 2 == 1 {
        23
    } else {
        24
    };
    let t = pow2(s);
    let q = x.m * t;
    let h = root(x).k;
    assert(pow2(23) == 0x80_0000 && pow2(24) == 0x100_0000);
    assert(2 * h == x.k + s);
    lemma_pow2_adds(h, h);
    lemma_pow2_adds(x.k, s);
    assert(q * pow2(x.k) == x.m * (pow2(x.k) * t)) by (nonlinear_arith)
        requires
            q == x.m * t,
    ;
    let r = lemma_root_exists(q);
    lemma_root_unique(q, r);
    let l = LEAST as nat;
    if r < l {
        assert(r * r + r < l * l) by (nonlinear_arith)
            requires
                0 <= r <= l - 1,
                l > 0,
        ;
    }
    assert(r >= l);
    if r > 2 * l {
        assert(r * r - r >= 4 * l * l) by (nonlinear_arith)
            requires
                r >= 2 * l + 1,
                l > 0,
        ;
    }
    assert(r <= 2 * l);
    if q == l * l {
        assert(is_root(q, l));
        lemma_root_unique(q, l);
    }
    if q == 4 * l * l {
        assert(is_root(q, 2 * l)) by (nonlinear_arith)
            requires
                q == 4 * l * l,
                l > 0,
        ;
        lemma_root_unique(q, 2 * l);
    }
    q
}

/// Every number above zero has a nearest root.
proof fn lemma_root_exists(q: nat) -> (r: nat)
    requires
        q > 0,
    ensures
        is_root(q, r),
    decreases q,
{
    if q == 1 {
        1
    } else {
        let r = lemma_root_exists((q - 1) as nat);
        if q <= r * r + r {
            r
        } else {
            assert(is_root(q, r + 1)) by (nonlinear_arith)
                requires
                    q - 1 <= r * r + r,
                    q > r * r + r,
            ;
            r + 1
        }
    }
}

/// Roots keep order.
proof fn lemma_root_order(x: Value, y: Value)
    requires
        normal(x),
        normal(y),
        le(x, y),
    ensures
        le(root(x), root(y)),
{
    let a = lemma_root(x);
    let b = lemma_root(y);
    let (g, h) = (root(x).k, root(y).k);
    let (p, q) = (pow2(g), pow2(h));
    let (r, s) = (root(x).m, root(y).m);
    let (px, py) = (pow2(x.k), pow2(y.k));
    let l = LEAST as nat;
    lemma_pow2_pos(g);
    lemma_pow2_pos(h);
    lemma_pow2_pos(x.k);
    lemma_pow2_pos(y.k);
    // The exact values: `a / p^2` is at most `b / q^2`.
    let (pp, qq) = (p * p, q * q);
    assert(pp * qq >= 0) by (nonlinear_arith)
        requires
            pp >= 0,
            qq >= 0,
    ;
    assert((x.m * py) * (pp * qq) <= (y.m * px) * (pp * qq)) by (nonlinear_arith)
        requires
            x.m * py <= y.m * px,
            pp * qq >= 0,
    ;
    assert((x.m * py) * (pp * qq) == (x.m * pp) * (py * qq)) by (nonlinear_arith);
    assert((y.m * px) * (pp * qq) == (y.m * qq) * (px * pp)) by (nonlinear_arith);
    assert((a * px) * (py * qq) == (a * qq) * (px * py)) by (nonlinear_arith);
    assert((b * py) * (px * pp) == (b * pp) * (px * py)) by (nonlinear_arith);
    assert(px * py > 0) by (nonlinear_arith)
        requires
            px > 0,
            py > 0,
    ;
    assert(a * qq <= b * pp) by (nonlinear_arith)
        requires
            (a * qq) * (px * py) <= (b * pp) * (px * py),
            px * py > 0,
    ;
    assert(a * (q * q) <= b * (p * p));
    if g == h {
        assert(p * p > 0) by (nonlinear_arith)
            requires
                p > 0,
        ;
        assert(a <= b) by (nonlinear_arith)
            requires
                a * (q * q) <= b * (p * p),
                p == q,
                p * p > 0,
        ;
        lemma_root_monotone(a, r, b, s);
        assert(r * q <= s * p) by (nonlinear_arith)
            requires
                r <= s,
                p == q,
                p > 0,
        ;
    } else if g > h {
        lemma_pow2_doubles(h, g);
        assert(r * q <= s * p) by (nonlinear_arith)
            requires
                r <= 2 * l,
                l <= s,
                2 * q <= p,
                q > 0,
        ;
    } else {
        lemma_pow2_doubles(g, h);
        // Both values are the same power of four.
        let (pp, qq) = (p * p, q * q);
        assert(4 * pp <= qq) by (nonlinear_arith)
            requires
                2 * p <= q,
                p > 0,
                pp == p * p,
                qq == q * q,
        ;
        assert(pp > 0) by (nonlinear_arith)
            requires
                p > 0,
                pp == p * p,
        ;
        let ll = l * l;
        assert(ll > 0);
        assert(ll * qq <= a * qq) by (nonlinear_arith)
            requires
                ll <= a,
                qq >= 0,
        ;
        assert(b * pp <= 4 * ll * pp) by (nonlinear_arith)
            requires
                b <= 4 * ll,
                pp >= 0,
        ;
        assert(qq <= 4 * pp) by (nonlinear_arith)
            requires
                ll * qq <= 4 * ll * pp,
                ll > 0,
        ;
        assert(a <= ll) by (nonlinear_arith)
            requires
                a * (4 * pp) <= 4 * ll * pp,
                pp > 0,
        ;
        assert(b >= 4 * ll) by (nonlinear_arith)
            requires
                b * pp >= ll * (4 * pp),
                pp > 0,
        ;
        assert(qq == 4 * pp && a == ll && b == 4 * ll);
        assert((q - 2 * p) * (q + 2 * p) == 0) by (nonlinear_arith)
            requires
                q * q == 4 * (p * p),
        ;
        assert(q - 2 * p == 0) by (nonlinear_arith)
            requires
                (q - 2 * p) * (q + 2 * p) == 0,
                q + 2 * p > 0,
        ;
        assert(q == 2 * p);
        assert(r * q <= s * p) by (nonlinear_arith)
            requires
                r == l,
                s == 2 * l,
                q == 2 * p,
        ;
    }
}

/// A firmer reading is never shaped to less.
pub proof fn law_shaped_grows(a: nat, b: nat, full: nat, bend: Bend)
    requires
        a <= b <= full,
    ensures
        shaped(a, full, bend) <= shaped(b, full, bend),
{
    if a > 0 {
        let x = quotient(a, full, 0);
        let y = quotient(b, full, 0);
        lemma_quotient_order(a, b, full);
        lemma_quotient_order(b, b, full);
        lemma_bent_normal(x, bend);
        lemma_bent_normal(y, bend);
        match bend {
            Bend::Straight => {},
            Bend::Root => lemma_root_order(x, y),
            Bend::Square => lemma_square_order(x, y),
        }
        lemma_times_order(bent(x, bend), bent(y, bend));
        lemma_rounded_order(times_127(bent(x, bend)), times_127(bent(y, bend)));
    }
}

proof fn lemma_bent_normal(x: Value, bend: Bend)
    requires
        normal(x),
        x.k >= 23,
    ensures
        normal(bent(x, bend)),
        bent(x, bend).k >= 22,
{
    match bend {
        Bend::Straight => {},
        Bend::Root => {
            let _ = lemma_root(x);
        },
        Bend::Square => {
            let (n, d) = lemma_square(x);
            lemma_half_even_range(n, d, LEAST as nat);
        },
    }
}

/// A full-scale reading reaches 127 on every curve.
pub proof fn law_full_scale(full: nat, bend: Bend)
    requires
        full > 0,
    ensures
        shaped(full, full, bend) == 127,
{
    let j = lemma_quotient(full, full, 0);
    let p = pow2(j);
    lemma2_to64();
    assert(LEAST <= p < 2 * LEAST) by (nonlinear_arith)
        requires
            LEAST * full <= full * p < 2 * LEAST * full,
            full > 0,
    ;
    assert(pow2(23) == 0x80_0000 && pow2(24) == 0x100_0000);
    if j < 23 {
        lemma_pow2_strictly_increases(j, 23);
    } else if j > 24 {
        lemma_pow2_strictly_increases(24, j);
    }
    assert(j == 23);
    assert(full * p == LEAST * full) by (nonlinear_arith)
        requires
            p == LEAST,
    ;
    lemma_half_even_range(full * p, full, LEAST as nat);
    let one = quotient(full, full, 0);
    assert(one == (Value { m: LEAST as nat, k: 23 }));
    assert(bent(one, bend) == one) by {
        match bend {
            Bend::Straight => {},
            Bend::Root => {
                assert(is_root(0x4000_0000_0000, 0x80_0000));
                lemma_root_unique(0x4000_0000_0000, 0x80_0000);
            },
            Bend::Square => {},
        }
    }
    assert(pow2(17) == 0x2_0000);
    let y = times_127(one);
    assert(0x80_0000nat * 127 == 0x3f80_0000);
    assert(half_even(0x3f80_0000, 64) == 0xfe_0000);
    assert(y == (Value { m: 0xfe_0000, k: 17 }));
    assert(2 * y.m + pow2(y.k) == 33423360 && 2 * pow2(y.k) == 262144);
    assert(33423360nat / 262144 == 127);
}

/// The root curve lifts a reading and the square curve pushes it down: neither ever crosses the
/// straight one.
pub proof fn law_curves_are_ordered(raw: nat, full: nat)
    requires
        raw <= full,
    ensures
        shaped(raw, full, Bend::Square) <= shaped(raw, full, Bend::Straight),
        shaped(raw, full, Bend::Straight) <= shaped(raw, full, Bend::Root),
{
    if raw > 0 {
        let x = quotient(raw, full, 0);
        lemma_quotient_order(raw, raw, full);
        lemma_bent_normal(x, Bend::Square);
        lemma_bent_normal(x, Bend::Root);
        lemma_square_below(x);
        lemma_root_above(x);
        lemma_times_order(square(x), x);
        lemma_times_order(x, root(x));
        lemma_rounded_order(times_127(square(x)), times_127(x));
        lemma_rounded_order(times_127(x), times_127(root(x)));
    }
}

proof fn lemma_square_below(x: Value)
    requires
        normal(x),
        x.k >= 23,
        x.m <= pow2(x.k),
    ensures
        le(square(x), x),
{
    let (n, d) = lemma_square(x);
    let p = pow2(x.k);
    lemma_pow2_pos(x.k);
    assert(x.m * x.m <= x.m * p) by (nonlinear_arith)
        requires
            0 <= x.m <= p,
    ;
    assert((x.m * x.m) * p <= (x.m * p) * p) by (nonlinear_arith)
        requires
            x.m * x.m <= x.m * p,
            p > 0,
    ;
    assert((x.m * p) * p == x.m * (p * p)) by (nonlinear_arith);
    assert(n * (1 * p) <= x.m * (p * p));
    lemma_round_order(n, d, square(x).k, x.m, 1, x.k);
    assert(x.m % 1 == 0);
    assert(half_even(x.m, 1) == x.m);
}

proof fn lemma_root_above(x: Value)
    requires
        normal(x),
        x.k >= 23,
        x.m <= pow2(x.k),
    ensures
        le(x, root(x)),
{
    let q = lemma_root(x);
    let (h, r) = (root(x).k, root(x).m);
    let (p, e) = (pow2(x.k), pow2(h));
    lemma_pow2_pos(h);
    lemma2_to64();
    if h < x.k {
        lemma_pow2_doubles(h, x.k);
        assert(x.m * e <= r * p) by (nonlinear_arith)
            requires
                x.m <= 2 * LEAST,
                LEAST <= r,
                2 * e <= p,
                e > 0,
        ;
    } else {
        assert(x.k == 23 || x.k == 24);
        assert(h == x.k);
        assert(pow2(23) == 0x80_0000 && pow2(24) == 0x100_0000);
        if r < x.m {
            assert(q == x.m * e) by (nonlinear_arith)
                requires
                    q * p == x.m * (e * e),
                    p == e,
                    p > 0,
            ;
            assert(r * r + r < x.m * x.m) by (nonlinear_arith)
                requires
                    r <= x.m - 1,
                    r >= 0,
                    x.m >= 1,
            ;
            assert(x.m * x.m <= x.m * e) by (nonlinear_arith)
                requires
                    0 <= x.m <= e,
            ;
        }
        assert(x.m * e <= r * p) by (nonlinear_arith)
            requires
                x.m <= r,
                p == e,
                p > 0,
        ;
    }
}

// How far the roundings can lead astray.

proof fn lemma_half_even_near(n: nat, d: nat)
    requires
        d > 0,
    ensures
        -(d as int) <= 2 * (half_even(n, d) * d - n) <= d,
{
    let q = n / d;
    vstd::arithmetic::div_mod::lemma_fundamental_div_mod(n as int, d as int);
    assert(q * d == d * q && (q + 1) * d == d * q + d) by (nonlinear_arith);
}

/// Spread over 0..=127, a value stays within one half and a little more.
proof fn lemma_spread_near(x: Value) -> (s: nat)
    requires
        normal(x),
        x.k >= 22,
    ensures
        s == rounded(times_127(x)),
        -(pow2(x.k) + 128) <= 2 * (s * pow2(x.k) - 127 * x.m) <= pow2(x.k) + 128,
{
    let y = times_127(x);
    let p = pow2(x.k) as int;
    let q = pow2(y.k) as int;
    let s = rounded(y);
    lemma_pow2_pos(y.k);
    vstd::arithmetic::div_mod::lemma_fundamental_div_mod(2 * y.m + q, 2 * q);
    lemma2_to64();
    let d: nat = if x.m * 127 < 0x4000_0000 {
        64
    } else {
        128
    };
    assert(p == d * q) by {
        assert(pow2(6) == 64 && pow2(7) == 128);
        if d == 64 {
            lemma_pow2_adds(6, y.k);
        } else {
            lemma_pow2_adds(7, y.k);
        }
    }
    lemma_half_even_near(x.m * 127, d);
    assert(2 * q * s == 2 * (s * q)) by (nonlinear_arith);
    assert(-q <= 2 * (s * q) - 2 * y.m <= q);
    assert(s * p == d * (s * q)) by (nonlinear_arith)
        requires
            p == d * q,
    ;
    assert(y.m * d == d * y.m) by (nonlinear_arith);
    s
}

proof fn lemma_quotient_near(raw: nat, full: nat) -> (p: nat)
    requires
        0 < raw <= full,
    ensures
        ({
            let x = quotient(raw, full, 0);
            &&& p == pow2(x.k)
            &&& normal(x)
            &&& x.k >= 23
            &&& x.m <= p
            &&& p >= LEAST
            &&& -(full as int) <= 2 * (x.m * full - raw * p) <= full
            &&& raw * p < 2 * LEAST * full
        }),
{
    let x = quotient(raw, full, 0);
    lemma_quotient_order(raw, raw, full);
    let j = lemma_quotient(raw, full, 0);
    lemma_half_even_near(raw * pow2(j), full);
    lemma2_to64();
    if x.k > 23 {
        lemma_pow2_strictly_increases(23, x.k);
    }
    assert(pow2(23) == 0x80_0000);
    pow2(x.k)
}

/// On the straight curve a reading comes out as its part of 127, to the nearest: off by one half at
/// most, and by what single precision cannot tell apart.
pub proof fn law_straight_is_proportional(raw: nat, full: nat)
    requires
        raw <= full,
        full > 0,
    ensures
        ({
            let off = shaped(raw, full, Bend::Straight) * full - 127 * raw;
            -(full + full / 0x4000) <= 2 * off <= full + full / 0x4000
        }),
{
    if raw > 0 {
        let x = quotient(raw, full, 0);
        let p = lemma_quotient_near(raw, full);
        let s = lemma_spread_near(x);
        let off = s * full - 127 * raw;
        let (f, m) = (full as int, x.m as int);
        assert(off * p == (s * p - 127 * m) * f + 127 * (m * f - raw * p)) by (nonlinear_arith)
            requires
                off == s * f - 127 * raw,
        ;
        let a = s * p - 127 * m;
        assert(-((p + 128) * f) <= 2 * (a * f) <= (p + 128) * f) by (nonlinear_arith)
            requires
                -(p + 128) <= 2 * a <= p + 128,
                f > 0,
        ;
        let t = f / 0x4000;
        assert((p + 255) * f == p * f + 255 * f && (p + 128) * f == p * f + 128 * f)
            by (nonlinear_arith);
        // What is past one half is less than one part in 2^15.
        assert(-(p * f + 255 * f) <= 2 * (off * p) <= p * f + 255 * f);
        assert(p * (t + 1) > 255 * f) by (nonlinear_arith)
            requires
                p >= 0x80_0000,
                f < 0x4000 * (t + 1),
                t >= 0,
        ;
        assert(p * (f + t + 1) == p * f + p * (t + 1)) by (nonlinear_arith);
        assert(2 * off < f + t + 1 && -(2 * off) < f + t + 1) by (nonlinear_arith)
            requires
                2 * (off * p) < p * (f + t + 1),
                -(2 * (off * p)) < p * (f + t + 1),
                p > 0,
        ;
        assert(s == shaped(raw, full, Bend::Straight));
    } else {
        assert(shaped(raw, full, Bend::Straight) * full == 0);
    }
}

proof fn lemma_squares_differ(a: int, b: int)
    ensures
        a * a - b * b == (a - b) * (a + b),
{
    assert(a * a - b * b == (a - b) * (a + b)) by (nonlinear_arith);
}

proof fn lemma_square_of_product(a: int, b: int)
    ensures
        (a * b) * (a * b) == (a * a) * (b * b),
{
    assert((a * b) * (a * b) == (a * a) * (b * b)) by (nonlinear_arith);
}

/// On the square curve a reading comes out as 127 times the square of its part: within one.
pub proof fn law_square_is_quadratic(raw: nat, full: nat)
    requires
        raw <= full,
        full > 0,
    ensures
        ({
            let s = shaped(raw, full, Bend::Square);
            (s - 1) * (full * full) <= 127 * (raw * raw) <= (s + 1) * (full * full)
        }),
{
    let f = full as int;
    assert(f * f > 0) by (nonlinear_arith)
        requires
            f > 0,
    ;
    if raw > 0 {
        let x = quotient(raw, full, 0);
        let p = lemma_quotient_near(raw, full) as int;
        let (n, d) = lemma_square(x);
        lemma_bent_normal(x, Bend::Square);
        let y = square(x);
        let s = lemma_spread_near(y) as int;
        lemma_half_even_near(n, d);
        let e = pow2(y.k) as int;
        lemma2_to64();
        if y.k > 22 {
            lemma_pow2_strictly_increases(22, y.k);
        }
        assert(pow2(22) == 0x40_0000);
        let (m, r) = (x.m as int, raw as int);
        let ff = f * f;
        let pp = p * p;
        assert(pp > 0) by (nonlinear_arith)
            requires
                p > 0,
                pp == p * p,
        ;
        // The square of the part, against that of the rounded part.
        let g = m * f - r * p;
        lemma_squares_differ(m * f, r * p);
        lemma_square_of_product(m, f);
        lemma_square_of_product(r, p);
        assert(0 <= m * f && m * f <= p * f) by (nonlinear_arith)
            requires
                0 <= m <= p,
                f > 0,
        ;
        assert(0 <= r * p && r * p <= p * f) by (nonlinear_arith)
            requires
                0 <= r <= f,
                p > 0,
        ;
        let h = m * f + r * p;
        assert(-(f * h) <= 2 * (g * h) <= f * h) by (nonlinear_arith)
            requires
                -f <= 2 * g <= f,
                h >= 0,
        ;
        assert(f * h <= 2 * (p * ff)) by (nonlinear_arith)
            requires
                0 <= h <= 2 * (p * f),
                f > 0,
                ff == f * f,
        ;
        assert(p * ff * 0x80_0000 <= pp * ff) by (nonlinear_arith)
            requires
                p >= 0x80_0000,
                pp == p * p,
                ff > 0,
        ;
        let dd = d as int;
        assert(dd * e == pp);
        let ym = y.m as int;
        // y.m over e is the square of m over p, but for half a step.
        assert(ym * pp == (ym * dd) * e) by (nonlinear_arith)
            requires
                dd * e == pp,
        ;
        let u = ym * dd - m * m;
        assert(-dd <= 2 * u <= dd);
        assert(-pp <= 2 * (u * e) <= pp) by (nonlinear_arith)
            requires
                -dd <= 2 * u <= dd,
                dd * e == pp,
                e > 0,
        ;
        assert(ym * pp == u * e + m * m * e) by (nonlinear_arith)
            requires
                ym * pp == (ym * dd) * e,
                u == ym * dd - m * m,
        ;
        let a = s * e - 127 * ym;
        // Everything over e * pp * ff.
        let (rr, mm) = (r * r, m * m);
        assert(a * pp == (s * e) * pp - 127 * (ym * pp)) by (nonlinear_arith)
            requires
                a == s * e - 127 * ym,
        ;
        assert((a * pp) * ff == ((s * e) * pp) * ff - 127 * ((u * e) * ff) - 127 * ((mm * e) * ff))
            by (nonlinear_arith)
            requires
                a * pp == (s * e) * pp - 127 * (u * e + mm * e),
        ;
        assert(e * (mm * ff - rr * pp) == (mm * e) * ff - rr * (e * pp)) by (nonlinear_arith);
        assert((s * ff - 127 * rr) * (e * pp) == ((s * e) * pp) * ff - 127 * (rr * (e * pp)))
            by (nonlinear_arith);
        let c1 = (a * pp) * ff;
        let c2 = (u * e) * ff;
        let c3 = e * (m * m * ff - r * r * pp);
        let whole = e * pp * ff;
        assert(whole > 0) by (nonlinear_arith)
            requires
                e > 0,
                pp > 0,
                ff > 0,
                whole == e * pp * ff,
        ;
        assert(-((e + 128) * pp * ff) <= 2 * c1 <= (e + 128) * pp * ff) by (nonlinear_arith)
            requires
                -(e + 128) <= 2 * a <= e + 128,
                c1 == (a * pp) * ff,
                pp > 0,
                ff > 0,
        ;
        assert((e + 128) * pp * ff == whole + 128 * (pp * ff)) by (nonlinear_arith)
            requires
                whole == e * pp * ff,
        ;
        assert(0x40_0000 * (pp * ff) <= whole) by (nonlinear_arith)
            requires
                e >= 0x40_0000,
                whole == e * pp * ff,
                pp > 0,
                ff > 0,
        ;
        assert(-(pp * ff) <= 2 * c2 <= pp * ff) by (nonlinear_arith)
            requires
                -pp <= 2 * (u * e) <= pp,
                c2 == (u * e) * ff,
                ff > 0,
        ;
        let gh = m * m * ff - r * r * pp;
        assert(-(2 * (p * ff)) <= 2 * gh <= 2 * (p * ff));
        assert(-(pp * ff) <= 0x80_0000 * gh <= pp * ff);
        assert(-whole <= 0x80_0000 * c3 <= whole) by (nonlinear_arith)
            requires
                -(pp * ff) <= 0x80_0000 * gh <= pp * ff,
                c3 == e * gh,
                whole == e * pp * ff,
                e > 0,
        ;
        let total = c1 + 127 * c2 + 127 * c3;
        assert(-whole <= total <= whole);
        let off = s * ff - 127 * (r * r);
        assert(off * (e * pp) == total);
        assert(e * pp > 0) by (nonlinear_arith)
            requires
                e > 0,
                pp > 0,
        ;
        assert(-ff <= off <= ff) by (nonlinear_arith)
            requires
                -(e * pp * ff) <= off * (e * pp) <= e * pp * ff,
                e * pp > 0,
        ;
        assert((s - 1) * ff == s * ff - ff && (s + 1) * ff == s * ff + ff) by (nonlinear_arith);
    } else {
        assert((0 - 1) * (full * full) <= 0) by (nonlinear_arith);
        assert(raw * raw == 0);
    }
}

/// From `e * t` against `127 * b` to the squares of both.
proof fn lemma_squared(e: int, t: int, b: int)
    requires
        e > 0,
        t >= 0,
        b >= 0,
    ensures
        e * t <= 127 * b ==> (e * e) * (t * t) <= 16129 * (b * b),
        e * t >= 127 * b ==> (e * e) * (t * t) >= 16129 * (b * b),
{
    let (x, y) = (e * t, 127 * b);
    assert(x * x == (e * e) * (t * t)) by (nonlinear_arith)
        requires
            x == e * t,
    ;
    assert(y * y == 16129 * (b * b)) by (nonlinear_arith)
        requires
            y == 127 * b,
    ;
    assert(x >= 0) by (nonlinear_arith)
        requires
            x == e * t,
            e > 0,
            t >= 0,
    ;
    if x <= y {
        assert(x * x <= y * y) by (nonlinear_arith)
            requires
                0 <= x <= y,
        ;
    }
    if x >= y {
        assert(x * x >= y * y) by (nonlinear_arith)
            requires
                0 <= y <= x,
        ;
    }
}

/// On the root curve a reading comes out as 127 times the root of its part: within one.
pub proof fn law_root_is_a_root(raw: nat, full: nat)
    requires
        raw <= full <= 0xffff,
        full > 0,
    ensures
        ({
            let s = shaped(raw, full, Bend::Root);
            &&& s >= 1 ==> full * ((s - 1) * (s - 1)) <= 16129 * raw
            &&& 16129 * raw <= full * ((s + 1) * (s + 1))
        }),
{
    if raw > 0 {
        let x = quotient(raw, full, 0);
        let p = lemma_quotient_near(raw, full) as int;
        let q = lemma_root(x) as int;
        lemma_bent_normal(x, Bend::Root);
        lemma_root_above(x);
        let y = root(x);
        let s = lemma_spread_near(y) as int;
        let e = pow2(y.k) as int;
        let (m, r, f) = (x.m as int, y.m as int, full as int);
        let c: int = 0x4000;
        lemma2_to64();
        if y.k > 22 {
            lemma_pow2_strictly_increases(22, y.k);
        }
        assert(pow2(22) == 0x40_0000);
        let ee = e * e;
        assert(ee > 0) by (nonlinear_arith)
            requires
                e > 0,
                ee == e * e,
        ;
        assert(q * p == m * ee);
        // e is far below 2^38.
        assert(p < 0x100_0000_0000) by (nonlinear_arith)
            requires
                raw * p < 2 * 0x80_0000 * f,
                raw >= 1,
                f <= 0xffff,
                p > 0,
        ;
        assert(e < 0x40_0000_0000) by {
            if e >= 0x40_0000_0000 {
                assert(ee >= 0x40_0000_0000 * 0x40_0000_0000) by (nonlinear_arith)
                    requires
                        e >= 0x40_0000_0000,
                        ee == e * e,
                ;
                assert(m * ee >= 0x80_0000 * (0x40_0000_0000 * 0x40_0000_0000)) by (nonlinear_arith)
                    requires
                        m >= 0x80_0000,
                        ee >= 0x40_0000_0000 * 0x40_0000_0000,
                ;
                assert(q * p <= 0x1_0000_0000_0000 * 0x100_0000_0000) by (nonlinear_arith)
                    requires
                        0 <= q <= 4 * 0x80_0000 * 0x80_0000,
                        0 <= p <= 0x100_0000_0000,
                ;
            }
        }
        let w = c * (r * p);
        assert(2 * w >= ee) by (nonlinear_arith)
            requires
                m * e <= r * p,
                m >= 0x80_0000,
                0 < e < 0x40_0000_0000,
                c == 0x4000,
                w == c * (r * p),
                ee == e * e,
        ;
        let g = 2 * (m * f) - 2 * (raw * p);
        assert(-f <= g <= f);
        // From above.
        if s >= 1 {
            let t = s - 1;
            let b = r - c;
            assert(e * t <= 127 * b) by (nonlinear_arith)
                requires
                    2 * (s * e - 127 * r) <= e + 128,
                    e >= 0x40_0000,
                    t == s - 1,
                    b == r - 0x4000,
            ;
            lemma_squared(e, t, b);
            let (tt, bb) = (t * t, b * b);
            assert(bb <= q - c * r) by (nonlinear_arith)
                requires
                    r * r < q + r,
                    bb == b * b,
                    b == r - c,
                    c == 0x4000,
                    r >= 0x80_0000,
            ;
            assert((ee * tt) * p <= 16129 * (m * ee - w)) by (nonlinear_arith)
                requires
                    ee * tt <= 16129 * bb,
                    bb <= q - c * r,
                    q * p == m * ee,
                    w == c * (r * p),
                    p > 0,
            ;
            assert(2 * (tt * p) <= 16129 * (2 * m - 1)) by (nonlinear_arith)
                requires
                    (ee * tt) * p <= 16129 * (m * ee - w),
                    2 * w >= ee,
                    ee > 0,
            ;
            assert(2 * (tt * p) * f <= 16129 * (2 * m - 1) * f) by (nonlinear_arith)
                requires
                    2 * (tt * p) <= 16129 * (2 * m - 1),
                    f > 0,
            ;
            assert(16129 * (2 * m - 1) * f == 16129 * (2 * (m * f) - f)) by (nonlinear_arith);
            assert(2 * (tt * p) * f == 2 * ((f * tt) * p)) by (nonlinear_arith);
            assert((f * tt) * p <= (16129 * raw) * p) by (nonlinear_arith)
                requires
                    2 * ((f * tt) * p) <= 16129 * (2 * (raw * p)),
            ;
            assert(f * tt <= 16129 * raw) by (nonlinear_arith)
                requires
                    (f * tt) * p <= (16129 * raw) * p,
                    p > 0,
            ;
        }
        // From below.
        let t = s + 1;
        let b = r + c;
        assert(e * t >= 127 * b) by (nonlinear_arith)
            requires
                -(e + 128) <= 2 * (s * e - 127 * r),
                e >= 0x40_0000,
                t == s + 1,
                b == r + 0x4000,
        ;
        lemma_squared(e, t, b);
        let (tt, bb) = (t * t, b * b);
        assert(bb >= q + c * r) by (nonlinear_arith)
            requires
                q <= r * r + r,
                bb == b * b,
                b == r + c,
                c == 0x4000,
                r >= 0x80_0000,
        ;
        assert((ee * tt) * p >= 16129 * (m * ee + w)) by (nonlinear_arith)
            requires
                ee * tt >= 16129 * bb,
                bb >= q + c * r,
                q * p == m * ee,
                w == c * (r * p),
                p > 0,
        ;
        assert(2 * (tt * p) >= 16129 * (2 * m + 1)) by (nonlinear_arith)
            requires
                (ee * tt) * p >= 16129 * (m * ee + w),
                2 * w >= ee,
                ee > 0,
        ;
        assert(2 * (tt * p) * f >= 16129 * (2 * m + 1) * f) by (nonlinear_arith)
            requires
                2 * (tt * p) >= 16129 * (2 * m + 1),
                f > 0,
        ;
        assert(16129 * (2 * m + 1) * f == 16129 * (2 * (m * f) + f)) by (nonlinear_arith);
        assert(2 * (tt * p) * f == 2 * ((f * tt) * p)) by (nonlinear_arith);
        assert((f * tt) * p >= (16129 * raw) * p) by (nonlinear_arith)
            requires
                2 * ((f * tt) * p) >= 16129 * (2 * (raw * p)),
        ;
        assert(f * tt >= 16129 * raw) by (nonlinear_arith)
            requires
                (f * tt) * p >= (16129 * raw) * p,
                p > 0,
        ;
    } else {
        assert(full * ((0 + 1) * (0 + 1)) >= 0);
    }
}

} // verus!
