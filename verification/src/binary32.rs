//! Single-precision arithmetic on nonnegative numbers, carried out on integers.
//!
//! A number is a significand times a power of two. Every operation computes the
//! exact result and rounds it once, to 24 significant bits, ties to even: this is
//! what IEEE 754 prescribes for the conversion, the quotient and the product of
//! binary32 values that neither overflow nor underflow. The exponent is unbounded
//! here. Nothing is lost by that: the only results that leave this module are
//! whole parts, clamped to `u32`, which are `0` for every number in the subnormal
//! range and `u32::MAX` for every number beyond the largest finite one.

use vstd::arithmetic::div_mod::*;
use vstd::arithmetic::mul::*;
use vstd::arithmetic::power2::*;
use vstd::prelude::*;

verus! {

/// The smallest significand of a normal number: 2^23.
pub const LEAST_SIGNIFICAND: u64 = 0x80_0000;

/// One more than the largest significand of a normal number: 2^24.
pub const SIGNIFICAND_LIMIT: u64 = 0x100_0000;

/// The number `m * 2^e`.
pub struct Scaled {
    pub m: nat,
    pub e: int,
}

impl Scaled {
    /// The number times `2^k`.
    pub open spec fn shift(self, k: int) -> Scaled {
        Scaled { m: self.m, e: self.e + k }
    }

    /// The number in units of `2^k`, for `k` no larger than its exponent.
    pub open spec fn at(self, k: int) -> nat
        recommends
            k <= self.e,
    {
        self.m * pow2((self.e - k) as nat)
    }

    /// The whole part of the number.
    pub open spec fn whole(self) -> nat {
        if self.e >= 0 {
            self.m * pow2(self.e as nat)
        } else {
            self.m / pow2((-self.e) as nat)
        }
    }
}

/// The integer nearest to `n / d`; of two equally near ones the even one.
pub open spec fn nearest_even(n: nat, d: nat) -> nat {
    let q = n / d;
    let r = n % d;
    if 2 * r < d || (2 * r == d && q % 2 == 0) {
        q
    } else {
        q + 1
    }
}

/// The fraction `n / d`, rounded to 24 significant bits: it is scaled by a power
/// of two into `2^23 .. 2^24` and there rounded to an integer.
pub open spec fn rounded(n: nat, d: nat) -> Scaled
    decreases (if n < LEAST_SIGNIFICAND * d { LEAST_SIGNIFICAND * d - n } else { 0 }), n
        - LEAST_SIGNIFICAND * d,
{
    if n == 0 || d == 0 {
        Scaled { m: 0, e: 0 }
    } else if n >= SIGNIFICAND_LIMIT * d {
        rounded(n, 2 * d).shift(1)
    } else if n < LEAST_SIGNIFICAND * d {
        rounded(2 * n, d).shift(-1)
    } else {
        Scaled { m: nearest_even(n, d), e: 0 }
    }
}

/// The rounded product.
pub open spec fn product(x: Scaled, y: Scaled) -> Scaled {
    rounded(x.m * y.m, 1).shift(x.e + y.e)
}

/// The part of `span` that the fraction `n / d` takes: the quotient and `span` are
/// rounded to 24 significant bits, then their product is, then its whole part is
/// taken.
pub open spec fn share(n: nat, d: nat, span: nat) -> nat {
    product(rounded(n, d), rounded(span, 1)).whole()
}

/// A whole part as Rust's cast to `u32` gives it.
pub open spec fn saturated(n: nat) -> u32 {
    if n <= u32::MAX {
        n as u32
    } else {
        u32::MAX
    }
}

/// The encoding of one.
pub const ONE: u32 = 0x3f80_0000;

/// The encoding of positive infinity. The encodings above it are those of the
/// negative numbers and of what is not a number.
pub const INFINITY: u32 = 0x7f80_0000;

/// The number that an encoding below `INFINITY` stands for: 23 bits of fraction
/// and, above them, the biased exponent, which is `0` for a subnormal number.
pub open spec fn decoded(bits: u32) -> Scaled {
    let fraction = (bits as nat) % (LEAST_SIGNIFICAND as nat);
    let exponent = (bits as nat) / (LEAST_SIGNIFICAND as nat);
    if exponent == 0 {
        Scaled { m: fraction, e: -149 }
    } else {
        Scaled { m: LEAST_SIGNIFICAND as nat + fraction, e: exponent - 150 }
    }
}

/// The part of `span` that the encoded number takes, as the product of the number
/// and the rounded `span` cast to `u32`: a cast takes the whole part, clamps it,
/// and gives `0` for what is not a number.
pub open spec fn encoded_share(bits: u32, span: u32) -> u32 {
    if bits > INFINITY {
        0
    } else if bits == INFINITY {
        if span == 0 {
            0
        } else {
            u32::MAX
        }
    } else {
        saturated(product(decoded(bits), rounded(span as nat, 1)).whole())
    }
}

/// A nonnegative number with a significand of at most 24 bits.
#[derive(Clone, Copy)]
struct Soft {
    m: u64,
    e: i64,
}

impl Soft {
    spec fn view(self) -> Scaled {
        Scaled { m: self.m as nat, e: self.e as int }
    }

    /// The significand and the exponent lie within what the operations take.
    spec fn wf(self) -> bool {
        &&& self.m <= SIGNIFICAND_LIMIT
        &&& -1000 <= self.e <= 1000
    }
}

/// `n / d`, rounded to 24 significant bits.
fn round_fraction(n: u64, d: u64) -> (r: Soft)
    requires
        0 < d <= SIGNIFICAND_LIMIT,
        n <= 0x1_0000_0000_0000,
    ensures
        r@ == rounded(n as nat, d as nat),
        r.m <= SIGNIFICAND_LIMIT,
        -48 <= r.e <= 25,
{
    if n == 0 {
        return Soft { m: 0, e: 0 };
    }
    let ghost n0 = n as nat;
    let ghost d0 = d as nat;
    let mut n: u64 = n;
    let mut d: u64 = d;
    let mut e: i64 = 0;
    proof {
        lemma2_to64();
        lemma2_to64_rest();
    }
    while n >= SIGNIFICAND_LIMIT * d
        invariant
            0 < n <= 0x1_0000_0000_0000,
            d >= pow2(e as nat),
            0 < d <= 0x200_0000,
            d <= SIGNIFICAND_LIMIT || n < SIGNIFICAND_LIMIT * d,
            0 <= e <= 25,
            e > 0 ==> n >= LEAST_SIGNIFICAND * d,
            e == 0 ==> d <= SIGNIFICAND_LIMIT,
            rounded(n0, d0) == rounded(n as nat, d as nat).shift(e as int),
        decreases n - LEAST_SIGNIFICAND * d,
    {
        d = 2 * d;
        e = e + 1;
        proof {
            lemma_pow2_unfold(e as nat);
            lemma2_to64();
            if e > 25 {
                lemma_pow2_strictly_increases(25, e as nat);
            }
        }
    }
    while n < LEAST_SIGNIFICAND * d
        invariant
            0 < n <= 0x1_0000_0000_0000,
            0 < d <= 0x200_0000,
            -48 <= e <= 25,
            e < 0 ==> n >= pow2((-e) as nat),
            n < SIGNIFICAND_LIMIT * d,
            n >= LEAST_SIGNIFICAND * d || (e <= 0 && d <= SIGNIFICAND_LIMIT),
            rounded(n0, d0) == rounded(n as nat, d as nat).shift(e as int),
        decreases (if n < LEAST_SIGNIFICAND * d { LEAST_SIGNIFICAND * d - n } else { 0 }),
    {
        proof {
            lemma2_to64_rest();
            lemma_pow2_unfold((1 - e) as nat);
            lemma2_to64();
        }
        n = 2 * n;
        e = e - 1;
    }
    let q: u64 = n / d;
    let r: u64 = n % d;
    proof {
        lemma_fundamental_div_mod(n as int, d as int);
        lemma_quotient_range(n as int, d as int);
    }
    if 2 * r < d || (2 * r == d && q % 2 == 0) {
        Soft { m: q, e }
    } else {
        Soft { m: q + 1, e }
    }
}

proof fn lemma_quotient_range(n: int, d: int)
    requires
        0 < d,
        LEAST_SIGNIFICAND * d <= n < SIGNIFICAND_LIMIT * d,
    ensures
        LEAST_SIGNIFICAND <= n / d < SIGNIFICAND_LIMIT,
{
    assert(LEAST_SIGNIFICAND <= n / d < SIGNIFICAND_LIMIT) by (nonlinear_arith)
        requires
            0 < d,
            0x80_0000 * d <= n < 0x100_0000 * d,
            LEAST_SIGNIFICAND == 0x80_0000,
            SIGNIFICAND_LIMIT == 0x100_0000,
    ;
}

/// Where the fraction lies decides the sign of the exponent, and the significand
/// keeps its range.
proof fn lemma_rounded_range(n: nat, d: nat)
    requires
        n > 0,
        d > 0,
    ensures
        LEAST_SIGNIFICAND <= rounded(n, d).m <= SIGNIFICAND_LIMIT,
        n >= SIGNIFICAND_LIMIT * d ==> rounded(n, d).e >= 1,
        n < SIGNIFICAND_LIMIT * d ==> rounded(n, d).e <= 0,
        n >= LEAST_SIGNIFICAND * d ==> rounded(n, d).e >= 0,
        n < LEAST_SIGNIFICAND * d ==> rounded(n, d).e <= -1,
    decreases
            (if n < LEAST_SIGNIFICAND * d {
                LEAST_SIGNIFICAND * d - n
            } else {
                0
            }),
            n - LEAST_SIGNIFICAND * d,
{
    if n >= SIGNIFICAND_LIMIT * d {
        lemma_rounded_range(n, 2 * d);
    } else if n < LEAST_SIGNIFICAND * d {
        lemma_rounded_range(2 * n, d);
    } else {
        lemma_quotient_range(n as int, d as int);
    }
}

proof fn lemma_nearest_even_monotone(n1: nat, n2: nat, d: nat)
    requires
        n1 <= n2,
        d > 0,
    ensures
        nearest_even(n1, d) <= nearest_even(n2, d),
{
    lemma_div_is_ordered(n1 as int, n2 as int, d as int);
    lemma_fundamental_div_mod(n1 as int, d as int);
    lemma_fundamental_div_mod(n2 as int, d as int);
    if n1 / d == n2 / d {
        assert(n1 % d <= n2 % d);
    }
}

/// Rounding keeps the order.
proof fn lemma_rounded_monotone(n1: nat, n2: nat, d: nat, k: int)
    requires
        0 < n1 <= n2,
        d > 0,
        k <= rounded(n1, d).e,
        k <= rounded(n2, d).e,
    ensures
        rounded(n1, d).at(k) <= rounded(n2, d).at(k),
    decreases
            (if n1 < LEAST_SIGNIFICAND * d {
                LEAST_SIGNIFICAND * d - n1
            } else {
                0
            }),
            n2 - LEAST_SIGNIFICAND * d,
{
    let r1 = rounded(n1, d);
    let r2 = rounded(n2, d);
    lemma_rounded_range(n1, d);
    lemma_rounded_range(n2, d);
    if n1 >= SIGNIFICAND_LIMIT * d {
        lemma_rounded_monotone(n1, n2, 2 * d, k - 1);
    } else if n2 < LEAST_SIGNIFICAND * d {
        lemma_rounded_monotone(2 * n1, 2 * n2, d, k + 1);
    } else if n1 >= LEAST_SIGNIFICAND * d && n2 < SIGNIFICAND_LIMIT * d {
        lemma_nearest_even_monotone(n1, n2, d);
        lemma_mul_inequality(r1.m as int, r2.m as int, pow2((-k) as nat) as int);
    } else {
        lemma_apart(r1, r2, k);
    }
}

/// A number of a smaller exponent is no larger.
proof fn lemma_apart(x: Scaled, y: Scaled, k: int)
    requires
        x.m <= SIGNIFICAND_LIMIT,
        LEAST_SIGNIFICAND <= y.m,
        k <= x.e < y.e,
    ensures
        x.at(k) <= y.at(k),
{
    let p = pow2((x.e - k) as nat);
    let t = pow2((y.e - x.e) as nat);
    lemma_pow2_adds((x.e - k) as nat, (y.e - x.e) as nat);
    lemma_pow2_unfold((y.e - x.e) as nat);
    lemma_pow2_pos((y.e - x.e - 1) as nat);
    lemma_pow2_pos((x.e - k) as nat);
    assert(x.m * p <= y.m * (p * t)) by (nonlinear_arith)
        requires
            x.m <= 0x100_0000,
            0x80_0000 <= y.m,
            t >= 2,
            p >= 1,
    ;
}

proof fn lemma_nearest_even_common(n: nat, d: nat, c: nat)
    requires
        d > 0,
        c > 0,
    ensures
        nearest_even(c * n, c * d) == nearest_even(n, d),
{
    let q = (n / d) as int;
    let r = (n % d) as int;
    lemma_fundamental_div_mod(n as int, d as int);
    assert(c * n == q * (c * d) + c * r) by (nonlinear_arith)
        requires
            n == d * q + r,
    ;
    assert(0 <= c * r < c * d) by (nonlinear_arith)
        requires
            0 <= r < d,
            c > 0,
    ;
    lemma_fundamental_div_mod_converse((c * n) as int, (c * d) as int, q, c * r);
    assert(2 * (c * r) < c * d <==> 2 * r < d) by (nonlinear_arith)
        requires
            c > 0,
    ;
    assert(2 * (c * r) == c * d <==> 2 * r == d) by (nonlinear_arith)
        requires
            c > 0,
    ;
}

/// A common factor does not matter.
proof fn lemma_rounded_common(n: nat, d: nat, c: nat)
    requires
        n > 0,
        d > 0,
        c > 0,
    ensures
        rounded(c * n, c * d) == rounded(n, d),
    decreases
            (if n < LEAST_SIGNIFICAND * d {
                LEAST_SIGNIFICAND * d - n
            } else {
                0
            }),
            n - LEAST_SIGNIFICAND * d,
{
    lemma_mul_strictly_positive(c as int, n as int);
    lemma_mul_strictly_positive(c as int, d as int);
    assert(c * n >= SIGNIFICAND_LIMIT * (c * d) <==> n >= SIGNIFICAND_LIMIT * d)
        by (nonlinear_arith)
        requires
            c > 0,
    ;
    assert(c * n < LEAST_SIGNIFICAND * (c * d) <==> n < LEAST_SIGNIFICAND * d)
        by (nonlinear_arith)
        requires
            c > 0,
    ;
    if n >= SIGNIFICAND_LIMIT * d {
        lemma_rounded_common(n, 2 * d, c);
        assert(c * (2 * d) == 2 * (c * d)) by (nonlinear_arith);
    } else if n < LEAST_SIGNIFICAND * d {
        lemma_rounded_common(2 * n, d, c);
        assert(c * (2 * n) == 2 * (c * n)) by (nonlinear_arith);
    } else {
        lemma_nearest_even_common(n, d, c);
    }
}

/// A power of two moves to the exponent.
proof fn lemma_rounded_scale(n: nat, d: nat, j: nat)
    requires
        n > 0,
        d > 0,
    ensures
        rounded(n * pow2(j), d) == rounded(n, d).shift(j as int),
    decreases j,
{
    if j == 0 {
        lemma2_to64();
    } else {
        let i = (j - 1) as nat;
        lemma_rounded_scale(n, d, i);
        lemma_pow2_unfold(j);
        lemma_pow2_pos(i);
        let h = n * pow2(i);
        assert(n * pow2(j) == 2 * h) by (nonlinear_arith)
            requires
                pow2(j) == 2 * pow2(i),
                h == n * pow2(i),
        ;
        assert(h > 0) by (nonlinear_arith)
            requires
                n > 0,
                pow2(i) > 0,
                h == n * pow2(i),
        ;
        if h >= LEAST_SIGNIFICAND * d {
            lemma_rounded_common(h, d, 2);
        }
    }
}

/// The whole part, computed in any unit that divides one and the number.
proof fn lemma_whole_at(x: Scaled, k: int)
    requires
        k <= x.e,
        k <= 0,
    ensures
        x.whole() == x.at(k) / pow2((-k) as nat),
{
    lemma_pow2_pos((-k) as nat);
    let u = pow2((-k) as nat) as int;
    if x.e >= 0 {
        lemma_pow2_adds(x.e as nat, (-k) as nat);
        let p = pow2(x.e as nat) as int;
        lemma_mul_is_associative(x.m as int, p, u);
        lemma_div_by_multiple(x.m * p, u);
    } else {
        let a = (-x.e) as nat;
        let b = (x.e - k) as nat;
        lemma_pow2_adds(a, b);
        lemma_pow2_pos(a);
        lemma_pow2_pos(b);
        lemma_div_denominator((x.m * pow2(b)) as int, pow2(b) as int, pow2(a) as int);
        lemma_mul_is_commutative(pow2(a) as int, pow2(b) as int);
        lemma_div_by_multiple(x.m as int, pow2(b) as int);
    }
}

/// The whole part keeps the order.
proof fn lemma_whole_monotone(x: Scaled, y: Scaled, k: int)
    requires
        k <= x.e,
        k <= y.e,
        k <= 0,
        x.at(k) <= y.at(k),
    ensures
        x.whole() <= y.whole(),
{
    lemma_whole_at(x, k);
    lemma_whole_at(y, k);
    lemma_pow2_pos((-k) as nat);
    lemma_div_is_ordered(x.at(k) as int, y.at(k) as int, pow2((-k) as nat) as int);
}

/// The product in terms of the first factor counted in units of `2^k`.
proof fn lemma_product_at(x: Scaled, y: Scaled, k: int)
    requires
        x.m > 0,
        y.m > 0,
        k <= x.e,
    ensures
        product(x, y) == rounded(x.at(k) * y.m, 1).shift(k + y.e),
        x.at(k) > 0,
        x.at(k) * y.m > 0,
{
    let j = (x.e - k) as nat;
    let p = pow2(j);
    lemma_pow2_pos(j);
    assert((x.m * p) * y.m == (x.m * y.m) * p) by (nonlinear_arith);
    lemma_mul_strictly_positive(x.m as int, y.m as int);
    lemma_mul_strictly_positive(x.m as int, p as int);
    lemma_mul_strictly_positive((x.m * p) as int, y.m as int);
    lemma_rounded_scale(x.m * y.m, 1, j);
}

/// The whole part of a product grows with the first factor.
proof fn lemma_product_monotone(x1: Scaled, x2: Scaled, y: Scaled, k: int)
    requires
        y.m > 0,
        k <= x1.e,
        k <= x2.e,
        x1.at(k) <= x2.at(k),
    ensures
        product(x1, y).whole() <= product(x2, y).whole(),
{
    lemma_pow2_pos((x1.e - k) as nat);
    lemma_pow2_pos((x2.e - k) as nat);
    if x1.m == 0 {
        lemma_mul_basics_1(y.m as int);
        lemma_zero(product(x1, y));
    } else {
        lemma_mul_strictly_positive(x1.m as int, pow2((x1.e - k) as nat) as int);
        if x2.m == 0 {
            assert(x2.at(k) == 0);
        }
        lemma_product_at(x1, y, k);
        lemma_product_at(x2, y, k);
        let n1 = x1.at(k) * y.m;
        let n2 = x2.at(k) * y.m;
        lemma_mul_inequality(x1.at(k) as int, x2.at(k) as int, y.m as int);
        let r1 = rounded(n1, 1);
        let r2 = rounded(n2, 1);
        let s = k + y.e;
        let low = if r1.e <= r2.e {
            r1.e
        } else {
            r2.e
        };
        let j = if low + s <= 0 {
            low
        } else {
            -s
        };
        lemma_rounded_monotone(n1, n2, 1, j);
        assert(product(x1, y).at(j + s) == r1.at(j));
        assert(product(x2, y).at(j + s) == r2.at(j));
        lemma_whole_monotone(product(x1, y), product(x2, y), j + s);
    }
}

proof fn lemma_zero(x: Scaled)
    requires
        x.m == 0,
    ensures
        x.whole() == 0,
{
    if x.e < 0 {
        lemma_pow2_pos((-x.e) as nat);
        lemma_div_of0(pow2((-x.e) as nat) as int);
    }
}

/// `2^k` as a machine integer.
fn power_of_two(k: u64) -> (p: u64)
    requires
        k <= 62,
    ensures
        p == pow2(k as nat),
{
    let mut p: u64 = 1;
    let mut i: u64 = 0;
    proof {
        lemma2_to64();
        lemma2_to64_rest();
    }
    while i < k
        invariant
            i <= k <= 62,
            p == pow2(i as nat),
        decreases k - i,
    {
        proof {
            lemma_pow2_unfold((i + 1) as nat);
            lemma2_to64_rest();
            if i + 1 < 62 {
                lemma_pow2_strictly_increases((i + 1) as nat, 62);
            }
            assert(pow2(62) == 0x4000_0000_0000_0000);
        }
        p = 2 * p;
        i = i + 1;
    }
    p
}

impl Soft {
    /// The rounded product of two numbers.
    fn times(self, other: Soft) -> (r: Soft)
        requires
            self.wf(),
            other.wf(),
        ensures
            r@ == product(self@, other@),
            r.m <= SIGNIFICAND_LIMIT,
            -3000 <= r.e <= 3000,
    {
        proof {
            lemma_mul_upper_bound(
                self.m as int,
                SIGNIFICAND_LIMIT as int,
                other.m as int,
                SIGNIFICAND_LIMIT as int,
            );
        }
        let p: Soft = round_fraction(self.m * other.m, 1);
        Soft { m: p.m, e: p.e + self.e + other.e }
    }

    /// The whole part, clamped to `u32`.
    fn to_u32(self) -> (n: u32)
        requires
            self.m <= SIGNIFICAND_LIMIT,
            -3000 <= self.e <= 3000,
        ensures
            n == saturated(self@.whole()),
    {
        proof {
            lemma2_to64();
        }
        if self.m == 0 {
            proof {
                lemma_zero(self@);
            }
            0
        } else if self.e > 32 {
            proof {
                lemma_pow2_strictly_increases(32, self.e as nat);
                lemma_mul_increases(self.m as int, pow2(self.e as nat) as int);
                lemma_mul_is_commutative(self.m as int, pow2(self.e as nat) as int);
            }
            u32::MAX
        } else if self.e >= 0 {
            let p: u64 = power_of_two(self.e as u64);
            proof {
                if self.e < 32 {
                    lemma_pow2_strictly_increases(self.e as nat, 32);
                }
                lemma_mul_upper_bound(
                    self.m as int,
                    SIGNIFICAND_LIMIT as int,
                    p as int,
                    0x1_0000_0000,
                );
            }
            let n: u64 = self.m * p;
            if n > u32::MAX as u64 {
                u32::MAX
            } else {
                n as u32
            }
        } else if self.e < -32 {
            proof {
                lemma_pow2_strictly_increases(32, (-self.e) as nat);
                lemma_basic_div(self.m as int, pow2((-self.e) as nat) as int);
            }
            0
        } else {
            let p: u64 = power_of_two((-self.e) as u64);
            proof {
                lemma_pow2_pos((-self.e) as nat);
                lemma_div_nonincreasing(self.m as int, p as int);
            }
            (self.m / p) as u32
        }
    }
}

/// The largest number below one: 1 - 2^-24.
spec fn below_one() -> Scaled {
    Scaled { m: (SIGNIFICAND_LIMIT - 1) as nat, e: -24 }
}

/// A number in units of its own exponent.
proof fn lemma_at_own_exponent(x: Scaled)
    ensures
        x.at(x.e) == x.m,
{
    lemma2_to64();
    lemma_mul_basics(x.m as int);
}

/// An integer below 2^24 is not changed by rounding.
proof fn lemma_rounded_exact(n: nat)
    requires
        0 < n < SIGNIFICAND_LIMIT,
    ensures
        rounded(n, 1).e <= 0,
        rounded(n, 1).m == n * pow2((-rounded(n, 1).e) as nat),
        LEAST_SIGNIFICAND <= rounded(n, 1).m < SIGNIFICAND_LIMIT,
    decreases (if n < LEAST_SIGNIFICAND { LEAST_SIGNIFICAND - n } else { 0 }),
{
    if n < LEAST_SIGNIFICAND {
        lemma_rounded_exact(2 * n);
        let j = (-rounded(2 * n, 1).e) as nat;
        lemma_pow2_unfold(j + 1);
        let p = pow2(j);
        assert((2 * n) * p == n * (2 * p)) by (nonlinear_arith);
    } else {
        lemma2_to64();
        lemma_mul_basics(n as int);
    }
}

/// How an integer of at least 2^24 is rounded.
proof fn lemma_rounded_large(n: nat, d: nat)
    requires
        d > 0,
        n >= LEAST_SIGNIFICAND * d,
    ensures
        rounded(n, d).e >= 0,
        LEAST_SIGNIFICAND * (d * pow2(rounded(n, d).e as nat)) <= n < SIGNIFICAND_LIMIT * (d
            * pow2(rounded(n, d).e as nat)),
        rounded(n, d).m == nearest_even(n, d * pow2(rounded(n, d).e as nat)),
    decreases n - LEAST_SIGNIFICAND * d,
{
    lemma2_to64();
    lemma_mul_basics(d as int);
    if n >= SIGNIFICAND_LIMIT * d {
        lemma_rounded_large(n, 2 * d);
        let j = rounded(n, 2 * d).e as nat;
        lemma_pow2_unfold(j + 1);
        let p = pow2(j);
        assert((2 * d) * p == d * (2 * p)) by (nonlinear_arith);
    }
}

/// Rounding to a given exponent.
proof fn lemma_rounded_at_exponent(n: nat, d: nat, j: nat)
    requires
        d > 0,
        LEAST_SIGNIFICAND * (d * pow2(j)) <= n < SIGNIFICAND_LIMIT * (d * pow2(j)),
    ensures
        rounded(n, d) == (Scaled { m: nearest_even(n, d * pow2(j)), e: j as int }),
    decreases j,
{
    lemma2_to64();
    lemma_mul_basics(d as int);
    if j > 0 {
        let i = (j - 1) as nat;
        lemma_pow2_unfold(j);
        lemma_pow2_pos(i);
        let p = pow2(i);
        assert((2 * d) * p == d * (2 * p)) by (nonlinear_arith);
        assert(d * (2 * p) >= 2 * d) by (nonlinear_arith)
            requires
                p >= 1,
        ;
        lemma_rounded_at_exponent(n, 2 * d, i);
    }
}

/// Every part of a span that is below one takes no more than the span, although
/// the span itself may be rounded up.
proof fn lemma_below_one_share(span: nat)
    requires
        span > 0,
    ensures
        product(below_one(), rounded(span, 1)).whole() <= span,
{
    let s = rounded(span, 1);
    let b = below_one();
    let one = Scaled { m: SIGNIFICAND_LIMIT as nat, e: -24 };
    lemma_rounded_range(span, 1);
    lemma2_to64();
    lemma_at_own_exponent(b);
    lemma_at_own_exponent(one);
    if span < SIGNIFICAND_LIMIT {
        lemma_rounded_exact(span);
        lemma_times_one(s);
        lemma_product_monotone(b, one, s, -24);
        let u = pow2((-s.e) as nat) as int;
        lemma_pow2_pos((-s.e) as nat);
        lemma_div_by_multiple(span as int, u);
        if s.e == 0 {
            lemma_mul_basics(s.m as int);
        }
    } else {
        lemma_rounded_large(span, 1);
        let k = s.e as nat;
        let u = pow2(k);
        lemma_pow2_pos(k);
        lemma_mul_basics(u as int);
        let q = span / u;
        lemma_fundamental_div_mod(span as int, u as int);
        lemma_quotient_range(span as int, u as int);
        assert(q * u <= span) by (nonlinear_arith)
            requires
                span == u * q + span % u,
        ;
        if s.m == q {
            lemma_times_one(s);
            lemma_product_monotone(b, one, s, -24);
        } else {
            let n = b.m * s.m;
            assert(n == SIGNIFICAND_LIMIT * s.m - s.m) by (nonlinear_arith)
                requires
                    n == b.m * s.m,
                    b.m == SIGNIFICAND_LIMIT - 1,
            ;
            lemma_rounded_at_exponent(n, 1, 24);
            lemma_fundamental_div_mod_converse(
                n as int,
                SIGNIFICAND_LIMIT as int,
                q as int,
                SIGNIFICAND_LIMIT - s.m,
            );
            assert(product(b, s) == (Scaled { m: q, e: k as int }));
        }
    }
}

/// One times a rounded number is that number.
proof fn lemma_times_one(s: Scaled)
    requires
        LEAST_SIGNIFICAND <= s.m < SIGNIFICAND_LIMIT,
    ensures
        product(Scaled { m: SIGNIFICAND_LIMIT as nat, e: -24 }, s) == s,
{
    lemma2_to64();
    lemma_rounded_scale(s.m, 1, 24);
    lemma_mul_is_commutative(s.m as int, SIGNIFICAND_LIMIT as int);
}

/// A fraction below one whose denominator has at most 24 bits rounds to a number
/// below one.
proof fn lemma_proper_fraction(n: nat, d: nat)
    requires
        0 < n < d < SIGNIFICAND_LIMIT,
    ensures
        rounded(n, d).e <= -24,
        rounded(n, d).m > 0,
        rounded(n, d).at(rounded(n, d).e) <= below_one().at(rounded(n, d).e),
{
    let x = rounded(n, d);
    let big = n * pow2(24);
    lemma2_to64();
    lemma_rounded_scale(n, d, 24);
    lemma_rounded_range(big, d);
    lemma_at_own_exponent(x);
    if big < LEAST_SIGNIFICAND * d {
        lemma_apart(x, below_one(), x.e);
    } else {
        assert(x == (Scaled { m: nearest_even(big, d), e: -24 }));
        lemma_at_own_exponent(below_one());
        let q = big / d;
        lemma_fundamental_div_mod(big as int, d as int);
        assert(q < SIGNIFICAND_LIMIT - 1) by (nonlinear_arith)
            requires
                big == d * q + big % d,
                big % d >= 0,
                big == n * 0x100_0000,
                n < d,
                d < 0x100_0000,
                SIGNIFICAND_LIMIT == 0x100_0000,
        ;
    }
}

/// A proper fraction of a span is no more than the span.
pub proof fn law_share_within_span(n: nat, d: nat, span: nat)
    requires
        n < d < SIGNIFICAND_LIMIT,
    ensures
        share(n, d, span) <= span,
{
    if n == 0 || span == 0 {
        law_share_of_nothing(n, d, span);
    } else {
        let x = rounded(n, d);
        lemma_proper_fraction(n, d);
        lemma_rounded_range(span, 1);
        lemma_product_monotone(x, below_one(), rounded(span, 1), x.e);
        lemma_below_one_share(span);
    }
}

/// No part, and a part of nothing, are nothing.
pub proof fn law_share_of_nothing(n: nat, d: nat, span: nat)
    requires
        n == 0 || span == 0,
    ensures
        share(n, d, span) == 0,
{
    let x = rounded(n, d);
    let s = rounded(span, 1);
    assert(x.m * s.m == 0) by (nonlinear_arith)
        requires
            x.m == 0 || s.m == 0,
    ;
    lemma_zero(product(x, s));
}

/// Equal fractions take equal shares.
pub proof fn law_share_common_factor(n: nat, d: nat, c: nat, span: nat)
    requires
        d > 0,
        c > 0,
    ensures
        share(c * n, c * d, span) == share(n, d, span),
{
    if n == 0 {
        lemma_mul_basics_2(c as int);
        law_share_of_nothing(0, d, span);
        law_share_of_nothing(0, c * d, span);
    } else {
        lemma_rounded_common(n, d, c);
    }
}

/// The share grows with the numerator.
pub proof fn law_share_monotone(n1: nat, n2: nat, d: nat, span: nat)
    requires
        n1 <= n2,
        d > 0,
    ensures
        share(n1, d, span) <= share(n2, d, span),
{
    if n1 == 0 || span == 0 {
        law_share_of_nothing(n1, d, span);
    } else {
        let x1 = rounded(n1, d);
        let x2 = rounded(n2, d);
        lemma_rounded_range(span, 1);
        let k = if x1.e <= x2.e {
            x1.e
        } else {
            x2.e
        };
        lemma_rounded_monotone(n1, n2, d, k);
        lemma_product_monotone(x1, x2, rounded(span, 1), k);
    }
}

/// Rounding changes a fraction by at most the part 2^-24 of itself.
proof fn lemma_rounded_error(n: nat, d: nat, k: int)
    requires
        n > 0,
        d > 0,
        k <= 0,
        k <= rounded(n, d).e,
    ensures
        ({
            let exact = n * pow2((-k) as nat);
            let off = rounded(n, d).at(k) * d - exact;
            -exact <= off * SIGNIFICAND_LIMIT <= exact
        }),
    decreases
            (if n < LEAST_SIGNIFICAND * d {
                LEAST_SIGNIFICAND * d - n
            } else {
                0
            }),
            n - LEAST_SIGNIFICAND * d,
{
    let r = rounded(n, d);
    let u = pow2((-k) as nat);
    let exact = n * u;
    let off = r.at(k) * d - exact;
    lemma_rounded_range(n, d);
    lemma_pow2_pos((-k) as nat);
    if n >= SIGNIFICAND_LIMIT * d {
        lemma_rounded_error(n, 2 * d, k - 1);
        lemma_pow2_unfold((1 - k) as nat);
        let a = r.at(k);
        assert(a == rounded(n, 2 * d).at(k - 1));
        assert(a * (2 * d) - n * (2 * u) == 2 * off) by (nonlinear_arith)
            requires
                off == a * d - n * u,
        ;
        assert(n * (2 * u) == 2 * exact) by (nonlinear_arith)
            requires
                exact == n * u,
        ;
    } else if n < LEAST_SIGNIFICAND * d {
        lemma_rounded_error(2 * n, d, k + 1);
        lemma_pow2_unfold((-k) as nat);
        let v = pow2((-k - 1) as nat);
        assert(r.at(k) == rounded(2 * n, d).at(k + 1));
        assert((2 * n) * v == n * (2 * v)) by (nonlinear_arith);
    } else {
        let m = r.m;
        let q = n / d;
        let rest = n % d;
        lemma_fundamental_div_mod(n as int, d as int);
        assert(-n <= (m * d - n) * 0x100_0000 <= n) by (nonlinear_arith)
            requires
                n == d * q + rest,
                0 <= rest < d,
                (m == q && 2 * rest <= d) || (m == q + 1 && 2 * rest >= d),
                n >= 0x80_0000 * d,
        ;
        assert(off == (m * d - n) * u) by (nonlinear_arith)
            requires
                off == (m * u) * d - n * u,
        ;
        assert(-exact <= off * 0x100_0000 <= exact) by (nonlinear_arith)
            requires
                off == (m * d - n) * u,
                exact == n * u,
                -n <= (m * d - n) * 0x100_0000 <= n,
                u > 0,
        ;
    }
}

/// Of a span below 2^22 the share of a proper fraction is the exact one, rounded
/// down, or differs from it by one.
pub proof fn law_share_is_close(n: nat, d: nat, span: nat)
    requires
        n < d,
        span < 0x40_0000,
    ensures
        (n * span) / d - 1 <= share(n, d, span) <= (n * span) / d + 1,
{
    let w = share(n, d, span);
    if n == 0 || span == 0 {
        law_share_of_nothing(n, d, span);
        assert(n * span == 0) by (nonlinear_arith)
            requires
                n == 0 || span == 0,
        ;
        lemma_div_of0(d as int);
    } else {
        let x = rounded(n, d);
        let s = rounded(span, 1);
        lemma_rounded_range(n, d);
        lemma_rounded_exact(span);
        lemma_rounded_range(span, 1);
        let k = x.e;
        let xs = x.at(k);
        lemma_product_at(x, s, k);
        let big = xs * span;
        let sp = pow2((-s.e) as nat);
        lemma_mul_is_associative(xs as int, span as int, sp as int);
        lemma_mul_strictly_positive(xs as int, span as int);
        lemma_rounded_scale(big, 1, (-s.e) as nat);
        let r = rounded(big, 1);
        let p = product(x, s);
        assert(p == r.shift(k));
        let j = if r.e <= 0 {
            r.e
        } else {
            0
        };
        lemma_rounded_error(n, d, k);
        lemma_rounded_error(big, 1, j);
        let v = pow2((-k) as nat);
        let u = pow2((-j) as nat);
        let rr = r.at(j);
        lemma_pow2_pos((-k) as nat);
        lemma_pow2_pos((-j) as nat);
        lemma_pow2_adds((-j) as nat, (-k) as nat);
        lemma_whole_at(p, j + k);
        assert(p.at(j + k) == rr);
        let unit = u * v;
        lemma_mul_strictly_positive(u as int, v as int);
        lemma_fundamental_div_mod(rr as int, unit as int);
        lemma_close(
            n as int,
            d as int,
            span as int,
            xs as int,
            rr as int,
            u as int,
            v as int,
            unit as int,
            w as int,
        );
    }
}

/// The arithmetic of two rounding errors.
proof fn lemma_close(n: int, d: int, span: int, x: int, r: int, u: int, v: int, unit: int, w: int)
    requires
        0 < n < d,
        0 < span < 0x40_0000,
        x > 0,
        u > 0,
        v > 0,
        unit == u * v,
        unit > 0,
        -(n * v) <= (x * d - n * v) * 0x100_0000 <= n * v,
        -((x * span) * u) <= (r * 1 - (x * span) * u) * 0x100_0000 <= (x * span) * u,
        r == unit * w + r % unit,
        0 <= r % unit < unit,
    ensures
        n * span / d - 1 <= w <= n * span / d + 1,
{
    let exact = n * span * unit;
    let e1 = r - x * span * u;
    let e2 = x * d - n * v;
    let a = x * span * u;
    let b = n * v * (span * u);
    assert(b == exact) by (nonlinear_arith)
        requires
            b == n * v * (span * u),
            exact == n * span * unit,
            unit == u * v,
    ;
    // `r * d - exact` splits into the two errors.
    let t1 = e1 * d;
    let t2 = e2 * (span * u);
    assert(r * d - exact == t1 + t2) by (nonlinear_arith)
        requires
            e1 == r - x * span * u,
            e2 == x * d - n * v,
            t1 == e1 * d,
            t2 == e2 * (span * u),
            exact == n * v * (span * u),
    ;
    let su = span * u;
    lemma_mul_strictly_positive(span, u);
    assert(-exact <= t2 * 0x100_0000 <= exact) by (nonlinear_arith)
        requires
            t2 == e2 * su,
            su > 0,
            exact == n * v * su,
            -(n * v) <= e2 * 0x100_0000 <= n * v,
    ;
    let ad = a * d;
    assert(ad == exact + t2) by (nonlinear_arith)
        requires
            ad == a * d,
            a == x * span * u,
            e2 == x * d - n * v,
            t2 == e2 * su,
            su == span * u,
            exact == n * v * su,
    ;
    assert(-ad <= t1 * 0x100_0000 <= ad) by (nonlinear_arith)
        requires
            t1 == e1 * d,
            ad == a * d,
            d > 0,
            -a <= e1 * 0x100_0000 <= a,
    ;
    let du = d * unit;
    assert(exact < 0x40_0000 * du) by (nonlinear_arith)
        requires
            exact == n * span * unit,
            du == d * unit,
            0 < n < d,
            0 < span < 0x40_0000,
            unit > 0,
    ;
    assert(-du < r * d - exact < du);
    let rest = r % unit;
    assert(w * d < n * span + d && n * span < (w + 2) * d) by (nonlinear_arith)
        requires
            r == unit * w + rest,
            0 <= rest < unit,
            -du < r * d - exact < du,
            exact == n * span * unit,
            du == d * unit,
            d > 0,
            unit > 0,
    ;
    let q = n * span / d;
    lemma_fundamental_div_mod(n * span, d);
    assert(q - 1 <= w <= q + 1) by (nonlinear_arith)
        requires
            n * span == d * q + (n * span) % d,
            0 <= (n * span) % d < d,
            w * d < n * span + d,
            n * span < (w + 2) * d,
            d > 0,
    ;
}

/// The share that the proper fraction `n / d` takes of `span`.
pub fn share_of(n: u32, d: u32, span: u32) -> (r: u32)
    requires
        n < d < SIGNIFICAND_LIMIT,
    ensures
        r == share(n as nat, d as nat, span as nat),
{
    let x: Soft = round_fraction(n as u64, d as u64);
    let s: Soft = round_fraction(span as u64, 1);
    proof {
        law_share_within_span(n as nat, d as nat, span as nat);
    }
    x.times(s).to_u32()
}

/// The share that the encoded number takes of `span`.
pub fn share_of_encoded(bits: u32, span: u32) -> (r: u32)
    ensures
        r == encoded_share(bits, span),
{
    if bits > INFINITY {
        0
    } else if bits == INFINITY {
        if span == 0 {
            0
        } else {
            u32::MAX
        }
    } else {
        let fraction: u64 = bits as u64 % LEAST_SIGNIFICAND;
        let exponent: u64 = bits as u64 / LEAST_SIGNIFICAND;
        let x: Soft = if exponent == 0 {
            Soft { m: fraction, e: -149 }
        } else {
            Soft { m: LEAST_SIGNIFICAND + fraction, e: exponent as i64 - 150 }
        };
        let s: Soft = round_fraction(span as u64, 1);
        x.times(s).to_u32()
    }
}

/// The encoding of a number below one takes no more than the span.
pub proof fn law_encoded_share_within_span(bits: u32, span: u32)
    requires
        bits < ONE,
    ensures
        encoded_share(bits, span) <= span,
{
    let x = decoded(bits);
    let s = rounded(span as nat, 1);
    if x.m == 0 || span == 0 {
        assert(x.m * s.m == 0) by (nonlinear_arith)
            requires
                x.m == 0 || s.m == 0,
        ;
        lemma_zero(product(x, s));
    } else {
        lemma_at_own_exponent(x);
        if x.e == -24 {
            lemma_at_own_exponent(below_one());
        } else {
            lemma_apart(x, below_one(), x.e);
        }
        lemma_rounded_range(span as nat, 1);
        lemma_product_monotone(x, below_one(), s, x.e);
        lemma_below_one_share(span as nat);
    }
}

/// Among numbers that are not negative the encoding keeps the order, and so does
/// the share.
pub proof fn law_encoded_share_monotone(bits1: u32, bits2: u32, span: u32)
    requires
        bits1 <= bits2 <= INFINITY,
    ensures
        encoded_share(bits1, span) <= encoded_share(bits2, span),
{
    let s = rounded(span as nat, 1);
    if span == 0 {
        let x1 = decoded(bits1);
        lemma_mul_basics_2(x1.m as int);
        lemma_zero(product(x1, s));
    } else if bits2 < INFINITY {
        let x1 = decoded(bits1);
        let x2 = decoded(bits2);
        if x1.e == x2.e {
            lemma_at_own_exponent(x1);
            lemma_at_own_exponent(x2);
        } else {
            lemma_apart(x1, x2, x1.e);
        }
        lemma_rounded_range(span as nat, 1);
        lemma_product_monotone(x1, x2, s, x1.e);
    }
}

/// Of a span below 2^22, the share that an encoded number below one takes is the
/// number times the span, rounded down, or differs from that by one. The number is
/// given by the fields of its encoding: an exponent field above the 23 bits of the
/// fraction, biased by 127 and with the fraction counted in units of the last place,
/// and a leading one that only numbers with a zero exponent field lack.
pub proof fn law_encoded_share_is_close(bits: u32, span: u32, m: nat, e: int)
    requires
        bits < 0x3f80_0000,
        span < 0x40_0000,
        bits / 0x80_0000 == 0 ==> m == bits && e == -149,
        bits / 0x80_0000 > 0 ==> m == 0x80_0000 + bits % 0x80_0000 && e == bits / 0x80_0000 - 150,
    ensures
        (m * span) / pow2((-e) as nat) as int - 1 <= encoded_share(bits, span),
        encoded_share(bits, span) <= (m * span) / pow2((-e) as nat) as int + 1,
{
    let x = decoded(bits);
    let s = rounded(span as nat, 1);
    let v = pow2((-e) as nat);
    let p = product(x, s);
    lemma_pow2_pos((-e) as nat);
    law_encoded_share_within_span(bits, span);
    if m == 0 || span == 0 {
        assert(x.m * s.m == 0 && m * span == 0) by (nonlinear_arith)
            requires
                x.m == 0 || s.m == 0,
                m == 0 || span == 0,
        ;
        lemma_zero(p);
        lemma_div_of0(v as int);
    } else {
        lemma_rounded_exact(span as nat);
        lemma_at_own_exponent(x);
        lemma_product_at(x, s, e);
        let big = m * span as nat;
        let sp = pow2((-s.e) as nat);
        lemma_mul_is_associative(m as int, span as int, sp as int);
        lemma_mul_strictly_positive(m as int, span as int);
        lemma_rounded_scale(big, 1, (-s.e) as nat);
        let r = rounded(big, 1);
        assert(p == r.shift(e));
        let j = if r.e <= 0 {
            r.e
        } else {
            0
        };
        lemma_rounded_error(big, 1, j);
        let u = pow2((-j) as nat);
        let rr = r.at(j);
        lemma_pow2_pos((-j) as nat);
        lemma_pow2_adds((-j) as nat, (-e) as nat);
        lemma_whole_at(p, j + e);
        assert(p.at(j + e) == rr);
        let unit = u * v;
        lemma_mul_strictly_positive(u as int, v as int);
        lemma_fundamental_div_mod(rr as int, unit as int);
        lemma2_to64();
        if e < -24 {
            lemma_pow2_strictly_increases(24, (-e) as nat);
        }
        assert(m < v);
        let w = p.whole() as int;
        assert(0 == (m * v - m * v) * 0x100_0000) by (nonlinear_arith);
        lemma_close(
            m as int,
            v as int,
            span as int,
            m as int,
            rr as int,
            u as int,
            v as int,
            unit as int,
            w,
        );
        assert((m * span) / v as int <= span) by (nonlinear_arith)
            requires
                m < v,
                v > 0,
        ;
    }
}

/// Zero, what is negative and what is not a number take nothing, nothing can be taken
/// of nothing, and infinity takes everything that there is a number for.
pub proof fn law_encoded_share_of_specials(bits: u32, span: u32)
    ensures
        bits == 0 || bits > 0x7f80_0000 || span == 0 ==> encoded_share(bits, span) == 0,
        bits == 0x7f80_0000 && span > 0 ==> encoded_share(bits, span) == 0xffff_ffff,
{
    if bits < INFINITY && (bits == 0 || span == 0) {
        let x = decoded(bits);
        let s = rounded(span as nat, 1);
        assert(x.m * s.m == 0) by (nonlinear_arith)
            requires
                x.m == 0 || s.m == 0,
        ;
        lemma_zero(product(x, s));
    }
}

/// The nearest number of 24 significant bits is unique, and it is what rounding gives.
proof fn lemma_nearest_is_rounded(n: nat, d: nat, m: nat, e: int)
    requires
        n > 0,
        d > 0,
        ({
            let a = n * pow2((if e < 0 { -e } else { 0 }) as nat);
            let b = d * pow2((if e > 0 { e } else { 0 }) as nat);
            &&& 0x80_0000 * b <= a < 0x100_0000 * b
            &&& -b <= 2 * (m * b - a) <= b
            &&& 2 * (m * b - a) == b || 2 * (m * b - a) == -b ==> m % 2 == 0
        }),
    ensures
        rounded(n, d) == (Scaled { m, e }),
{
    let i = (if e < 0 {
        -e
    } else {
        0
    }) as nat;
    let j = (if e > 0 {
        e
    } else {
        0
    }) as nat;
    let a = n * pow2(i);
    let b = d * pow2(j);
    lemma2_to64();
    lemma_pow2_pos(i);
    lemma_pow2_pos(j);
    lemma_mul_strictly_positive(n as int, pow2(i) as int);
    lemma_mul_strictly_positive(d as int, pow2(j) as int);
    lemma_mul_basics(n as int);
    lemma_mul_basics(d as int);
    lemma_rounded_scale(n, d, i);
    lemma_rounded_at_exponent(a, d, j);
    let q = (a / b) as int;
    let r = (a % b) as int;
    lemma_fundamental_div_mod(a as int, b as int);
    assert(m == q || m == q + 1) by (nonlinear_arith)
        requires
            a == b * q + r,
            0 <= r < b,
            -b <= 2 * (m * b - a) <= b,
    ;
    assert(m * b - a == if m == q { -r } else { b - r }) by (nonlinear_arith)
        requires
            a == b * q + r,
            m == q || m == q + 1,
    ;
}

/// The share is what single-precision arithmetic gives. Let `qm * 2^qe` be the
/// number of 24 significant bits that is nearest to `n / d`, `sm * 2^se` the one
/// nearest to `span`, and `pm * 2^(pe + qe + se)` the one nearest to their product,
/// ties to even. Then the share is the whole part of the last.
pub proof fn law_share_is_correctly_rounded(
    n: nat,
    d: nat,
    span: nat,
    qm: nat,
    qe: int,
    sm: nat,
    se: int,
    pm: nat,
    pe: int,
)
    requires
        n > 0,
        d > 0,
        span > 0,
        ({
            let nearest = |n: nat, d: nat, m: nat, e: int|
                {
                    let a = n * pow2((if e < 0 { -e } else { 0 }) as nat);
                    let b = d * pow2((if e > 0 { e } else { 0 }) as nat);
                    &&& 0x80_0000 * b <= a < 0x100_0000 * b
                    &&& -b <= 2 * (m * b - a) <= b
                    &&& 2 * (m * b - a) == b || 2 * (m * b - a) == -b ==> m % 2 == 0
                };
            &&& nearest(n, d, qm, qe)
            &&& nearest(span, 1, sm, se)
            &&& nearest(qm * sm, 1, pm, pe)
        }),
    ensures
        pe + qe + se >= 0 ==> share(n, d, span) == pm * pow2((pe + qe + se) as nat),
        pe + qe + se < 0 ==> share(n, d, span) == pm / pow2((-pe - qe - se) as nat),
{
    lemma_nearest_is_rounded(n, d, qm, qe);
    lemma_nearest_is_rounded(span, 1, sm, se);
    lemma_rounded_range(n, d);
    lemma_rounded_range(span, 1);
    lemma_mul_strictly_positive(qm as int, sm as int);
    lemma_nearest_is_rounded(qm * sm, 1, pm, pe);
}

/// The share of an encoded number is what single-precision arithmetic gives. Let
/// `m * 2^e` be the number, given by the fields of its encoding, `sm * 2^se` the
/// number of 24 significant bits that is nearest to `span`, and `pm * 2^(pe + e + se)`
/// the one nearest to their product, ties to even. Then the share is the whole part of
/// the last, or the largest `u32` where that is larger.
pub proof fn law_encoded_share_is_correctly_rounded(
    bits: u32,
    span: u32,
    m: nat,
    e: int,
    sm: nat,
    se: int,
    pm: nat,
    pe: int,
)
    requires
        0 < bits < 0x7f80_0000,
        span > 0,
        bits / 0x80_0000 == 0 ==> m == bits && e == -149,
        bits / 0x80_0000 > 0 ==> m == 0x80_0000 + bits % 0x80_0000 && e == bits / 0x80_0000 - 150,
        ({
            let nearest = |n: nat, d: nat, m: nat, e: int|
                {
                    let a = n * pow2((if e < 0 { -e } else { 0 }) as nat);
                    let b = d * pow2((if e > 0 { e } else { 0 }) as nat);
                    &&& 0x80_0000 * b <= a < 0x100_0000 * b
                    &&& -b <= 2 * (m * b - a) <= b
                    &&& 2 * (m * b - a) == b || 2 * (m * b - a) == -b ==> m % 2 == 0
                };
            &&& nearest(span as nat, 1, sm, se)
            &&& nearest(m * sm, 1, pm, pe)
        }),
    ensures
        ({
            let whole = if pe + e + se >= 0 {
                pm * pow2((pe + e + se) as nat)
            } else {
                pm / pow2((-pe - e - se) as nat)
            };
            encoded_share(bits, span) == (if whole <= 0xffff_ffff {
                whole
            } else {
                0xffff_ffff
            })
        }),
{
    lemma_nearest_is_rounded(span as nat, 1, sm, se);
    lemma_rounded_range(span as nat, 1);
    lemma_mul_strictly_positive(m as int, sm as int);
    lemma_nearest_is_rounded(m * sm, 1, pm, pe);
    assert(decoded(bits) == (Scaled { m, e }));
}

} // verus!
