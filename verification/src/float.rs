//! Binary floating-point arithmetic on values that are not negative, in integers: every operation
//! gives the value with a given number of significant bits that is nearest to the exact result,
//! and of two that are equally near the one with an even last bit. That is what IEEE 754 asks of
//! the single format (24 bits) and of the double format (53 bits) for results in their range.
use vstd::prelude::*;

verus! {

/// Half of the first integer that needs more bits than the single format has.
pub const SINGLE: u128 = 0x80_0000;

/// Half of the first integer that needs more bits than the double format has.
pub const DOUBLE: u128 = 0x10_0000_0000_0000;

/// A value: `m` divided by `d`, which is a power of two.
#[derive(Clone, Copy, Debug, PartialEq, Eq, Structural)]
pub struct Float {
    pub m: u128,
    pub d: u128,
}

/// The integer nearest to `num / den`; of two that are equally near, the even one.
pub open spec fn nearest_integer(num: nat, den: nat) -> nat {
    let q = num / den;
    let r = num % den;
    if 2 * r < den || (2 * r == den && q % 2 == 0) {
        q
    } else {
        q + 1
    }
}

/// The least power of two that takes `num` to `bound`, by multiplication.
pub open spec fn growth(num: nat, bound: nat) -> nat
    decreases
            if num < bound {
                bound - num
            } else {
                0
            },
{
    if num == 0 || num >= bound {
        1
    } else {
        2 * growth(2 * num, bound)
    }
}

/// Whether a number is a power of two.
pub open spec fn is_power(n: nat) -> bool
    decreases n,
{
    n == 1 || (n > 1 && n % 2 == 0 && is_power(n / 2))
}

/// The value nearest to `num / den`, for a format whose significands run from `half` up to twice
/// that: the pair of its significand and its power of two.
pub open spec fn rounded(num: nat, den: nat, half: nat) -> (nat, nat) {
    let d = growth(num, half * den);
    (nearest_integer(num * d, den), d)
}

pub proof fn lemma_growth_positive(num: nat, bound: nat)
    ensures
        growth(num, bound) >= 1,
    decreases
            if num < bound {
                bound - num
            } else {
                0
            },
{
    if num != 0 && num < bound {
        lemma_growth_positive(2 * num, bound);
    }
}

/// The value nearest to `num / den` in the format with significands from `half` on.
pub fn nearest(num: u128, den: u128, half: u128) -> (r: Float)
    requires
        half == SINGLE || half == DOUBLE,
        0 < den <= 0x400_0000_0000_0000_0000_0000,
        num < 2 * half * den,
        num > 0 ==> den <= num * 0x1000_0000_0000_0000,
    ensures
        (r.m as nat, r.d as nat) == rounded(num as nat, den as nat, half as nat),
        r.d >= 1,
        num == 0 ==> r.m == 0 && r.d == 1,
        num > 0 ==> half <= r.m <= 2 * half,
        r.d == 1 || num * r.d < 2 * half * den,
        r.m * den <= num * r.d + den,
        is_power(r.d as nat),
{
    let ghost bound = half * den;
    let mut q: u128 = num / den;
    let mut rest: u128 = num % den;
    let mut d: u128 = 1;
    proof {
        assert(q * den + rest == num) by (nonlinear_arith)
            requires
                q == num / den,
                rest == num % den,
                den > 0,
        ;
        assert(num * 1 == num);
        assert(q < 2 * half) by (nonlinear_arith)
            requires
                q * den + rest == num,
                num < 2 * half * den,
                den > 0,
                rest >= 0,
        ;
    }
    while num > 0 && q < half
        invariant
            half == SINGLE || half == DOUBLE,
            0 < den <= 0x400_0000_0000_0000_0000_0000,
            num > 0 ==> den <= num * 0x1000_0000_0000_0000,
            bound == half * den,
            q * den + rest == num * d,
            rest < den,
            q < 2 * half,
            d >= 1,
            d == 1 || num * d < 2 * bound,
            num == 0 ==> d == 1,
            d * growth((num * d) as nat, bound as nat) == growth(num as nat, bound as nat),
            is_power(d as nat),
        decreases
            if num * d < bound {
                bound - num * d
            } else {
                0
            },
    {
        let ghost d0 = d as int;
        let ghost q0 = q as int;
        let ghost rest0 = rest as int;
        proof {
            assert(num * d < bound) by (nonlinear_arith)
                requires
                    q * den + rest == num * d,
                    rest < den,
                    q < half,
                    bound == half * den,
            ;
            assert(num * d >= 1) by (nonlinear_arith)
                requires
                    num >= 1,
                    d >= 1,
            ;
            // The power of two stays small: the value is not far below one.
            assert(d < 0x80_0000_0000_0000_0000_0000_0000_0000) by (nonlinear_arith)
                requires
                    num * d < bound,
                    bound == half * den,
                    half <= 0x10_0000_0000_0000,
                    den <= num * 0x1000_0000_0000_0000,
                    num >= 1,
                    d >= 1,
            ;
        }
        d = d * 2;
        q = q * 2;
        rest = rest * 2;
        if rest >= den {
            q = q + 1;
            rest = rest - den;
        }
        proof {
            assert(num * d == 2 * (num * d0)) by (nonlinear_arith)
                requires
                    d == d0 * 2,
            ;
            assert(q * den + rest == 2 * (q0 * den + rest0)) by (nonlinear_arith)
                requires
                    (q == q0 * 2 && rest == rest0 * 2) || (q == q0 * 2 + 1 && rest == rest0 * 2
                        - den),
            ;
            let g = growth((num * d) as nat, bound as nat);
            assert(growth((num * d0) as nat, bound as nat) == 2 * g);
            assert(d * g == d0 * (2 * g)) by (nonlinear_arith)
                requires
                    d == d0 * 2,
            ;
        }
    }
    proof {
        assert(num * d >= bound || num == 0) by (nonlinear_arith)
            requires
                q * den + rest == num * d,
                num == 0 || q >= half,
                bound == half * den,
                rest >= 0,
        ;
        assert(growth((num * d) as nat, bound as nat) == 1) by {
            if num == 0 {
                assert(num * d == 0) by (nonlinear_arith)
                    requires
                        num == 0,
                ;
            }
        }
        assert(d * 1 == d);
        assert((num * d) / den as int == q && (num * d) % den as int == rest) by (nonlinear_arith)
            requires
                q * den + rest == num * d,
                0 <= rest < den,
                den > 0,
        ;
        assert(2 * half * den == 2 * (half * den)) by (nonlinear_arith);
    }
    let m: u128 = if rest * 2 < den || (rest * 2 == den && q % 2 == 0) {
        q
    } else {
        q + 1
    };
    proof {
        assert(m * den <= num * d + den) by (nonlinear_arith)
            requires
                q * den + rest == num * d,
                m <= q + 1,
                rest >= 0,
                den > 0,
        ;
    }
    Float { m, d }
}

impl Float {
    /// The value as a fraction.
    pub open spec fn fraction(self) -> (nat, nat) {
        (self.m as nat, self.d as nat)
    }

    /// The value is at most `top`, and zero or at least one in `low`.
    pub open spec fn within(self, top: int, low: int) -> bool {
        &&& 1 <= self.d <= 0x100_0000 * low
        &&& self.m <= 0x100_0000
        &&& self.m <= top * self.d
        &&& self.m > 0 ==> self.m * low >= self.d
    }
}

/// The value of single precision that is nearest to `num / den`, as a fraction.
pub open spec fn single(num: nat, den: nat) -> (nat, nat) {
    rounded(num, den, SINGLE as nat)
}

/// The single-precision sum of two fractions.
pub open spec fn single_sum(a: (nat, nat), b: (nat, nat)) -> (nat, nat) {
    single(a.0 * b.1 + b.0 * a.1, a.1 * b.1)
}

/// Whether one fraction is less than another.
pub open spec fn below(a: (nat, nat), b: (nat, nat)) -> bool {
    a.0 * b.1 < b.0 * a.1
}

/// The value of single precision nearest to `num / den`, which is at most `top`, and zero or at
/// least one in `low`.
pub fn single_quotient(num: u128, den: u128, Ghost(top): Ghost<int>, Ghost(low): Ghost<int>) -> (r:
    Float)
    requires
        0 < den <= 0x400_0000_0000_0000_0000_0000,
        num <= top * den,
        num > 0 ==> den <= num * low,
        0 <= top < 0x100_0000,
        1 <= low <= 0x1000_0000_0000_0000,
    ensures
        r.fraction() == single(num as nat, den as nat),
        r.within(top + 1, 2 * low),
        num == 0 ==> r.m == 0,
        num > 0 ==> r.m > 0,
{
    proof {
        assert(num < 2 * 0x80_0000 * den) by (nonlinear_arith)
            requires
                num <= top * den,
                top < 0x100_0000,
                den > 0,
        ;
        assert(num > 0 ==> den <= num * 0x1000_0000_0000_0000) by (nonlinear_arith)
            requires
                num > 0 ==> den <= num * low,
                low <= 0x1000_0000_0000_0000,
        ;
    }
    let r = nearest(num, den, SINGLE);
    proof {
        if num > 0 {
            assert(r.d <= 0x100_0000 * low) by (nonlinear_arith)
                requires
                    r.d == 1 || num * r.d < 2 * 0x80_0000 * den,
                    den <= num * low,
                    num > 0,
                    low >= 1,
            ;
        }
        assert(r.m <= (top + 1) * r.d) by (nonlinear_arith)
            requires
                r.m * den <= num * r.d + den,
                num <= top * den,
                r.d >= 1,
                den > 0,
        ;
        assert(0x80_0000 * (2 * low) == 0x100_0000 * low);
        if num > 0 {
            assert(r.m * (2 * low) >= 0x80_0000 * (2 * low)) by (nonlinear_arith)
                requires
                    r.m >= 0x80_0000,
                    low >= 1,
            ;
        }
    }
    r
}

/// The single-precision sum of two values, of which one is at most `ta` and the other at most
/// `tb`, and each is zero or at least one in `low`.
pub fn sum(
    a: Float,
    b: Float,
    Ghost(ta): Ghost<int>,
    Ghost(tb): Ghost<int>,
    Ghost(low): Ghost<int>,
) -> (r: Float)
    requires
        a.within(ta, low),
        b.within(tb, low),
        0 <= ta < 0x1_0000,
        0 <= tb < 0x1_0000,
        1 <= low <= 0x10_0000,
    ensures
        r.fraction() == single_sum(a.fraction(), b.fraction()),
        r.within(ta + tb + 1, 2 * low),
        a.m > 0 || b.m > 0 ==> r.m > 0,
{
    proof {
        assert(a.d * b.d <= 0x400_0000_0000_0000_0000_0000 && 0 < a.d * b.d) by (nonlinear_arith)
            requires
                1 <= a.d <= 0x1000_0000_0000,
                1 <= b.d <= 0x1000_0000_0000,
        ;
        assert(a.m * b.d <= 0x100_0000 * 0x1000_0000_0000) by (nonlinear_arith)
            requires
                a.m <= 0x100_0000,
                b.d <= 0x1000_0000_0000,
        ;
        assert(b.m * a.d <= 0x100_0000 * 0x1000_0000_0000) by (nonlinear_arith)
            requires
                b.m <= 0x100_0000,
                a.d <= 0x1000_0000_0000,
        ;
        assert(a.m * b.d + b.m * a.d <= (ta + tb) * (a.d * b.d)) by (nonlinear_arith)
            requires
                a.m <= ta * a.d,
                b.m <= tb * b.d,
                a.d >= 1,
                b.d >= 1,
        ;
        if a.m * b.d + b.m * a.d > 0 {
            assert(a.d * b.d <= (a.m * b.d + b.m * a.d) * low) by (nonlinear_arith)
                requires
                    a.m > 0 ==> a.m * low >= a.d,
                    b.m > 0 ==> b.m * low >= b.d,
                    a.m * b.d + b.m * a.d > 0,
                    a.m >= 0,
                    b.m >= 0,
                    a.d >= 1,
                    b.d >= 1,
                    low >= 1,
            ;
        }
        if a.m > 0 || b.m > 0 {
            assert(a.m * b.d + b.m * a.d > 0) by (nonlinear_arith)
                requires
                    a.m > 0 || b.m > 0,
                    a.m >= 0,
                    b.m >= 0,
                    a.d >= 1,
                    b.d >= 1,
            ;
        }
        assert(a.m as nat * b.d as nat == a.m * b.d);
        assert(b.m as nat * a.d as nat == b.m * a.d);
    }
    single_quotient(a.m * b.d + b.m * a.d, a.d * b.d, Ghost(ta + tb), Ghost(low))
}

/// Whether one value is less than another.
pub fn less(a: Float, b: Float) -> (r: bool)
    requires
        a.within(0x100_0000, 0x100_0000),
        b.within(0x100_0000, 0x100_0000),
    ensures
        r == below(a.fraction(), b.fraction()),
{
    proof {
        assert(a.m * b.d <= 0x100_0000 * 0x1_0000_0000_0000) by (nonlinear_arith)
            requires
                a.m <= 0x100_0000,
                b.d <= 0x1_0000_0000_0000,
        ;
        assert(b.m * a.d <= 0x100_0000 * 0x1_0000_0000_0000) by (nonlinear_arith)
            requires
                b.m <= 0x100_0000,
                a.d <= 0x1_0000_0000_0000,
        ;
    }
    a.m * b.d < b.m * a.d
}

proof fn lemma_growth_scaled(num: nat, bound: nat, k: nat)
    requires
        k > 0,
    ensures
        growth(num * k, bound * k) == growth(num, bound),
    decreases
            if num < bound {
                bound - num
            } else {
                0
            },
{
    assert((num * k == 0) == (num == 0)) by (nonlinear_arith)
        requires
            k > 0,
    ;
    assert((num * k >= bound * k) == (num >= bound)) by (nonlinear_arith)
        requires
            k > 0,
    ;
    if num != 0 && num < bound {
        lemma_growth_scaled(2 * num, bound, k);
        assert((2 * num) * k == 2 * (num * k)) by (nonlinear_arith);
    }
}

proof fn lemma_nearest_integer_scaled(num: nat, den: nat, k: nat)
    requires
        den > 0,
        k > 0,
    ensures
        nearest_integer(num * k, den * k) == nearest_integer(num, den),
{
    let q = num / den;
    let r = num % den;
    vstd::arithmetic::div_mod::lemma_fundamental_div_mod(num as int, den as int);
    assert(num * k == q * (den * k) + r * k) by (nonlinear_arith)
        requires
            num == den * q + r,
    ;
    assert(0 <= r * k < den * k) by (nonlinear_arith)
        requires
            0 <= r < den,
            k > 0,
    ;
    vstd::arithmetic::div_mod::lemma_fundamental_div_mod_converse(
        (num * k) as int,
        (den * k) as int,
        q as int,
        (r * k) as int,
    );
    assert((2 * (r * k) < den * k) == (2 * r < den)) by (nonlinear_arith)
        requires
            k > 0,
    ;
    assert((2 * (r * k) == den * k) == (2 * r == den)) by (nonlinear_arith)
        requires
            k > 0,
    ;
}

proof fn lemma_rounded_scaled(num: nat, den: nat, k: nat, half: nat)
    requires
        den > 0,
        k > 0,
    ensures
        rounded(num * k, den * k, half) == rounded(num, den, half),
{
    assert(half * (den * k) == (half * den) * k) by (nonlinear_arith);
    lemma_growth_scaled(num, half * den, k);
    let d = growth(num, half * den);
    assert((num * k) * d == (num * d) * k) by (nonlinear_arith);
    lemma_nearest_integer_scaled(num * d, den, k);
}

/// Equal fractions round to the same value.
pub proof fn lemma_rounded_same_value(n1: nat, d1: nat, n2: nat, d2: nat, half: nat)
    requires
        d1 > 0,
        d2 > 0,
        n1 * d2 == n2 * d1,
    ensures
        rounded(n1, d1, half) == rounded(n2, d2, half),
{
    lemma_rounded_scaled(n1, d1, d2, half);
    lemma_rounded_scaled(n2, d2, d1, half);
    assert(d1 * d2 == d2 * d1) by (nonlinear_arith);
}

proof fn lemma_power_divides(a: nat, b: nat)
    requires
        is_power(a),
        is_power(b),
        b <= a,
    ensures
        a % b == 0,
        is_power(a / b),
        (a / b) * b == a,
    decreases a,
{
    if b == 1 {
    } else {
        let (c, d) = (a / 2, b / 2);
        assert(a == 2 * c && b == 2 * d);
        lemma_power_divides(c, d);
        let q = c / d;
        assert(d > 0);
        assert(q * d == c);
        assert(a == q * b) by (nonlinear_arith)
            requires
                q * d == c,
                a == 2 * c,
                b == 2 * d,
        ;
        vstd::arithmetic::div_mod::lemma_fundamental_div_mod_converse(
            a as int,
            b as int,
            q as int,
            0,
        );
    }
}

proof fn lemma_power_product(a: nat, b: nat)
    requires
        is_power(a),
        is_power(b),
    ensures
        is_power(a * b),
        a * b >= 1,
    decreases a,
{
    if a == 1 {
        assert(a * b == b);
    } else {
        lemma_power_product(a / 2, b);
        assert(a * b == 2 * ((a / 2) * b)) by (nonlinear_arith)
            requires
                a == 2 * (a / 2),
        ;
    }
}

proof fn lemma_growth_exact(num: nat, bound: nat, d: nat)
    requires
        is_power(d),
        0 < bound <= num < 2 * bound,
    ensures
        growth(num, bound * d) == d,
    decreases d,
{
    if d == 1 {
        assert(bound * d == bound);
    } else {
        let h = d / 2;
        lemma_growth_exact(num, bound, h);
        lemma_growth_scaled(num, bound * h, 2);
        assert(bound * d == (bound * h) * 2) by (nonlinear_arith)
            requires
                d == 2 * h,
        ;
        assert(bound * h >= bound) by (nonlinear_arith)
            requires
                h >= 1,
        ;
    }
}

proof fn lemma_half_is_power()
    ensures
        is_power(0x10_0000_0000_0000),
{
    reveal_with_fuel(is_power, 54);
}

/// The quotient of a product of powers of two and one that divides it.
fn product_over(a: u128, b: u128, t: u128) -> (d: u128)
    requires
        1 <= a <= 0x40_0000_0000_0000_0000_0000,
        1 <= b <= 0x40_0000_0000_0000_0000_0000,
        0x10_0000_0000_0000 <= t <= 0x40_0000_0000_0000,
        is_power(a as nat),
        is_power(b as nat),
        is_power(t as nat),
        a * b >= 0x80_0000_0000_0000,
    ensures
        d * t == a * b,
        d >= 1,
        is_power(d as nat),
{
    if a >= t {
        proof {
            lemma_power_divides(a as nat, t as nat);
            let k = (a / t) as int;
            lemma_power_product(k as nat, b as nat);
            assert(k <= 0x4_0000_0000) by (nonlinear_arith)
                requires
                    k * t == a,
                    a <= 0x40_0000_0000_0000_0000_0000,
                    t >= 0x10_0000_0000_0000,
            ;
            assert(k * b <= 0x40_0000_0000_0000_0000_0000 * 0x4_0000_0000) by (nonlinear_arith)
                requires
                    0 <= k <= 0x4_0000_0000,
                    0 <= b <= 0x40_0000_0000_0000_0000_0000,
            ;
            assert(a * b == (k * b) * t) by (nonlinear_arith)
                requires
                    k * t == a,
            ;
        }
        (a / t) * b
    } else {
        proof {
            lemma_power_divides(t as nat, a as nat);
            let k = (t / a) as int;
            assert(k <= b && k >= 1) by (nonlinear_arith)
                requires
                    k * a == t,
                    a * b >= 0x80_0000_0000_0000,
                    0 < t <= 0x40_0000_0000_0000,
                    a >= 1,
            ;
            lemma_power_divides(b as nat, k as nat);
            let q = (b as int) / k;
            assert(a * b == q * t) by (nonlinear_arith)
                requires
                    k * a == t,
                    q * k == b,
            ;
        }
        b / (t / a)
    }
}

proof fn lemma_product(n: nat, t: nat, d: nat)
    requires
        is_power(d),
        t > 0,
        DOUBLE * t <= n < 2 * DOUBLE * t,
    ensures
        rounded(n, d * t, DOUBLE as nat) == (nearest_integer(n, t), d),
{
    let half = DOUBLE as nat;
    assert(0 < half * t <= n < 2 * (half * t)) by (nonlinear_arith)
        requires
            half == DOUBLE,
            t > 0,
            DOUBLE > 0,
            DOUBLE * t <= n < 2 * DOUBLE * t,
    ;
    lemma_growth_exact(n, half * t, d);
    assert(half * (d * t) == (half * t) * d) by (nonlinear_arith);
    lemma_nearest_integer_scaled(n, t, d);
    assert(t * d == d * t) by (nonlinear_arith);
}

/// The double-precision product of two values, given in full precision.
pub fn product(a: Float, b: Float) -> (r: Float)
    requires
        DOUBLE <= a.m <= 2 * DOUBLE,
        DOUBLE <= b.m <= 2 * DOUBLE,
        1 <= a.d <= 0x40_0000_0000_0000_0000_0000,
        1 <= b.d <= 0x40_0000_0000_0000_0000_0000,
        is_power(a.d as nat),
        is_power(b.d as nat),
        a.d * b.d >= 0x80_0000_0000_0000,
    ensures
        r.fraction() == rounded(a.m as nat * b.m as nat, a.d as nat * b.d as nat, DOUBLE as nat),
        r.d >= 1,
        r.m <= 2 * DOUBLE,
{
    proof {
        assert(a.m * b.m <= 0x20_0000_0000_0000 * 0x20_0000_0000_0000) by (nonlinear_arith)
            requires
                0 <= a.m <= 0x20_0000_0000_0000,
                0 <= b.m <= 0x20_0000_0000_0000,
        ;
        assert(a.m * b.m >= 0x10_0000_0000_0000 * 0x10_0000_0000_0000) by (nonlinear_arith)
            requires
                a.m >= 0x10_0000_0000_0000,
                b.m >= 0x10_0000_0000_0000,
        ;
        lemma_half_is_power();
    }
    let num: u128 = a.m * b.m;
    let mut t: u128 = 0x10_0000_0000_0000;
    while num >= 0x20_0000_0000_0000 * t
        invariant
            num <= 0x20_0000_0000_0000 * 0x20_0000_0000_0000,
            num >= 0x10_0000_0000_0000 * t,
            0x10_0000_0000_0000 <= t <= 0x40_0000_0000_0000,
            is_power(t as nat),
        decreases 0x80_0000_0000_0000 - t,
    {
        t = t * 2;
        assert(t / 2 * 2 == t);
    }
    let q: u128 = num / t;
    let rest: u128 = num % t;
    let m: u128 = if rest * 2 < t || (rest * 2 == t && q % 2 == 0) {
        q
    } else {
        q + 1
    };
    let d = product_over(a.d, b.d, t);
    proof {
        lemma_product(num as nat, t as nat, d as nat);
        assert(a.d as nat * b.d as nat == d as nat * t as nat);
        assert(q <= 0x1f_ffff_ffff_ffff) by (nonlinear_arith)
            requires
                q == num / t,
                num < 0x20_0000_0000_0000 * t,
                t > 0,
        ;
    }
    Float { m, d }
}

/// The double-precision value of a number.
pub open spec fn as_double(n: nat, unit: nat) -> nat
    decreases
            if n >= 0x20_0000_0000_0000 * unit && unit > 0 {
                n - unit
            } else {
                0
            },
{
    if n < 0x20_0000_0000_0000 * unit || unit == 0 {
        nearest_integer(n, unit) * unit
    } else {
        as_double(n, 2 * unit)
    }
}

proof fn lemma_growth_reaches(num: nat, bound: nat)
    requires
        num > 0,
    ensures
        num * growth(num, bound) >= bound,
    decreases
            if num < bound {
                bound - num
            } else {
                0
            },
{
    if num < bound {
        lemma_growth_reaches(2 * num, bound);
        let g = growth(2 * num, bound);
        assert(num * (2 * g) == (2 * num) * g) by (nonlinear_arith);
    } else {
        assert(num * 1 == num);
    }
}

/// A value that is not zero does not become zero by rounding.
pub proof fn lemma_rounded_positive(num: nat, den: nat, half: nat)
    requires
        num > 0,
        den > 0,
        half > 0,
    ensures
        rounded(num, den, half).0 > 0,
        rounded(num, den, half).1 > 0,
{
    let d = growth(num, half * den);
    lemma_growth_positive(num, half * den);
    lemma_growth_reaches(num, half * den);
    assert((num * d) / den >= 1) by (nonlinear_arith)
        requires
            num * d >= half * den,
            half >= 1,
            den >= 1,
    ;
}

/// The nearest integer is no further than one half from the value, and the even one of two that are
/// as far.
pub proof fn law_nearest_integer_is_nearest(num: nat, den: nat)
    requires
        den > 0,
    ensures
        -(den as int) <= 2 * (nearest_integer(num, den) * den - num) <= den,
        2 * (nearest_integer(num, den) * den - num) == den || 2 * (num - nearest_integer(num, den)
            * den) == den ==> nearest_integer(num, den) % 2 == 0,
        num % den == 0 ==> nearest_integer(num, den) == num / den,
{
    let q = num / den;
    let r = num % den;
    vstd::arithmetic::div_mod::lemma_fundamental_div_mod(num as int, den as int);
    assert(den * q == q * den) by (nonlinear_arith);
    assert((q + 1) * den == q * den + den) by (nonlinear_arith);
}

/// A rounded value is as near to the exact one as the format allows for: the significand is the
/// nearest integer to what it stands for, and it is not too small for the format unless the value
/// is zero.
pub proof fn law_rounding_is_accurate(num: nat, den: nat, half: nat)
    requires
        den > 0,
        half > 0,
    ensures
        ({
            let (m, d) = rounded(num, den, half);
            &&& d >= 1
            &&& -(den as int) <= 2 * (m * den - num * d) <= den
            &&& num > 0 ==> m >= half
        }),
{
    let d = growth(num, half * den);
    lemma_growth_positive(num, half * den);
    law_nearest_integer_is_nearest(num * d, den);
    if num > 0 {
        lemma_growth_reaches(num, half * den);
        assert((num * d) / den >= half) by (nonlinear_arith)
            requires
                num * d >= half * den,
                den > 0,
        ;
    }
}

/// Numbers below two to the power of 53 are exact in double precision.
pub proof fn law_small_numbers_are_exact(n: nat)
    requires
        n < 0x20_0000_0000_0000,
    ensures
        as_double(n, 1) == n,
{
}

} // verus!
