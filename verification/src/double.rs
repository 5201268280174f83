//! Numbers with 53 binary digits, and how arithmetic in double precision rounds.
//!
//! A number that is not negative is counted in the smallest unit of that format,
//! of which `one()` make one. So a number is a whole number here, and each
//! operation gives the number nearest to its exact result.

use vstd::prelude::*;

verus! {

// ---- the numbers ----------------------------------------------------------

/// Where the whole numbers of 53 binary digits end.
pub const END: u64 = 0x20_0000_0000_0000;

/// Where those of 53 binary digits without a leading zero begin.
pub const HALF_END: u64 = 0x10_0000_0000_0000;

/// `2` to the power of `k`.
pub open spec fn two_to(k: nat) -> nat
    decreases k,
{
    if k == 0 {
        1
    } else {
        2 * two_to((k - 1) as nat)
    }
}

/// One, in the smallest unit.
pub open spec fn one() -> nat {
    two_to(1_074)
}

/// `a / b`, rounded to the nearest whole number, and to the even one of two.
pub open spec fn half_even(a: nat, b: nat) -> nat {
    let (q, r) = (a / b, a % b);
    if 2 * r > b || (2 * r == b && q % 2 == 1) {
        q + 1
    } else {
        q
    }
}

/// The number of at most 53 binary digits, and zeros behind them, that is nearest
/// to `a / b`, and the even one of two.
pub open spec fn nearest(a: nat, b: nat) -> nat
    decreases
            (if a >= b {
                a - b
            } else {
                0
            }),
{
    if b == 0 {
        0
    } else if a < END * b {
        half_even(a, b)
    } else {
        2 * nearest(a, 2 * b)
    }
}

/// A whole number.
pub open spec fn whole(n: nat) -> nat {
    nearest(n * one(), 1)
}

/// `x + y`.
pub open spec fn sum(x: nat, y: nat) -> nat {
    nearest(x + y, 1)
}

/// `x - y`, and nothing where that is below zero.
pub open spec fn difference(x: nat, y: nat) -> nat {
    if x > y {
        nearest((x - y) as nat, 1)
    } else {
        0
    }
}

/// `x * y`.
pub open spec fn product(x: nat, y: nat) -> nat {
    nearest(x * y, one())
}

/// `x / y`.
pub open spec fn quotient(x: nat, y: nat) -> nat {
    nearest(x * one(), y)
}

/// The whole number nearest to `x`, and the greater of two.
pub open spec fn rounded(x: nat) -> nat {
    (2 * x + one()) / (2 * one())
}

// ---- powers ---------------------------------------------------------------

pub proof fn lemma_two_to_positive(k: nat)
    ensures
        two_to(k) > k,
    decreases k,
{
    if k > 0 {
        lemma_two_to_positive((k - 1) as nat);
    }
}

pub proof fn lemma_two_to_sum(j: nat, k: nat)
    ensures
        two_to(j + k) == two_to(j) * two_to(k),
    decreases j,
{
    if j > 0 {
        lemma_two_to_sum((j - 1) as nat, k);
        let (a, b) = (two_to((j - 1) as nat), two_to(k));
        assert(2 * (a * b) == (2 * a) * b) by (nonlinear_arith);
    } else {
        assert(1 * two_to(k) == two_to(k));
    }
}

pub proof fn lemma_two_to_ordered(j: nat, k: nat)
    requires
        j <= k,
    ensures
        two_to(j) <= two_to(k),
    decreases k,
{
    if j < k {
        lemma_two_to_ordered(j, (k - 1) as nat);
    }
}

pub proof fn lemma_two_to_values()
    ensures
        two_to(2) == 4,
        two_to(52) == HALF_END,
        two_to(53) == END,
        two_to(55) == 4 * END,
        two_to(64) == 0x1_0000_0000_0000_0000,
        two_to(117) == 0x20_0000_0000_0000_0000_0000_0000_0000,
{
    reveal_with_fuel(two_to, 14);
    assert(two_to(13) == 0x2000);
    assert(two_to(12) == 0x1000);
    assert(two_to(2) == 4);
    assert(two_to(1) == 2);
    lemma_two_to_sum(13, 13);
    assert(two_to(26) == 0x400_0000);
    lemma_two_to_sum(26, 26);
    assert(two_to(52) == HALF_END);
    lemma_two_to_sum(1, 52);
    lemma_two_to_sum(2, 53);
    lemma_two_to_sum(12, 52);
    assert(two_to(64) == 0x1_0000_0000_0000_0000);
    lemma_two_to_sum(53, 64);
}

// ---- rounding -------------------------------------------------------------

proof fn lemma_half_even_scaled(a: nat, b: nat, c: nat)
    requires
        b > 0,
        c > 0,
    ensures
        half_even(c * a, c * b) == half_even(a, b),
{
    let (q, r) = (a / b, a % b);
    vstd::arithmetic::div_mod::lemma_fundamental_div_mod(a as int, b as int);
    assert(c * a == q * (c * b) + c * r) by (nonlinear_arith)
        requires
            a == b * q + r,
    ;
    assert(0 <= c * r < c * b) by (nonlinear_arith)
        requires
            0 <= r < b,
            c > 0,
    ;
    assert(c * b > 0) by (nonlinear_arith)
        requires
            b > 0,
            c > 0,
    ;
    vstd::arithmetic::div_mod::lemma_fundamental_div_mod_converse(
        (c * a) as int,
        (c * b) as int,
        q as int,
        (c * r) as int,
    );
    assert(2 * (c * r) > c * b <==> 2 * r > b) by (nonlinear_arith)
        requires
            c > 0,
    ;
    assert(2 * (c * r) == c * b <==> 2 * r == b) by (nonlinear_arith)
        requires
            c > 0,
    ;
}

proof fn lemma_nearest_scaled(a: nat, b: nat, c: nat)
    requires
        b > 0,
        c > 0,
    ensures
        nearest(c * a, c * b) == nearest(a, b),
    decreases
            (if a >= b {
                a - b
            } else {
                0
            }),
{
    assert(c * b > 0) by (nonlinear_arith)
        requires
            b > 0,
            c > 0,
    ;
    assert(c * a < END * (c * b) <==> a < END * b) by (nonlinear_arith)
        requires
            c > 0,
    ;
    if a < END * b {
        lemma_half_even_scaled(a, b, c);
    } else {
        lemma_nearest_scaled(a, 2 * b, c);
        assert(c * (2 * b) == 2 * (c * b)) by (nonlinear_arith);
    }
}

/// Only the ratio counts.
pub proof fn lemma_nearest_ratio(a: nat, b: nat, x: nat, y: nat)
    requires
        b > 0,
        y > 0,
        a * y == x * b,
    ensures
        nearest(a, b) == nearest(x, y),
{
    lemma_nearest_scaled(a, b, y);
    lemma_nearest_scaled(x, y, b);
    assert(y * a == b * x) by (nonlinear_arith)
        requires
            a * y == x * b,
    ;
    assert(y * b == b * y) by (nonlinear_arith);
}

proof fn lemma_half_even_ordered(a: nat, x: nat, b: nat)
    requires
        b > 0,
        a <= x,
    ensures
        half_even(a, b) <= half_even(x, b),
{
    vstd::arithmetic::div_mod::lemma_div_is_ordered(a as int, x as int, b as int);
    vstd::arithmetic::div_mod::lemma_fundamental_div_mod(a as int, b as int);
    vstd::arithmetic::div_mod::lemma_fundamental_div_mod(x as int, b as int);
    let (q, p) = (a / b, x / b);
    if q == p {
        assert(b * q == b * p);
        assert(a % b <= x % b);
    }
}

proof fn lemma_half_even_bounds(a: nat, b: nat, c: nat)
    requires
        b > 0,
    ensures
        a >= c * b ==> half_even(a, b) >= c,
        a <= c * b ==> half_even(a, b) <= c,
{
    assert(half_even(c * b, b) == c) by {
        vstd::arithmetic::div_mod::lemma_fundamental_div_mod_converse(
            (c * b) as int,
            b as int,
            c as int,
            0,
        );
    }
    if a >= c * b {
        lemma_half_even_ordered(c * b, a, b);
    }
    if a <= c * b {
        lemma_half_even_ordered(a, c * b, b);
    }
}

proof fn lemma_nearest_at_least(a: nat, b: nat, c: nat)
    requires
        b > 0,
        c <= END,
        a >= c * b,
    ensures
        nearest(a, b) >= c,
    decreases
            (if a >= b {
                a - b
            } else {
                0
            }),
{
    if a < END * b {
        lemma_half_even_bounds(a, b, c);
    } else {
        assert(HALF_END * (2 * b) == END * b);
        lemma_nearest_at_least(a, 2 * b, HALF_END as nat);
    }
}

/// Rounding keeps the order.
pub proof fn lemma_nearest_ordered(a: nat, x: nat, b: nat)
    requires
        b > 0,
        a <= x,
    ensures
        nearest(a, b) <= nearest(x, b),
    decreases
            (if x >= b {
                x - b
            } else {
                0
            }),
{
    if x < END * b {
        lemma_half_even_ordered(a, x, b);
    } else if a < END * b {
        lemma_half_even_bounds(a, b, END as nat);
        lemma_nearest_at_least(x, b, END as nat);
    } else {
        lemma_nearest_ordered(a, x, 2 * b);
    }
}

/// Rounding is off by half of the last of the 53 digits at most.
pub proof fn lemma_nearest_error(a: nat, b: nat)
    requires
        b > 0,
        a >= HALF_END * b,
    ensures
        END * (b * nearest(a, b) - a) <= a,
        END * (a - b * nearest(a, b)) <= a,
    decreases
            (if a >= b {
                a - b
            } else {
                0
            }),
{
    if a < END * b {
        let (q, r) = (a / b, a % b);
        let n = half_even(a, b);
        vstd::arithmetic::div_mod::lemma_fundamental_div_mod(a as int, b as int);
        assert(b * (q + 1) == b * q + b) by (nonlinear_arith);
        assert(2 * (b * n - a) <= b);
        assert(2 * (a - b * n) <= b);
    } else {
        lemma_nearest_error(a, 2 * b);
        let m = nearest(a, 2 * b);
        assert((2 * b) * m == b * (2 * m)) by (nonlinear_arith);
    }
}

proof fn lemma_nearest_doubled(n: nat)
    ensures
        nearest(2 * n, 1) == 2 * nearest(n, 1),
{
    if 2 * n < END {
        lemma_half_even_bounds(2 * n, 1, 2 * n);
        lemma_half_even_bounds(n, 1, n);
    } else {
        lemma_nearest_scaled(n, 1, 2);
    }
}

/// Zeros behind the digits of a whole number stay behind them.
pub proof fn lemma_nearest_shifted(n: nat, k: nat)
    ensures
        nearest(n * two_to(k), 1) == nearest(n, 1) * two_to(k),
    decreases k,
{
    if k > 0 {
        let p = two_to((k - 1) as nat);
        lemma_nearest_shifted(n, (k - 1) as nat);
        lemma_nearest_doubled(n * p);
        assert(n * (2 * p) == 2 * (n * p)) by (nonlinear_arith);
        assert(nearest(n, 1) * (2 * p) == 2 * (nearest(n, 1) * p)) by (nonlinear_arith);
    } else {
        assert(n * 1 == n);
        assert(nearest(n, 1) * 1 == nearest(n, 1));
    }
}

proof fn lemma_quotient_shifted(a: nat, b: nat, k: nat)
    requires
        b > 0,
        a >= HALF_END * b,
    ensures
        nearest(a * two_to(k), b) == nearest(a, b) * two_to(k),
    decreases k,
{
    if k > 0 {
        let p = two_to((k - 1) as nat);
        let n = a * p;
        lemma_quotient_shifted(a, b, (k - 1) as nat);
        lemma_two_to_positive((k - 1) as nat);
        assert(n >= a) by (nonlinear_arith)
            requires
                p >= 1,
                n == a * p,
        ;
        lemma_nearest_scaled(n, b, 2);
        assert(a * (2 * p) == 2 * n) by (nonlinear_arith)
            requires
                n == a * p,
        ;
        assert(nearest(a, b) * (2 * p) == 2 * (nearest(a, b) * p)) by (nonlinear_arith);
    } else {
        assert(a * 1 == a);
        assert(nearest(a, b) * 1 == nearest(a, b));
    }
}

/// A whole number of at most 53 digits is itself.
pub proof fn lemma_nearest_exact(n: nat)
    requires
        n <= END,
    ensures
        nearest(n, 1) == n,
{
    if n < END {
        lemma_half_even_bounds(n, 1, n);
    } else {
        lemma_nearest_doubled(HALF_END as nat);
        lemma_half_even_bounds(HALF_END as nat, 1, HALF_END as nat);
    }
}

/// Rounding leaves a number within 64 binary digits there, and above zero.
pub proof fn lemma_nearest_limit(n: nat)
    requires
        n <= 0x1_0000_0000_0000_0000,
    ensures
        nearest(n, 1) <= 0x1_0000_0000_0000_0000,
        n > 0 ==> nearest(n, 1) > 0,
{
    lemma_two_to_values();
    let k = two_to(64);
    lemma_nearest_ordered(n, k, 1);
    lemma_nearest_shifted(1, 64);
    lemma_nearest_exact(1);
    assert(1 * k == k);
    if n > 0 {
        lemma_nearest_ordered(1, n, 1);
    }
}

// ---- whole numbers --------------------------------------------------------

/// A whole number is a multiple of one.
pub proof fn lemma_whole(n: nat)
    ensures
        whole(n) == nearest(n, 1) * one(),
{
    lemma_nearest_shifted(n, 1_074);
}

/// The sum of whole numbers.
pub proof fn lemma_whole_sum(m: nat, n: nat)
    ensures
        sum(m * one(), n * one()) == nearest(m + n, 1) * one(),
{
    assert(m * one() + n * one() == (m + n) * one()) by (nonlinear_arith);
    lemma_nearest_shifted(m + n, 1_074);
}

/// The difference of whole numbers.
pub proof fn lemma_whole_difference(m: nat, n: nat)
    ensures
        difference(m * one(), n * one()) == (if m > n {
            nearest((m - n) as nat, 1) * one()
        } else {
            0
        }),
{
    lemma_two_to_positive(1_074);
    let o = one();
    assert(m * o > n * o <==> m > n) by (nonlinear_arith)
        requires
            o > 0,
    ;
    if m > n {
        assert(m * o - n * o == (m - n) * o) by (nonlinear_arith);
        lemma_nearest_shifted((m - n) as nat, 1_074);
    }
}

/// The product of a number and a whole number.
pub proof fn lemma_whole_product(x: nat, n: nat)
    ensures
        product(x, n * one()) == nearest(x * n, 1),
{
    lemma_two_to_positive(1_074);
    let o = one();
    assert((x * (n * o)) * 1 == (x * n) * o) by (nonlinear_arith);
    lemma_nearest_ratio(x * (n * o), o, x * n, 1);
}

/// The quotient of whole numbers.
pub proof fn lemma_whole_quotient(m: nat, n: nat)
    requires
        n > 0,
    ensures
        quotient(m * one(), n * one()) == nearest(m * one(), n),
{
    lemma_two_to_positive(1_074);
    let o = one();
    assert(n * o > 0) by (nonlinear_arith)
        requires
            n > 0,
            o > 0,
    ;
    assert(((m * o) * o) * n == (m * o) * (n * o)) by (nonlinear_arith);
    lemma_nearest_ratio((m * o) * o, n * o, m * o, n);
}

/// A whole number is rounded to itself.
pub proof fn lemma_whole_rounded(n: nat)
    ensures
        rounded(n * one()) == n,
{
    lemma_two_to_positive(1_074);
    let o = one();
    assert(2 * (n * o) + o == n * (2 * o) + o) by (nonlinear_arith);
    vstd::arithmetic::div_mod::lemma_fundamental_div_mod_converse(
        (2 * (n * o) + o) as int,
        (2 * o) as int,
        n as int,
        o as int,
    );
}

/// Rounding to a whole number keeps the order.
pub proof fn lemma_rounded_ordered(x: nat, y: nat)
    requires
        x <= y,
    ensures
        rounded(x) <= rounded(y),
{
    lemma_two_to_positive(1_074);
    vstd::arithmetic::div_mod::lemma_div_is_ordered(
        (2 * x + one()) as int,
        (2 * y + one()) as int,
        (2 * one()) as int,
    );
}

// ---- computing ------------------------------------------------------------

/// `a / b`, rounded to the nearest whole number, and to the even one of two.
fn round_half_even(a: u128, b: u128) -> (r: u128)
    requires
        b > 0,
        a / b < u128::MAX,
    ensures
        r == half_even(a as nat, b as nat),
{
    let q: u128 = a / b;
    let r: u128 = a % b;
    if r > b - r || (r == b - r && q % 2 == 1) {
        q + 1
    } else {
        q
    }
}

/// At most 53 digits, how many zeros follow them, and what the last digit counts.
struct Digits {
    digits: u64,
    zeros: u32,
    unit: u128,
}

/// The digits of the number nearest to a whole one.
fn round_digits(n: u128) -> (r: Digits)
    ensures
        r.digits * two_to(r.zeros as nat) == nearest(n as nat, 1),
        r.digits <= END,
        r.zeros <= 75,
        r.unit == two_to(r.zeros as nat),
        n > 0 ==> r.digits > 0,
        r.digits * two_to(r.zeros as nat) <= 2 * n,
{
    let end: u128 = END as u128;
    let mut unit: u128 = 1;
    let mut zeros: u32 = 0;
    proof {
        assert(nearest(n as nat, 1) * 1 == nearest(n as nat, 1));
    }
    while n / unit >= end
        invariant
            end == END,
            unit > 0,
            unit == two_to(zeros as nat),
            zeros <= 75,
            zeros == 0 ==> unit == 1,
            zeros > 0 ==> n >= END * (unit / 2),
            nearest(n as nat, unit as nat) * unit == nearest(n as nat, 1),
        decreases n / unit,
    {
        proof {
            let (a, b) = (n as int, unit as int);
            vstd::arithmetic::div_mod::lemma_fundamental_div_mod(a, b);
            assert(a >= END * b) by (nonlinear_arith)
                requires
                    a == b * (a / b) + a % b,
                    a % b >= 0,
                    a / b >= END,
                    b > 0,
            ;
            let m = nearest(n as nat, 2 * unit as nat);
            assert((2 * m) * b == m * (2 * b)) by (nonlinear_arith);
            lemma_two_to_values();
            if zeros == 75 {
                lemma_two_to_sum(53, 64);
                lemma_two_to_sum(11, 64);
                reveal_with_fuel(two_to, 12);
                assert(two_to(75) == 0x800_0000_0000_0000_0000);
                assert(false);
            }
            vstd::arithmetic::div_mod::lemma_div_is_ordered_by_denominator(a, b, 2 * b);
            vstd::arithmetic::div_mod::lemma_fundamental_div_mod(a, 2 * b);
            assert(a / (2 * b) < a / b) by (nonlinear_arith)
                requires
                    a == b * (a / b) + a % b,
                    a == (2 * b) * (a / (2 * b)) + a % (2 * b),
                    a % (2 * b) >= 0,
                    0 <= a % b < b,
                    b > 0,
                    a / b >= 1,
            ;
        }
        unit = unit * 2;
        zeros = zeros + 1;
    }
    proof {
        let (a, b) = (n as int, unit as int);
        vstd::arithmetic::div_mod::lemma_fundamental_div_mod(a, b);
        assert(a < END * b) by (nonlinear_arith)
            requires
                a == b * (a / b) + a % b,
                a % b < b,
                a / b < END,
                b > 0,
        ;
        lemma_half_even_bounds(n as nat, unit as nat, END as nat);
        if zeros > 0 {
            reveal_with_fuel(two_to, 2);
            assert(unit == 2 * two_to((zeros - 1) as nat));
            lemma_half_even_bounds(n as nat, unit as nat, HALF_END as nat);
        } else {
            lemma_half_even_bounds(n as nat, 1, n as nat);
        }
    }
    let digits: u128 = round_half_even(n, unit);
    proof {
        let (m, b) = (digits as int, unit as int);
        if zeros > 0 {
            assert(m * b <= END * b) by (nonlinear_arith)
                requires
                    m <= END,
                    b > 0,
            ;
        }
    }
    Digits { digits: digits as u64, zeros, unit }
}

/// The number nearest to a whole one, which is whole too.
pub fn round_whole(n: u128) -> (r: u128)
    requires
        n <= 0x1000_0000_0000_0000_0000_0000_0000,
    ensures
        r == nearest(n as nat, 1),
        r <= 2 * n,
{
    let d = round_digits(n);
    d.digits as u128 * d.unit
}

/// A number: so many times the power of two at that place.
pub struct Double {
    pub digits: u64,
    pub place: i32,
}

impl Double {
    /// A number whose digits are at most 53 and stand where the format has a place
    /// for them.
    pub open spec fn wf(self) -> bool {
        self.digits <= END && -1_074 <= self.place <= 1_000
    }

    /// The number, in the smallest unit.
    pub open spec fn units(self) -> nat {
        self.digits as nat * two_to((self.place + 1_074) as nat)
    }
}

/// `2` to the power of `k`.
fn power_of_two(k: u32) -> (r: u128)
    requires
        k <= 117,
    ensures
        r == two_to(k as nat),
{
    let mut r: u128 = 1;
    let mut i: u32 = 0;
    while i < k
        invariant
            i <= k <= 117,
            r == two_to(i as nat),
        decreases k - i,
    {
        proof {
            lemma_two_to_values();
            lemma_two_to_ordered(i as nat, 117);
        }
        r = r * 2;
        i = i + 1;
    }
    r
}

/// The quotient of two whole numbers.
pub fn divide(m: u128, n: u128) -> (r: Double)
    requires
        0 < n <= 0x1_0000_0000_0000_0000,
        m <= 0x1_0000_0000_0000_0000,
    ensures
        r.wf(),
        r.place <= 12,
        r.units() == nearest(m as nat * one(), n as nat),
{
    if m == 0 {
        proof {
            assert(0 * one() == 0);
            assert(0 * two_to(1_074) == 0);
            lemma_half_even_bounds(0, n as nat, 0);
        }
        return Double { digits: 0, place: 0 };
    }
    let mut a: u128 = m;
    let mut raised: u32 = 0;
    let bound: u128 = HALF_END as u128 * n;
    proof {
        lemma_two_to_values();
        assert(m * 1 == m);
    }
    while a < bound
        invariant
            0 < m <= 0x1_0000_0000_0000_0000,
            0 < n <= 0x1_0000_0000_0000_0000,
            bound == HALF_END * n,
            a == m * two_to(raised as nat),
            raised <= 117,
            raised > 0 ==> a < 2 * bound,
        decreases 117 - raised,
    {
        proof {
            lemma_two_to_values();
            let p = two_to(raised as nat);
            assert(p <= m * p) by (nonlinear_arith)
                requires
                    m >= 1,
            ;
            if raised == 117 {
                assert(false);
            }
            assert(m * (2 * p) == 2 * (m * p)) by (nonlinear_arith);
        }
        a = a * 2;
        raised = raised + 1;
    }
    let mut b: u128 = n;
    let mut lowered: u32 = 0;
    proof {
        assert(n * 1 == n);
    }
    while a / b >= END as u128
        invariant
            0 < m <= 0x1_0000_0000_0000_0000,
            0 < n <= 0x1_0000_0000_0000_0000,
            bound == HALF_END * n,
            raised > 0 ==> a < 2 * bound,
            raised == 0 ==> a <= 0x1_0000_0000_0000_0000,
            a <= 0x40_0000_0000_0000_0000_0000_0000_0000,
            b > 0,
            b == n * two_to(lowered as nat),
            raised > 0 ==> lowered == 0,
            lowered <= 12,
            a >= HALF_END * b,
        decreases a / b,
    {
        proof {
            let (x, y) = (a as int, b as int);
            vstd::arithmetic::div_mod::lemma_fundamental_div_mod(x, y);
            assert(x >= END * y) by (nonlinear_arith)
                requires
                    x == y * (x / y) + x % y,
                    x % y >= 0,
                    x / y >= END,
                    y > 0,
            ;
            let p = two_to(lowered as nat);
            if raised > 0 {
                assert(p == 1);
                assert(n * p == n) by (nonlinear_arith)
                    requires
                        p == 1,
                ;
                assert(false);
            }
            assert(p <= n * p) by (nonlinear_arith)
                requires
                    n >= 1,
            ;
            if lowered == 12 {
                reveal_with_fuel(two_to, 13);
                assert(two_to(12) == 0x1000);
                assert(false);
            }
            assert(n * (2 * p) == 2 * (n * p)) by (nonlinear_arith);
            vstd::arithmetic::div_mod::lemma_fundamental_div_mod(x, 2 * y);
            assert(x / (2 * y) < x / y) by (nonlinear_arith)
                requires
                    x == y * (x / y) + x % y,
                    x == (2 * y) * (x / (2 * y)) + x % (2 * y),
                    x % (2 * y) >= 0,
                    0 <= x % y < y,
                    y > 0,
                    x / y >= 1,
            ;
        }
        b = b * 2;
        lowered = lowered + 1;
    }
    let digits: u128 = round_half_even(a, b);
    let place: i32 = lowered as i32 - raised as i32;
    proof {
        let (x, y) = (a as int, b as int);
        vstd::arithmetic::div_mod::lemma_fundamental_div_mod(x, y);
        assert(x < END * y) by (nonlinear_arith)
            requires
                x == y * (x / y) + x % y,
                x % y < y,
                x / y < END,
                y > 0,
        ;
        lemma_half_even_bounds(a as nat, b as nat, END as nat);
        let w = (place + 1_074) as nat;
        let (p, q, v, o) = (two_to(raised as nat), two_to(lowered as nat), two_to(w), one());
        lemma_two_to_sum(raised as nat, w);
        lemma_two_to_sum(1_074, lowered as nat);
        assert(p * v == o * q);
        assert((m * o) * (n * q) == ((m * p) * v) * n) by (nonlinear_arith)
            requires
                p * v == o * q,
        ;
        lemma_nearest_ratio(m as nat * o, n as nat, a as nat * v, b as nat);
        lemma_quotient_shifted(a as nat, b as nat, w);
    }
    Double { digits: digits as u64, place }
}

/// The product of a number and a whole one.
pub fn multiply(x: &Double, n: u128) -> (r: Double)
    requires
        x.wf(),
        x.place <= 12,
        n <= 0x1_0000_0000_0000_0000,
    ensures
        r.wf(),
        r.units() == nearest(x.units() * n as nat, 1),
{
    proof {
        assert(x.digits * n <= END * 0x1_0000_0000_0000_0000) by (nonlinear_arith)
            requires
                x.digits <= END,
                n <= 0x1_0000_0000_0000_0000,
        ;
    }
    let exact: u128 = x.digits as u128 * n;
    let d = round_digits(exact);
    proof {
        let w = (x.place + 1_074) as nat;
        let (v, u, k) = (two_to(w), two_to(d.zeros as nat), d.digits as nat);
        let m = x.digits as nat;
        assert((m * v) * n == (m * n) * v) by (nonlinear_arith);
        lemma_nearest_shifted(exact as nat, w);
        lemma_two_to_sum(d.zeros as nat, w);
        assert((k * u) * v == k * (u * v)) by (nonlinear_arith);
    }
    Double { digits: d.digits, place: x.place + d.zeros as i32 }
}

/// A number of whole ones as far as 64 binary digits go.
pub open spec fn capped(n: nat) -> u64 {
    if n > u64::MAX {
        u64::MAX
    } else {
        n as u64
    }
}

proof fn lemma_small_addend(n: nat, s: nat)
    requires
        n < 0x10_0000,
        4 * s <= one(),
    ensures
        rounded(sum(n * one(), s)) == n,
{
    let q = two_to(1_072);
    let o = one();
    lemma_two_to_sum(2, 1_072);
    lemma_two_to_values();
    lemma_two_to_positive(1_072);
    assert(o == 4 * q);
    let t = sum(n * o, s);
    let most = (4 * n + 1) * q;
    assert(n * o + q == most) by (nonlinear_arith)
        requires
            o == 4 * q,
            most == (4 * n + 1) * q,
    ;
    lemma_nearest_ordered(n * o, n * o + s, 1);
    lemma_nearest_ordered(n * o + s, most, 1);
    lemma_nearest_shifted(n, 1_074);
    lemma_nearest_exact(n);
    lemma_nearest_shifted(4 * n + 1, 1_072);
    lemma_nearest_exact(4 * n + 1);
    assert(n * o <= t <= most);
    lemma_whole_rounded(n);
    lemma_rounded_ordered(n * o, t);
    assert((2 * t + o) / (2 * o) < n + 1) by (nonlinear_arith)
        requires
            t <= n * o + q,
            o == 4 * q,
            q > 0,
    ;
}

proof fn lemma_large_addend(n: nat, s: nat)
    requires
        s >= two_to(64) * one(),
    ensures
        rounded(sum(n * one(), s)) > u64::MAX,
{
    let o = one();
    let k = two_to(64);
    lemma_two_to_values();
    assert(n * o >= 0) by (nonlinear_arith);
    lemma_nearest_ordered(k * o, n * o + s, 1);
    lemma_nearest_shifted(k, 1_074);
    lemma_nearest_shifted(1, 64);
    lemma_nearest_exact(1);
    assert(1 * k == k);
    lemma_whole_rounded(k);
    lemma_rounded_ordered(k * o, sum(n * o, s));
}

proof fn lemma_fraction_rounded(t: nat, y: nat)
    requires
        y <= 1_074,
    ensures
        rounded(t * two_to((1_074 - y) as nat)) == (2 * t + two_to(y)) / (2 * two_to(y)),
{
    let (v, u) = (two_to((1_074 - y) as nat), two_to(y));
    lemma_two_to_sum(y, (1_074 - y) as nat);
    lemma_two_to_positive((1_074 - y) as nat);
    lemma_two_to_positive(y);
    let a = 2 * t + u;
    let b = 2 * u;
    assert(2 * (t * v) + u * v == v * a) by (nonlinear_arith)
        requires
            a == 2 * t + u,
    ;
    assert(2 * (u * v) == v * b) by (nonlinear_arith)
        requires
            b == 2 * u,
    ;
    vstd::arithmetic::div_mod::lemma_div_multiples_vanish_quotient(v as int, a as int, b as int);
}

/// The sum of a whole number and another one, rounded to a whole number as far as
/// 64 binary digits go.
pub fn round_sum(n: u64, x: &Double) -> (r: u64)
    requires
        n < 0x10_0000,
        x.wf(),
    ensures
        r == capped(rounded(sum(n as nat * one(), x.units()))),
{
    proof {
        lemma_two_to_values();
        lemma_two_to_positive(1_074);
    }
    let most: u128 = u64::MAX as u128;
    let ghost o = one();
    let ghost v = two_to((x.place + 1_074) as nat);
    if x.digits == 0 {
        proof {
            assert(0 * v == 0);
            lemma_small_addend(n as nat, 0);
        }
        return n;
    }
    if x.place >= 64 {
        proof {
            lemma_two_to_sum((x.place - 64) as nat, 1_138);
            lemma_two_to_sum(64, 1_074);
            lemma_two_to_positive((x.place - 64) as nat);
            let (h, g, d) = (two_to((x.place - 64) as nat), two_to(1_138), x.digits as nat);
            assert(d * (h * g) >= g) by (nonlinear_arith)
                requires
                    d >= 1,
                    h >= 1,
            ;
            lemma_large_addend(n as nat, x.units());
        }
        return u64::MAX;
    }
    if x.place >= 0 {
        let p: u128 = power_of_two(x.place as u32);
        proof {
            lemma_two_to_ordered(x.place as nat, 63);
            lemma_two_to_sum(1, 63);
            reveal_with_fuel(two_to, 2);
            assert(x.digits * p <= END * 0x8000_0000_0000_0000) by (nonlinear_arith)
                requires
                    x.digits <= END,
                    p <= 0x8000_0000_0000_0000,
            ;
        }
        let part: u128 = x.digits as u128 * p;
        let d = round_digits(n as u128 + part);
        proof {
            lemma_two_to_sum(x.place as nat, 1_074);
            let k = x.digits as nat;
            assert(k * (p * o) == (k * p) * o) by (nonlinear_arith);
            lemma_whole_sum(n as nat, part as nat);
            lemma_whole_rounded(nearest((n + part) as nat, 1));
        }
        let total: u128 = d.digits as u128 * d.unit;
        return if total > most {
            u64::MAX
        } else {
            total as u64
        };
    }
    if x.place <= -55 {
        proof {
            let k = x.digits as nat;
            let q = two_to(1_019);
            lemma_two_to_ordered((x.place + 1_074) as nat, 1_019);
            lemma_two_to_sum(55, 1_019);
            assert(4 * (k * v) <= (4 * END) * q) by (nonlinear_arith)
                requires
                    k <= END,
                    v <= q,
            ;
            lemma_small_addend(n as nat, x.units());
        }
        return n;
    }
    let y: u32 = (-x.place) as u32;
    let p: u128 = power_of_two(y);
    proof {
        lemma_two_to_ordered(y as nat, 55);
        assert(n * p <= 0x10_0000 * (4 * END)) by (nonlinear_arith)
            requires
                n < 0x10_0000,
                p <= 4 * END,
        ;
    }
    let exact: u128 = n as u128 * p + x.digits as u128;
    let t: u128 = round_whole(exact);
    proof {
        lemma_two_to_sum(y as nat, (1_074 - y) as nat);
        let k = x.digits as nat;
        assert(n * (p * v) + k * v == (n * p + k) * v) by (nonlinear_arith);
        lemma_nearest_shifted(exact as nat, (1_074 - y) as nat);
        lemma_fraction_rounded(t as nat, y as nat);
        lemma_two_to_positive(y as nat);
    }
    let whole: u128 = (2 * t + p) / (2 * p);
    if whole > most {
        u64::MAX
    } else {
        whole as u64
    }
}

} // verus!
