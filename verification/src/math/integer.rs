use vstd::prelude::*;

verus! {

/// Whether an integer can be held in an `i32`.
pub open spec fn fits_i32(v: int) -> bool {
    i32::MIN <= v <= i32::MAX
}

/// Rust's `/` on signed integers: the quotient rounded towards zero.
pub open spec fn trunc_div(x: int, d: int) -> int {
    if x == 0 {
        0
    } else if x > 0 && d > 0 {
        x / d
    } else if x < 0 && d < 0 {
        (x * -1) / (d * -1)
    } else if x < 0 {
        ((x * -1) / d) * -1
    } else {
        (x / (d * -1)) * -1
    }
}

/// Rust's `%` on signed integers: the remainder that takes the sign of `x`.
pub open spec fn trunc_rem(x: int, d: int) -> int {
    if x == 0 {
        0
    } else if x > 0 && d > 0 {
        x % d
    } else if x < 0 && d < 0 {
        ((x * -1) % (d * -1)) * -1
    } else if x < 0 {
        ((x * -1) % d) * -1
    } else {
        x % (d * -1)
    }
}

/// `x` raised to the power `e`.
pub open spec fn power(x: int, e: nat) -> int
    decreases e,
{
    if e == 0 {
        1
    } else {
        x * power(x, (e - 1) as nat)
    }
}

pub open spec fn abs(x: int) -> int {
    if x < 0 { -x } else { x }
}

/// The integer square root of `x`: the `r >= 0` with `r * r <= x < (r + 1) * (r + 1)`.
pub open spec fn isqrt(x: int) -> int {
    choose|r: int| is_isqrt(x, r)
}

/// `r` is the integer square root of `x`.
pub open spec fn is_isqrt(x: int, r: int) -> bool {
    0 <= r && r * r <= x && x < (r + 1) * (r + 1)
}

/// `r` is the integer cube root of `x`.
pub open spec fn is_icbrt(x: int, r: int) -> bool {
    0 <= r && r * r * r <= x && x < (r + 1) * (r + 1) * (r + 1)
}

/// The integer cube root of `x >= 0`: the `r >= 0` with `r^3 <= x < (r + 1)^3`.
pub open spec fn icbrt(x: int) -> int {
    choose|r: int| is_icbrt(x, r)
}

/// The base-2 logarithm of `x >= 1`, rounded down.
pub open spec fn ilog2(x: int) -> int
    decreases x,
{
    if x <= 1 {
        0
    } else {
        1 + ilog2(x / 2)
    }
}

/// Rust's `x / d` on `i32`, for the inputs on which it does not panic.
pub fn div_i32(x: i32, d: i32) -> (q: i32)
    requires
        d != 0,
        !(x == i32::MIN && d == -1),
    ensures
        q == trunc_div(x as int, d as int),
{
    match x.checked_div(d) {
        Some(q) => q,
        None => {
            proof {
                assert(false) by (nonlinear_arith)
                    requires
                        d != 0,
                        !(x == i32::MIN && d == -1),
                        !fits_i32(trunc_div(x as int, d as int)),
                        i32::MIN <= x <= i32::MAX,
                ;
            }
            0
        },
    }
}

/// Rust's `x % d` on `i32`, for the inputs on which it does not panic.
pub fn rem_i32(x: i32, d: i32) -> (r: i32)
    requires
        d != 0,
        !(x == i32::MIN && d == -1),
    ensures
        r == trunc_rem(x as int, d as int),
{
    match x.checked_rem(d) {
        Some(r) => r,
        None => {
            proof {
                assert(false) by (nonlinear_arith)
                    requires
                        d != 0,
                        !fits_i32(trunc_rem(x as int, d as int)),
                        i32::MIN <= x <= i32::MAX,
                ;
            }
            0
        },
    }
}

pub proof fn lemma_isqrt_unique(x: int, r: int)
    requires
        0 <= r,
        r * r <= x,
        x < (r + 1) * (r + 1),
    ensures
        isqrt(x) == r,
{
    assert(is_isqrt(x, r));
    let s = isqrt(x);
    if s < r {
        assert((s + 1) * (s + 1) <= r * r) by (nonlinear_arith)
            requires
                0 <= s < r,
        ;
    } else if r < s {
        assert((r + 1) * (r + 1) <= s * s) by (nonlinear_arith)
            requires
                0 <= r < s,
        ;
    }
}

pub proof fn lemma_icbrt_unique(x: int, r: int)
    requires
        0 <= r,
        r * r * r <= x,
        x < (r + 1) * (r + 1) * (r + 1),
    ensures
        icbrt(x) == r,
{
    assert(is_icbrt(x, r));
    let s = icbrt(x);
    if s < r {
        assert((s + 1) * (s + 1) * (s + 1) <= r * r * r) by (nonlinear_arith)
            requires
                0 <= s < r,
        ;
    } else if r < s {
        assert((r + 1) * (r + 1) * (r + 1) <= s * s * s) by (nonlinear_arith)
            requires
                0 <= r < s,
        ;
    }
}

/// The integer square root of a non-negative `i32`, as `i32::isqrt` computes it.
pub fn isqrt_i32(x: i32) -> (r: i32)
    requires
        x >= 0,
    ensures
        r == isqrt(x as int),
        is_isqrt(x as int, r as int),
        0 <= r <= 46340,
{
    let mut r: i64 = 0;
    loop
        invariant
            0 <= r <= 46340,
            r * r <= x,
            x <= i32::MAX,
        ensures
            0 <= r <= 46340,
            r * r <= x,
            x < (r + 1) * (r + 1),
        decreases x - r,
    {
        let s = r + 1;
        assert(s * s <= 46341 * 46341) by (nonlinear_arith)
            requires
                0 < s <= 46341,
        ;
        if s * s > x as i64 {
            break;
        }
        assert(s <= 46340) by (nonlinear_arith)
            requires
                s * s <= x,
                x <= i32::MAX,
                s > 0,
        ;
        assert(s <= x) by (nonlinear_arith)
            requires
                s * s <= x,
                s > 0,
        ;
        r = s;
    }
    proof {
        lemma_isqrt_unique(x as int, r as int);
    }
    r as i32
}

/// The integer cube root of a non-negative `i32`.
pub fn icbrt_i32(x: i32) -> (r: i32)
    requires
        x >= 0,
    ensures
        r == icbrt(x as int),
        0 <= r <= 1290,
{
    let mut r: i64 = 0;
    loop
        invariant
            0 <= r <= 1290,
            r * r * r <= x,
            x <= i32::MAX,
        ensures
            0 <= r <= 1290,
            r * r * r <= x,
            x < (r + 1) * (r + 1) * (r + 1),
        decreases x - r,
    {
        let s = r + 1;
        assert(s * s <= 1291 * 1291 && s * s * s <= 1291 * 1291 * 1291) by (nonlinear_arith)
            requires
                0 < s <= 1291,
        ;
        if s * s * s > x as i64 {
            break;
        }
        assert(s <= 1290) by (nonlinear_arith)
            requires
                s * s * s <= x,
                x <= i32::MAX,
                s > 0,
        ;
        assert(s <= x) by (nonlinear_arith)
            requires
                s * s * s <= x,
                s > 0,
        ;
        r = s;
    }
    proof {
        lemma_icbrt_unique(x as int, r as int);
    }
    r as i32
}

/// The base-2 logarithm of a positive `i32`, rounded down, as `i32::ilog2` computes it.
pub fn ilog2_i32(x: i32) -> (r: u32)
    requires
        x > 0,
    ensures
        r == ilog2(x as int),
        r <= 30,
{
    proof {
        r_bound(x as int);
    }
    let mut n: i32 = x;
    let mut k: u32 = 0;
    while n > 1
        invariant
            1 <= n <= x,
            ilog2(x as int) == k + ilog2(n as int),
            k + ilog2(n as int) <= 30,
            x <= i32::MAX,
        decreases n,
    {
        proof {
            lemma_ilog2_nonneg(n as int / 2);
        }
        n = n / 2;
        k = k + 1;
    }
    k
}

pub proof fn lemma_ilog2_nonneg(x: int)
    ensures
        ilog2(x) >= 0,
    decreases x,
{
    if x > 1 {
        lemma_ilog2_nonneg(x / 2);
    }
}

proof fn r_bound(x: int)
    requires
        1 <= x <= i32::MAX,
    ensures
        ilog2(x) <= 30,
{
    assert(power(2, 31) == 2147483648) by {
        reveal_with_fuel(power, 32);
    }
    lemma_ilog2_bound(x, 30);
}

proof fn lemma_ilog2_bound(x: int, k: nat)
    requires
        1 <= x,
        x < power(2, k + 1),
    ensures
        ilog2(x) <= k,
    decreases x,
{
    if x > 1 {
        if k == 0 {
            assert(power(2, 1) == 2 * power(2, 0));
        } else {
            assert(power(2, (k + 1) as nat) == 2 * power(2, k));
            lemma_ilog2_bound(x / 2, (k - 1) as nat);
        }
    }
}

proof fn lemma_power_abs(x: int, e: nat)
    ensures
        abs(power(x, e)) == power(abs(x), e),
    decreases e,
{
    if e > 0 {
        lemma_power_abs(x, (e - 1) as nat);
        let p = power(x, (e - 1) as nat);
        assert(abs(x * p) == abs(x) * abs(p)) by (nonlinear_arith);
    }
}

/// A power of a base of at least 2 is positive.
pub proof fn lemma_power_positive(b: int, e: nat)
    requires
        b >= 2,
    ensures
        power(b, e) >= 1,
    decreases e,
{
    if e > 0 {
        lemma_power_positive(b, (e - 1) as nat);
        let p = power(b, (e - 1) as nat);
        assert(b * p >= 1) by (nonlinear_arith)
            requires
                b >= 2,
                p >= 1,
        ;
    }
}

proof fn lemma_power_grows(b: int, k: nat, e: nat)
    requires
        b >= 2,
        k <= e,
    ensures
        power(b, k) >= 1,
        k < e ==> power(b, k) < power(b, e),
        power(b, k) <= power(b, e),
    decreases e,
{
    if e == k {
        lemma_power_positive(b, k);
    } else {
        lemma_power_grows(b, k, (e - 1) as nat);
        let p = power(b, (e - 1) as nat);
        assert(b * p > p) by (nonlinear_arith)
            requires
                b >= 2,
                p >= 1,
        ;
    }
}

proof fn lemma_power_unit(x: int, e: nat)
    requires
        -1 <= x <= 1,
    ensures
        x == 0 ==> power(x, e) == (if e == 0 { 1int } else { 0int }),
        x == 1 ==> power(x, e) == 1,
        x == -1 ==> power(x, e) == (if e % 2 == 0 { 1int } else { -1int }),
    decreases e,
{
    if e > 0 {
        lemma_power_unit(x, (e - 1) as nat);
    }
}

/// `x` raised to the power `e` if that fits in an `i32`, as `i32::checked_pow` computes it.
pub fn checked_power(x: i32, e: u32) -> (r: Option<i32>)
    ensures
        r == (if fits_i32(power(x as int, e as nat)) {
            Some(power(x as int, e as nat) as i32)
        } else {
            None
        }),
{
    if x == 0 || x == 1 || x == -1 {
        proof {
            lemma_power_unit(x as int, e as nat);
        }
        if x == 0 {
            return if e == 0 { Some(1) } else { Some(0) };
        } else if x == 1 {
            return Some(1);
        } else {
            return if e % 2 == 0 { Some(1) } else { Some(-1) };
        }
    }
    let mut acc: i32 = 1;
    let mut i: u32 = 0;
    while i < e
        invariant
            i <= e,
            acc == power(x as int, i as nat),
            x < -1 || x > 1,
        decreases e - i,
    {
        match acc.checked_mul(x) {
            Some(next) => {
                acc = next;
                i = i + 1;
            },
            None => {
                proof {
                    let b = abs(x as int);
                    let n = (i + 1) as nat;
                    assert(power(x as int, n) == x * power(x as int, i as nat));
                    lemma_power_abs(x as int, n);
                    lemma_power_abs(x as int, e as nat);
                    lemma_power_grows(b, n, e as nat);
                    assert(!fits_i32(power(x as int, e as nat)));
                }
                return None;
            },
        }
    }
    Some(acc)
}

/// Rust's signed division: `x == d * (x / d) + x % d`, with the remainder smaller than `d`.
pub proof fn lemma_trunc_parts(x: int, d: int)
    requires
        d != 0,
    ensures
        x == d * trunc_div(x, d) + trunc_rem(x, d),
        abs(trunc_rem(x, d)) < abs(d),
{
    let a = abs(x);
    let b = abs(d);
    vstd::arithmetic::div_mod::lemma_fundamental_div_mod(a, b);
    assert(0 <= a % b < b);
    if x == 0 {
    } else if x > 0 && d > 0 {
    } else if x < 0 && d < 0 {
        assert(x == d * ((x * -1) / (d * -1)) + ((x * -1) % (d * -1)) * -1) by (nonlinear_arith)
            requires
                a == x * -1,
                b == d * -1,
                a == b * (a / b) + a % b,
        ;
    } else if x < 0 {
        assert(x == d * (((x * -1) / d) * -1) + ((x * -1) % d) * -1) by (nonlinear_arith)
            requires
                a == x * -1,
                b == d,
                a == b * (a / b) + a % b,
        ;
    } else {
        assert(x == d * ((x / (d * -1)) * -1) + x % (d * -1)) by (nonlinear_arith)
            requires
                a == x,
                b == d * -1,
                a == b * (a / b) + a % b,
        ;
    }
}

/// An exact quotient: when `x == d * q`, Rust's `x / d` is `q` and `x % d` is 0.
pub proof fn lemma_trunc_exact(x: int, d: int, q: int)
    requires
        d != 0,
        x == d * q,
    ensures
        trunc_div(x, d) == q,
        trunc_rem(x, d) == 0,
{
    lemma_trunc_parts(x, d);
    let t = trunc_div(x, d);
    let r = trunc_rem(x, d);
    assert(d * (q - t) == r) by (nonlinear_arith)
        requires
            x == d * q,
            x == d * t + r,
    ;
    if q != t {
        assert(abs(d * (q - t)) >= abs(d)) by (nonlinear_arith)
            requires
                q != t,
                d != 0,
        ;
    }
}


/// The logarithm of `x >= 1` to the base `b >= 2`, rounded down: how many times `b` divides
/// into `x` before less than `b` is left.
pub open spec fn ilog(b: int, x: int) -> int
    decreases x,
{
    if b < 2 || x < b {
        0
    } else {
        proof {
            assert(x / b < x) by (nonlinear_arith)
                requires
                    x >= b,
                    b >= 2,
            ;
            assert(x / b >= 0) by (nonlinear_arith)
                requires
                    x >= b,
                    b >= 2,
            ;
        }
        1 + ilog(b, x / b)
    }
}

/// `b` to the power of the rounded-down logarithm of `x` is at most `x`, and that logarithm
/// lies between 0 and `x`.
pub proof fn lemma_ilog_bounds(b: int, x: int)
    requires
        b >= 2,
        x >= 1,
    ensures
        0 <= ilog(b, x) < x,
        1 <= power(b, ilog(b, x) as nat) <= x,
    decreases x,
{
    if x >= b {
        let y = x / b;
        assert(1 <= y < x && b * y <= x && y + 1 <= x) by (nonlinear_arith)
            requires
                x >= b,
                b >= 2,
                y == x / b,
        {
            vstd::arithmetic::div_mod::lemma_fundamental_div_mod(x, b);
        }
        lemma_ilog_bounds(b, y);
        let p = power(b, ilog(b, y) as nat);
        assert(power(b, ilog(b, x) as nat) == b * p);
        assert(b * p <= b * y) by (nonlinear_arith)
            requires
                p <= y,
                b >= 2,
        ;
        assert(b * p >= 1) by (nonlinear_arith)
            requires
                p >= 1,
                b >= 2,
        ;
    }
}

/// The rounded-down logarithm of a power of `b` is its exponent.
pub proof fn lemma_ilog_of_power(b: int, e: nat)
    requires
        b >= 2,
    ensures
        ilog(b, power(b, e)) == e,
    decreases e,
{
    if e > 0 {
        let p = power(b, (e - 1) as nat);
        lemma_power_positive(b, (e - 1) as nat);
        lemma_ilog_of_power(b, (e - 1) as nat);
        assert(b * p >= b) by (nonlinear_arith)
            requires
                p >= 1,
                b >= 2,
        ;
        vstd::arithmetic::div_mod::lemma_div_multiples_vanish(p, b);
        assert((b * p) / b == p);
    }
}

/// The rounded-down logarithm of `x >= 1` to the base `b >= 2`, as a loop of divisions.
pub fn ilog_i32(b: i32, x: i32) -> (r: u32)
    requires
        b >= 2,
        x >= 1,
    ensures
        r == ilog(b as int, x as int),
{
    let mut n: i32 = x;
    let mut k: u32 = 0;
    while n >= b
        invariant
            b >= 2,
            1 <= n <= x,
            k + n <= x,
            ilog(b as int, x as int) == k + ilog(b as int, n as int),
        decreases n,
    {
        let next = n / b;
        assert(1 <= next && next + 1 <= n) by (nonlinear_arith)
            requires
                n >= b,
                b >= 2,
                next == n / b,
        {
            vstd::arithmetic::div_mod::lemma_fundamental_div_mod(n as int, b as int);
        }
        n = next;
        k = k + 1;
    }
    k
}

/// `power` multiplies `e` copies of `x`, as vstd's `pow` does.
pub proof fn lemma_power_is_pow(x: int, e: nat)
    ensures
        power(x, e) == vstd::arithmetic::power::pow(x, e),
    decreases e,
{
    reveal(vstd::arithmetic::power::pow);
    if e > 0 {
        lemma_power_is_pow(x, (e - 1) as nat);
    }
}

} // verus!
