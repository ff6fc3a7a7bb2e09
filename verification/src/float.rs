//! Binary64 arithmetic on bit patterns.
//!
//! A float is the `u64` of its IEEE 754 binary64 encoding. Every operation is computed
//! exactly on natural numbers and then rounded once, to the nearest representable value,
//! ties to the even bit pattern. An invalid operation gives the quiet NaN [`NAN`].

use crate::bignat::BigNat;
use crate::bignat::Order;
use crate::text;
use vstd::arithmetic::power::pow;
use vstd::arithmetic::power2::*;
use vstd::prelude::*;
use vstd::string::*;

verus! {

/// The sign bit.
pub const SIGN: u64 = 0x8000_0000_0000_0000;

/// Positive infinity.
pub const INF: u64 = 0x7ff0_0000_0000_0000;

/// The quiet NaN that invalid operations give.
pub const NAN: u64 = 0x7ff8_0000_0000_0000;

/// Whether the sign bit is set.
pub open spec fn negative(b: u64) -> bool {
    b >= SIGN
}

/// The pattern without its sign bit.
pub open spec fn magnitude(b: u64) -> u64 {
    if b >= SIGN {
        (b - SIGN) as u64
    } else {
        b
    }
}

/// The pattern of magnitude `m` under a sign.
pub open spec fn with_sign(neg: bool, m: u64) -> u64 {
    if neg {
        (m + SIGN) as u64
    } else {
        m
    }
}

/// Whether the pattern is a NaN.
pub open spec fn is_nan_bits(b: u64) -> bool {
    magnitude(b) > INF
}

/// Whether the pattern is an infinity.
pub open spec fn is_inf_bits(b: u64) -> bool {
    magnitude(b) == INF
}

/// The value of a magnitude, counted in units of the smallest positive float, 2^-1074.
/// The pattern of infinity counts as 2^1024, the value just past the largest finite float.
pub open spec fn units(m: int) -> nat {
    let e = m / 0x10_0000_0000_0000;
    let f = m % 0x10_0000_0000_0000;
    if e <= 0 {
        f as nat
    } else {
        (f + 0x10_0000_0000_0000) as nat * pow2((e - 1) as nat)
    }
}

/// The signed value of a finite pattern, in units.
pub open spec fn signed_units(b: u64) -> int {
    if negative(b) {
        -(units(magnitude(b) as int) as int)
    } else {
        units(magnitude(b) as int) as int
    }
}

/// One, in units.
pub open spec fn one() -> nat {
    pow2(1074)
}

/// Whether `num / den` units lie above the midpoint below `m`, or on it with `m` even.
pub open spec fn above_lower(num: nat, den: nat, m: int) -> bool {
    m == 0 || den * (units(m - 1) + units(m)) < 2 * num || (den * (units(m - 1) + units(m)) == 2 * num && m % 2 == 0)
}

/// Whether `num / den` units lie below the midpoint above `m`, or on it with `m` even.
pub open spec fn below_upper(num: nat, den: nat, m: int) -> bool {
    m == INF || 2 * num < den * (units(m) + units(m + 1)) || (den * (units(m) + units(m + 1)) == 2 * num && m % 2 == 0)
}

/// Whether the magnitude `m` is nearest to `num / den` units, ties to even.
pub open spec fn rounds_to(num: nat, den: nat, m: u64) -> bool {
    m <= INF && above_lower(num, den, m as int) && below_upper(num, den, m as int)
}

/// The magnitude nearest to `num / den` units, ties to even.
pub open spec fn nearest(num: nat, den: nat) -> u64 {
    choose|m: u64| rounds_to(num, den, m)
}

/// The sum of two floats.
pub open spec fn sum(a: u64, b: u64) -> u64 {
    if is_nan_bits(a) || is_nan_bits(b) {
        NAN
    } else if is_inf_bits(a) {
        if is_inf_bits(b) && a != b {
            NAN
        } else {
            a
        }
    } else if is_inf_bits(b) {
        b
    } else {
        let s = signed_units(a) + signed_units(b);
        if s == 0 {
            with_sign(negative(a) && negative(b), 0)
        } else if s < 0 {
            with_sign(true, nearest((-s) as nat, 1))
        } else {
            nearest(s as nat, 1)
        }
    }
}

/// The float with its sign flipped.
pub open spec fn negated(b: u64) -> u64 {
    with_sign(!negative(b), magnitude(b))
}

/// The product of two floats.
pub open spec fn product(a: u64, b: u64) -> u64 {
    let neg = negative(a) != negative(b);
    if is_nan_bits(a) || is_nan_bits(b) {
        NAN
    } else if is_inf_bits(a) || is_inf_bits(b) {
        if magnitude(a) == 0 || magnitude(b) == 0 {
            NAN
        } else {
            with_sign(neg, INF)
        }
    } else {
        with_sign(neg, nearest(units(magnitude(a) as int) * units(magnitude(b) as int), one()))
    }
}

/// The quotient of two floats.
pub open spec fn quotient(a: u64, b: u64) -> u64 {
    let neg = negative(a) != negative(b);
    if is_nan_bits(a) || is_nan_bits(b) {
        NAN
    } else if is_inf_bits(a) {
        if is_inf_bits(b) {
            NAN
        } else {
            with_sign(neg, INF)
        }
    } else if is_inf_bits(b) {
        with_sign(neg, 0)
    } else if magnitude(b) == 0 {
        if magnitude(a) == 0 {
            NAN
        } else {
            with_sign(neg, INF)
        }
    } else {
        with_sign(neg, nearest(units(magnitude(a) as int) * one(), units(magnitude(b) as int)))
    }
}

/// The remainder of truncated division, with the sign of the dividend.
pub open spec fn remainder(a: u64, b: u64) -> u64 {
    if is_nan_bits(a) || is_nan_bits(b) || is_inf_bits(a) || magnitude(b) == 0 {
        NAN
    } else if is_inf_bits(b) {
        a
    } else {
        with_sign(negative(a), nearest(units(magnitude(a) as int) % units(magnitude(b) as int), 1))
    }
}

/// The order of two floats as numbers; infinities count as 2^1024.
pub open spec fn less(a: u64, b: u64) -> bool {
    !is_nan_bits(a) && !is_nan_bits(b) && signed_units(a) < signed_units(b)
}

/// Equality of two floats as numbers: both zeros are equal, a NaN equals nothing.
pub open spec fn same(a: u64, b: u64) -> bool {
    !is_nan_bits(a) && !is_nan_bits(b) && signed_units(a) == signed_units(b)
}

/// The float nearest to `digits / 10^places`.
pub open spec fn of_decimal(digits: nat, places: nat) -> u64 {
    nearest(digits * one(), pow(10, places) as nat)
}

/// Magnitudes grow with their patterns.
pub proof fn lemma_units_step(m: int)
    requires
        0 <= m,
    ensures
        units(m) < units(m + 1),
{
    let e = m / 0x10_0000_0000_0000;
    let f = m % 0x10_0000_0000_0000;
    let e2 = (m + 1) / 0x10_0000_0000_0000;
    let f2 = (m + 1) % 0x10_0000_0000_0000;
    lemma2_to64();
    if f + 1 < 0x10_0000_0000_0000 {
        assert(e2 == e && f2 == f + 1);
        if e > 0 {
            let p = pow2((e - 1) as nat);
            lemma_pow2_pos((e - 1) as nat);
            assert((f + 0x10_0000_0000_0000) as nat * p < (f + 1 + 0x10_0000_0000_0000) as nat * p) by (nonlinear_arith)
                requires
                    p > 0,
                    f >= 0,
            ;
        }
    } else {
        assert(e2 == e + 1 && f2 == 0);
        if e > 0 {
            let p = pow2((e - 1) as nat);
            lemma_pow2_pos((e - 1) as nat);
            lemma_pow2_unfold(e as nat);
            assert(pow2(e as nat) == 2 * p);
            assert((f + 0x10_0000_0000_0000) as nat * p < (0 + 0x10_0000_0000_0000) as nat * (2 * p)) by (nonlinear_arith)
                requires
                    p > 0,
                    0 <= f < 0x10_0000_0000_0000,
            ;
        } else {
            assert(pow2(0) == 1);
            assert((0 + 0x10_0000_0000_0000) as nat * pow2(0) == 0x10_0000_0000_0000) by (nonlinear_arith)
                requires
                    pow2(0) == 1,
            ;
        }
    }
}

proof fn lemma_units_mono(m: int, n: int)
    requires
        0 <= m <= n,
    ensures
        units(m) <= units(n),
        m < n ==> units(m) < units(n),
    decreases n - m,
{
    if m < n {
        lemma_units_mono(m, n - 1);
        lemma_units_step(n - 1);
    }
}

/// Rounding to nearest picks one magnitude.
pub proof fn lemma_nearest_unique(num: nat, den: nat, m: u64, n: u64)
    requires
        den > 0,
        rounds_to(num, den, m),
        rounds_to(num, den, n),
    ensures
        m == n,
{
    if m < n {
        lemma_nearest_unique_below(num, den, m, n);
    } else if n < m {
        lemma_nearest_unique_below(num, den, n, m);
    }
}

proof fn lemma_nearest_unique_below(num: nat, den: nat, m: u64, n: u64)
    requires
        den > 0,
        m < n,
        rounds_to(num, den, m),
    ensures
        !rounds_to(num, den, n),
{
    if rounds_to(num, den, n) {
        let a = units(m as int) + units(m as int + 1);
        let b = units(n as int - 1) + units(n as int);
        lemma_units_mono(m as int, n as int - 1);
        lemma_units_mono(m as int + 1, n as int);
        assert(a <= b && (m + 1 < n ==> a < b));
        assert(a <= b ==> den * a <= den * b) by (nonlinear_arith);
        assert(a < b ==> den * a < den * b) by (nonlinear_arith)
            requires
                den > 0,
        ;
        assert(den * b <= 2 * num <= den * a);
        assert(m + 1 == n);
        assert(m % 2 == 0 && n % 2 == 0);
    }
}

/// What a number rounds to is nearest to it.
pub proof fn lemma_nearest(num: nat, den: nat, m: u64)
    requires
        den > 0,
        rounds_to(num, den, m),
    ensures
        nearest(num, den) == m,
{
    lemma_nearest_unique(num, den, m, nearest(num, den));
}

/// The value of a magnitude in units.
pub fn units_of(m: u64) -> (r: BigNat)
    requires
        m <= INF,
    ensures
        r@ == units(m as int),
{
    let e: u64 = m / 0x10_0000_0000_0000;
    let f: u64 = m % 0x10_0000_0000_0000;
    if e == 0 {
        BigNat::from_u64(f)
    } else {
        BigNat::from_u64(f + 0x10_0000_0000_0000).shl((e - 1) as u32)
    }
}

fn above_lower_exec(twice: &BigNat, den: &BigNat, m: u64, num: Ghost<nat>) -> (r: bool)
    requires
        0 < m <= INF,
        twice@ == 2 * num@,
    ensures
        r == above_lower(num@, den@, m as int),
{
    let mid = den.times(&units_of(m - 1).plus(&units_of(m)));
    match mid.compare(twice) {
        Order::Less => true,
        Order::Same => m % 2 == 0,
        Order::Greater => false,
    }
}

/// Rounds `num / den` units to the nearest magnitude.
pub fn round(num: &BigNat, den: &BigNat) -> (r: u64)
    requires
        den@ > 0,
    ensures
        r == nearest(num@, den@),
        r <= INF,
        rounds_to(num@, den@, r),
{
    let twice = num.times_small(2);
    let mut lo: u64 = 0;
    let mut hi: u64 = INF + 1;
    while hi - lo > 1
        invariant
            lo < hi <= INF + 1,
            den@ > 0,
            twice@ == 2 * num@,
            above_lower(num@, den@, lo as int),
            hi <= INF ==> !above_lower(num@, den@, hi as int),
        decreases hi - lo,
    {
        let mid: u64 = lo + (hi - lo) / 2;
        if above_lower_exec(&twice, den, mid, Ghost(num@)) {
            lo = mid;
        } else {
            hi = mid;
        }
    }
    proof {
        if lo < INF {
            assert(hi == lo + 1);
        }
        assert(rounds_to(num@, den@, lo));
        lemma_nearest(num@, den@, lo);
    }
    lo
}

fn mag(b: u64) -> (r: u64)
    ensures
        r == magnitude(b),
        r < SIGN,
{
    if b >= SIGN {
        b - SIGN
    } else {
        b
    }
}

fn signed(neg: bool, m: u64) -> (r: u64)
    requires
        m < SIGN,
    ensures
        r == with_sign(neg, m),
{
    if neg {
        m + SIGN
    } else {
        m
    }
}

/// `-b`.
pub fn neg(b: u64) -> (r: u64)
    ensures
        r == negated(b),
{
    signed(b < SIGN, mag(b))
}

/// `a + b`.
pub fn plus(a: u64, b: u64) -> (r: u64)
    ensures
        r == sum(a, b),
{
    let ma: u64 = mag(a);
    let mb: u64 = mag(b);
    if ma > INF || mb > INF {
        return NAN;
    }
    if ma == INF {
        return if mb == INF && a != b { NAN } else { a };
    }
    if mb == INF {
        return b;
    }
    let ua = units_of(ma);
    let ub = units_of(mb);
    let na: bool = a >= SIGN;
    let nb: bool = b >= SIGN;
    let unit = BigNat::from_u64(1);
    if na == nb {
        let total = ua.plus(&ub);
        if total.is_zero() {
            return signed(na, 0);
        }
        return signed(na, round(&total, &unit));
    }
    match ua.compare(&ub) {
        Order::Same => 0,
        Order::Greater => signed(na, round(&ua.minus(&ub), &unit)),
        Order::Less => signed(nb, round(&ub.minus(&ua), &unit)),
    }
}

/// `a - b`.
pub fn minus(a: u64, b: u64) -> (r: u64)
    ensures
        r == sum(a, negated(b)),
{
    plus(a, neg(b))
}

fn one_exec() -> (r: BigNat)
    ensures
        r@ == one(),
        r@ > 0,
{
    proof {
        lemma_pow2_pos(1074);
        assert(1 * pow2(1074) == pow2(1074)) by (nonlinear_arith);
    }
    BigNat::from_u64(1).shl(1074)
}

/// `a * b`.
pub fn times(a: u64, b: u64) -> (r: u64)
    ensures
        r == product(a, b),
{
    let ma: u64 = mag(a);
    let mb: u64 = mag(b);
    let n: bool = (a >= SIGN) != (b >= SIGN);
    if ma > INF || mb > INF {
        return NAN;
    }
    if ma == INF || mb == INF {
        return if ma == 0 || mb == 0 { NAN } else { signed(n, INF) };
    }
    signed(n, round(&units_of(ma).times(&units_of(mb)), &one_exec()))
}

/// `a / b`.
pub fn over(a: u64, b: u64) -> (r: u64)
    ensures
        r == quotient(a, b),
{
    let ma: u64 = mag(a);
    let mb: u64 = mag(b);
    let n: bool = (a >= SIGN) != (b >= SIGN);
    if ma > INF || mb > INF {
        return NAN;
    }
    if ma == INF {
        return if mb == INF { NAN } else { signed(n, INF) };
    }
    if mb == INF {
        return signed(n, 0);
    }
    if mb == 0 {
        return if ma == 0 { NAN } else { signed(n, INF) };
    }
    proof {
        lemma_units_mono(0, mb as int);
    }
    signed(n, round(&units_of(ma).times(&one_exec()), &units_of(mb)))
}

/// `a % b`.
pub fn rem(a: u64, b: u64) -> (r: u64)
    ensures
        r == remainder(a, b),
{
    let ma: u64 = mag(a);
    let mb: u64 = mag(b);
    if ma > INF || mb > INF || ma == INF || mb == 0 {
        return NAN;
    }
    if mb == INF {
        return a;
    }
    let d = units_of(mb);
    proof {
        lemma_units_mono(0, mb as int);
    }
    let r = units_of(ma).div_rem(&d).1;
    signed(a >= SIGN, round(&r, &BigNat::from_u64(1)))
}

/// How two floats compare as numbers; `None` where one of them is a NaN.
pub fn order(a: u64, b: u64) -> (r: Option<Order>)
    ensures
        r is None <==> is_nan_bits(a) || is_nan_bits(b),
        r == Some(Order::Less) <==> less(a, b),
        r == Some(Order::Same) <==> same(a, b),
        r == Some(Order::Greater) <==> less(b, a),
{
    let ma: u64 = mag(a);
    let mb: u64 = mag(b);
    if ma > INF || mb > INF {
        return None;
    }
    proof {
        if ma <= mb {
            lemma_units_mono(ma as int, mb as int);
        } else {
            lemma_units_mono(mb as int, ma as int);
        }
        lemma_units_mono(0, ma as int);
        lemma_units_mono(0, mb as int);
    }
    let na: bool = a >= SIGN;
    let nb: bool = b >= SIGN;
    if ma == 0 && mb == 0 {
        Some(Order::Same)
    } else if na != nb {
        Some(if na { Order::Less } else { Order::Greater })
    } else if ma == mb {
        Some(Order::Same)
    } else if (ma < mb) != na {
        Some(Order::Less)
    } else {
        Some(Order::Greater)
    }
}

fn pow10(k: u32) -> (r: BigNat)
    ensures
        r@ == pow(10, k as nat),
        r@ > 0,
{
    let mut acc = BigNat::from_u64(1);
    let mut i: u32 = 0;
    proof {
        vstd::arithmetic::power::lemma_pow0(10);
    }
    while i < k
        invariant
            i <= k,
            acc@ == pow(10, i as nat),
            acc@ > 0,
        decreases k - i,
    {
        proof {
            vstd::arithmetic::power::lemma_pow_adds(10, i as nat, 1);
            vstd::arithmetic::power::lemma_pow1(10);
        }
        acc = acc.times_small(10);
        i += 1;
    }
    acc
}

/// The float nearest to the decimal `digits / 10^places`.
pub fn decimal(digits: &BigNat, places: u32) -> (r: u64)
    ensures
        r == of_decimal(digits@, places as nat),
        r <= INF,
{
    round(&digits.times(&one_exec()), &pow10(places))
}

/// The float nearest to an integer.
pub open spec fn of_int(v: int) -> u64 {
    with_sign(
        v < 0,
        of_decimal(
            (if v < 0 {
                -v
            } else {
                v
            }) as nat,
            0,
        ),
    )
}

/// The float nearest to an integer.
pub fn from_int(v: i64) -> (r: u64)
    ensures
        r == of_int(v as int),
{
    if v >= 0 {
        decimal(&BigNat::from_u64(v as u64), 0)
    } else {
        let size: u64 = (-(v + 1)) as u64 + 1;
        SIGN + decimal(&BigNat::from_u64(size), 0)
    }
}

// --- decimal text ---------------------------------------------------------------

/// A magnitude divided by `10^q`, as a fraction.
pub open spec fn scaled(m: u64, q: int) -> (nat, nat) {
    if q >= 0 {
        (units(m as int), one() * pow(10, q as nat) as nat)
    } else {
        (units(m as int) * pow(10, (-q) as nat) as nat, one())
    }
}

/// The magnitude that `d * 10^q` reads as.
pub open spec fn reads_as(d: nat, q: int) -> u64 {
    if q >= 0 {
        of_decimal(d * pow(10, q as nat) as nat, 0)
    } else {
        of_decimal(d, (-q) as nat)
    }
}

/// The exponent of the leading decimal digit of a magnitude, searched from `e` on.
pub open spec fn leading_exponent(m: u64, e: int) -> int
    decreases 308 - e,
{
    if e >= 308 || scaled(m, e + 1).0 < scaled(m, e + 1).1 {
        e
    } else {
        leading_exponent(m, e + 1)
    }
}

/// The multiple of `10^q` that stands for a magnitude: of the two around it the closer one
/// among those that read back as the magnitude, the upper one where they are equally close.
/// `None` where neither reads back.
pub open spec fn rounded_at(m: u64, q: int) -> Option<nat> {
    let (num, den) = scaled(m, q);
    let d = num / den;
    let r = num % den;
    let down = reads_as(d, q) == m;
    let up = reads_as(d + 1, q) == m;
    if down && (2 * r < den || !up) {
        Some(d)
    } else if up {
        Some(d + 1)
    } else {
        None
    }
}

/// The shortest decimal `d * 10^q` that reads back as a magnitude, among those of `n` digits
/// or more. Seventeen digits suffice.
pub open spec fn shortest(m: u64, e: int, n: int) -> (nat, int)
    decreases 17 - n,
{
    let q = e - n + 1;
    match rounded_at(m, q) {
        Some(d) => (d, q),
        None => if n >= 17 {
            (scaled(m, q).0 / scaled(m, q).1, q)
        } else {
            shortest(m, e, n + 1)
        },
    }
}

/// `n` zeros.
pub open spec fn zeros(n: int) -> Seq<char> {
    Seq::new(n as nat, |i: int| '0')
}

/// The shortest decimal that reads back as a magnitude; ten times a power of ten is one
/// times the next.
pub open spec fn shortest_decimal(m: u64) -> (nat, int) {
    let (d, q) = shortest(m, leading_exponent(m, -324), 1);
    if d == 10 {
        (1, q + 1)
    } else {
        (d, q)
    }
}

/// The text of the decimal `d * 10^q`, without an exponent.
pub open spec fn decimal_text(d: nat, q: int) -> Seq<char> {
    let s = text::dec(d);
    if q >= 0 {
        s + zeros(q)
    } else if s.len() > -q {
        s.take(s.len() + q) + seq!['.'] + s.skip(s.len() + q)
    } else {
        "0."@ + zeros(-q - s.len()) + s
    }
}

/// The text of a finite magnitude: its shortest decimal.
pub open spec fn magnitude_text(m: u64) -> Seq<char> {
    if m == 0 {
        "0"@
    } else {
        let (d, q) = shortest_decimal(m);
        decimal_text(d, q)
    }
}

/// The text of a float.
pub open spec fn shown(b: u64) -> Seq<char> {
    if is_nan_bits(b) {
        "NaN"@
    } else {
        let m = if is_inf_bits(b) {
            "inf"@
        } else {
            magnitude_text(magnitude(b))
        };
        if negative(b) {
            seq!['-'] + m
        } else {
            m
        }
    }
}

fn scaled_exec(m: u64, q: i32) -> (r: (BigNat, BigNat))
    requires
        m <= INF,
        -1000 <= q <= 1000,
    ensures
        r.0@ == scaled(m, q as int).0,
        r.1@ == scaled(m, q as int).1,
        r.1@ > 0,
{
    if q >= 0 {
        let p = pow10(q as u32);
        let o = one_exec();
        assert(o@ * p@ > 0) by (nonlinear_arith)
            requires
                o@ > 0,
                p@ > 0,
        ;
        (units_of(m), o.times(&p))
    } else {
        (units_of(m).times(&pow10((-q) as u32)), one_exec())
    }
}

fn reads_back(d: &BigNat, q: i32) -> (r: u64)
    requires
        -1000 <= q <= 1000,
    ensures
        r == reads_as(d@, q as int),
{
    if q >= 0 {
        decimal(&d.times(&pow10(q as u32)), 0)
    } else {
        decimal(d, (-q) as u32)
    }
}

fn leading_exponent_exec(m: u64) -> (r: i32)
    requires
        m <= INF,
    ensures
        r == leading_exponent(m, -324),
        -324 <= r <= 308,
{
    let mut e: i32 = -324;
    loop
        invariant
            m <= INF,
            -324 <= e <= 308,
            leading_exponent(m, e as int) == leading_exponent(m, -324),
        decreases 308 - e,
    {
        if e >= 308 {
            return e;
        }
        let (num, den) = scaled_exec(m, e + 1);
        if !den.le(&num) {
            return e;
        }
        e += 1;
    }
}

/// The quotient of a scaled magnitude has a bounded number of digits.
proof fn lemma_scaled_bound(m: u64, q: int, den: nat)
    requires
        m <= INF,
        -1000 <= q <= 1000,
        den > 0,
    ensures
        scaled(m, q).0 / den < pow2(6200),
{
    lemma_units_mono(m as int, INF as int);
    let p = pow2(2046);
    lemma_pow2_adds(2046, 53);
    lemma2_to64();
    lemma2_to64_rest();
    lemma_pow2_pos(2046);
    assert(units(INF as int) == 0x10_0000_0000_0000 * p);
    let k = if q >= 0 {
        0nat
    } else {
        (-q) as nat
    };
    lemma_pow10_pow2(k);
    lemma_pow2_adds(2099, 4 * k);
    let u = units(m as int);
    let t = pow(10, k) as nat;
    vstd::arithmetic::power::lemma_pow_positive(10, k);
    vstd::arithmetic::power::lemma_pow0(10);
    assert(u < pow2(2099)) by (nonlinear_arith)
        requires
            u <= 0x10_0000_0000_0000 * p,
            pow2(2099) == p * 0x20_0000_0000_0000,
            p > 0,
    ;
    assert(u * t < pow2(2099) * pow2(4 * k)) by (nonlinear_arith)
        requires
            u < pow2(2099),
            t <= pow2(4 * k),
            t > 0,
    ;
    assert(u * 1 == u) by (nonlinear_arith);
    if 2099 + 4 * k < 6200 {
        lemma_pow2_strictly_increases(2099 + 4 * k, 6200);
    }
    assert(pow2(6200) <= den * pow2(6200)) by (nonlinear_arith)
        requires
            den >= 1,
    ;
    vstd::arithmetic::div_mod::lemma_multiply_divide_lt(scaled(m, q).0 as int, den as int, pow2(6200) as int);
}

proof fn lemma_pow10_pow2(k: nat)
    ensures
        pow(10, k) <= pow2(4 * k),
    decreases k,
{
    lemma2_to64();
    vstd::arithmetic::power::lemma_pow0(10);
    if k > 0 {
        lemma_pow10_pow2((k - 1) as nat);
        lemma_pow2_adds((4 * (k - 1)) as nat, 4);
        vstd::arithmetic::power::lemma_pow_adds(10, (k - 1) as nat, 1);
        vstd::arithmetic::power::lemma_pow1(10);
        vstd::arithmetic::power::lemma_pow_positive(10, (k - 1) as nat);
    }
}

fn rounded_at_exec(m: u64, q: i32) -> (r: Option<BigNat>)
    requires
        m <= INF,
        -1000 <= q <= 1000,
    ensures
        r is Some <==> rounded_at(m, q as int) is Some,
        r is Some ==> r->0@ == rounded_at(m, q as int)->0,
        r is Some ==> r->0@ <= pow2(6200),
{
    let (num, den) = scaled_exec(m, q);
    proof {
        lemma_scaled_bound(m, q as int, den@);
    }
    let (d, rest) = num.div_rem(&den);
    let above = d.plus(&BigNat::from_u64(1));
    let down: bool = reads_back(&d, q) == m;
    let up: bool = reads_back(&above, q) == m;
    let lower_closer: bool = !den.le(&rest.times_small(2));
    if down && (lower_closer || !up) {
        Some(d)
    } else if up {
        Some(above)
    } else {
        None
    }
}

fn shortest_digits(m: u64) -> (r: (BigNat, i32))
    requires
        m <= INF,
    ensures
        r.0@ == shortest(m, leading_exponent(m, -324), 1).0,
        r.1 == shortest(m, leading_exponent(m, -324), 1).1,
        -999 <= r.1 <= 999,
        r.0@ <= pow2(6200),
{
    let e: i32 = leading_exponent_exec(m);
    let mut n: i32 = 1;
    loop
        invariant
            m <= INF,
            -324 <= e <= 308,
            1 <= n <= 17,
            shortest(m, e as int, n as int) == shortest(m, leading_exponent(m, -324), 1),
        decreases 17 - n,
    {
        let q: i32 = e - n + 1;
        match rounded_at_exec(m, q) {
            Some(d) => {
                return (d, q);
            },
            None => {
                if n >= 17 {
                    let (num, den) = scaled_exec(m, q);
                    proof {
                        lemma_scaled_bound(m, q as int, den@);
                    }
                    return (num.div_rem(&den).0, q);
                }
                n += 1;
            },
        }
    }
}

fn shortest_exec(m: u64) -> (r: (BigNat, i32))
    requires
        m <= INF,
    ensures
        r.0@ == shortest_decimal(m).0,
        r.1 == shortest_decimal(m).1,
        -1000 <= r.1 <= 1000,
        r.0@ <= pow2(6200),
{
    let (d, q) = shortest_digits(m);
    let ten = BigNat::from_u64(10);
    if d.le(&ten) && ten.le(&d) {
        proof {
            lemma_pow2_pos(6200);
        }
        (BigNat::from_u64(1), q + 1)
    } else {
        (d, q)
    }
}

pub(crate) fn push_zeros(out: &mut String, n: usize)
    ensures
        final(out)@ == old(out)@ + zeros(n as int),
{
    let mut i: usize = 0;
    assert(out@ =~= old(out)@ + zeros(0));
    while i < n
        invariant
            i <= n,
            out@ == old(out)@ + zeros(i as int),
        decreases n - i,
    {
        out.push('0');
        i += 1;
        assert(out@ =~= old(out)@ + zeros(i as int));
    }
}

fn decimal_string(d: &BigNat, q: i32) -> (r: String)
    requires
        -1000 <= q <= 1000,
    ensures
        r@ == decimal_text(d@, q as int),
{
    let digits = d.digits();
    let mut out = String::new();
    if q >= 0 {
        let mut i: usize = 0;
        while i < digits.len()
            invariant
                i <= digits@.len(),
                out@ == digits@.take(i as int),
            decreases digits.len() - i,
        {
            out.push(digits[i]);
            i += 1;
            assert(out@ =~= digits@.take(i as int));
        }
        assert(digits@.take(i as int) =~= digits@);
        push_zeros(&mut out, q as usize);
        return out;
    }
    let k: usize = (-q) as usize;
    let n: usize = digits.len();
    if n > k {
        out = text::string_of(&digits, 0, n - k);
        out.push('.');
        let rest = text::string_of(&digits, n - k, n);
        out.append(rest.as_str());
        assert(out@ =~= decimal_text(d@, q as int));
    } else {
        out.append("0.");
        push_zeros(&mut out, k - n);
        let rest = text::string_of(&digits, 0, n);
        out.append(rest.as_str());
        assert(out@ =~= decimal_text(d@, q as int));
    }
    out
}

/// The text of a float: its shortest decimal, or `NaN`, `inf`, `-inf`.
pub fn show(b: u64) -> (r: String)
    ensures
        r@ == shown(b),
{
    let m: u64 = mag(b);
    if m > INF {
        return "NaN".to_owned();
    }
    let mut out = String::new();
    if b >= SIGN {
        out.push('-');
    }
    if m == INF {
        out.append("inf");
    } else if m == 0 {
        out.append("0");
    } else {
        let (d, q) = shortest_exec(m);
        let t = decimal_string(&d, q);
        out.append(t.as_str());
    }
    assert(out@ =~= shown(b));
    out
}

/// Text without the zeros at its end; at least one character stays.
pub open spec fn trimmed(s: Seq<char>) -> Seq<char>
    decreases s.len(),
{
    if s.len() > 1 && s.last() == '0' {
        trimmed(s.drop_last())
    } else {
        s
    }
}

/// The text of the decimal `d * 10^q` with an exponent.
pub open spec fn exponent_text(d: nat, q: int) -> Seq<char> {
    let s = text::dec(d);
    let t = trimmed(s);
    let head = if t.len() > 1 {
        t.take(1) + seq!['.'] + t.skip(1)
    } else {
        t
    };
    head + seq!['e'] + text::dec_int(s.len() - 1 + q)
}

/// The text of a finite magnitude in which a float can be told from an integer: with an
/// exponent below `0.0001` and from `10^16` on, else with a decimal point.
pub open spec fn pointed_text(m: u64) -> Seq<char> {
    if m == 0 {
        "0.0"@
    } else {
        let (d, q) = shortest_decimal(m);
        if m < 0x3F1A_36E2_EB1C_432D || m >= 0x4341_C379_37E0_8000 {
            exponent_text(d, q)
        } else if q >= 0 {
            decimal_text(d, q) + ".0"@
        } else {
            decimal_text(d, q)
        }
    }
}

/// The text of a float in which it can be told from an integer.
pub open spec fn pointed(b: u64) -> Seq<char> {
    if is_nan_bits(b) {
        "NaN"@
    } else {
        let m = if is_inf_bits(b) {
            "inf"@
        } else {
            pointed_text(magnitude(b))
        };
        if negative(b) {
            seq!['-'] + m
        } else {
            m
        }
    }
}

proof fn lemma_dec_len(d: nat, k: nat)
    requires
        d < pow2(k),
    ensures
        text::dec(d).len() <= k + 1,
    decreases d,
{
    if d >= 10 {
        if k == 0 {
            lemma2_to64();
        }
        lemma_pow2_adds(1, (k - 1) as nat);
        lemma2_to64();
        lemma_dec_len(d / 10, (k - 1) as nat);
    }
}

fn exponent_string(d: &BigNat, q: i32) -> (r: String)
    requires
        -1000 <= q <= 1000,
        d@ <= pow2(6200),
    ensures
        r@ == exponent_text(d@, q as int),
{
    proof {
        lemma_pow2_adds(1, 6200);
        lemma2_to64();
        lemma_pow2_pos(6200);
        lemma_dec_len(d@, 6201);
    }
    let digits = d.digits();
    let n: usize = digits.len();
    let mut k: usize = n;
    assert(digits@.take(n as int) =~= digits@);
    while k > 1 && digits[k - 1] == '0'
        invariant
            k <= n == digits@.len(),
            trimmed(digits@) == trimmed(digits@.take(k as int)),
        decreases k,
    {
        assert(digits@.take(k as int).drop_last() =~= digits@.take(k - 1));
        k -= 1;
    }
    let ghost t = digits@.take(k as int);
    assert(trimmed(digits@) == t);
    let mut out = String::new();
    if k > 1 {
        out = text::string_of(&digits, 0, 1);
        out.push('.');
        let rest = text::string_of(&digits, 1, k);
        out.append(rest.as_str());
        assert(digits@.subrange(0, 1) =~= t.take(1));
        assert(digits@.subrange(1, k as int) =~= t.skip(1));
    } else {
        out = text::string_of(&digits, 0, k);
        assert(digits@.subrange(0, k as int) =~= t);
    }
    out.push('e');
    text::push_dec_int(&mut out, n as i64 - 1 + q as i64);
    out
}

/// The text of a float in which it can be told from an integer.
pub fn show_pointed(b: u64) -> (r: String)
    ensures
        r@ == pointed(b),
{
    let m: u64 = mag(b);
    if m > INF {
        return "NaN".to_owned();
    }
    let mut out = String::new();
    if b >= SIGN {
        out.push('-');
    }
    if m == INF {
        out.append("inf");
    } else if m == 0 {
        out.append("0.0");
    } else {
        let (d, q) = shortest_exec(m);
        if m < 0x3F1A_36E2_EB1C_432D || m >= 0x4341_C379_37E0_8000 {
            let t = exponent_string(&d, q);
            out.append(t.as_str());
        } else {
            let t = decimal_string(&d, q);
            out.append(t.as_str());
            if q >= 0 {
                out.append(".0");
            }
        }
    }
    assert(out@ =~= pointed(b));
    out
}

} // verus!
