//! The text of a number reads back as the number.

use crate::float;
use crate::print;
use crate::text;
use vstd::arithmetic::power::*;
use vstd::arithmetic::power2::*;
use vstd::prelude::*;

verus! {

/// Whether a character is a decimal digit.
pub open spec fn digit(c: char) -> bool {
    '0' <= c <= '9'
}

/// The number that the digits of a text write.
pub open spec fn number(s: Seq<char>) -> nat
    decreases s.len(),
{
    if s.len() == 0 {
        0
    } else if digit(s.last()) {
        10 * number(s.drop_last()) + (s.last() as u32 - '0' as u32) as nat
    } else {
        number(s.drop_last())
    }
}

/// Whether a text is made of digits.
pub open spec fn all_digits(s: Seq<char>) -> bool {
    forall|i: int| 0 <= i < s.len() ==> digit(#[trigger] s[i])
}

/// A decimal numeral is made of digits, and writes its number.
pub proof fn lemma_dec(n: nat)
    ensures
        text::dec(n).len() > 0,
        all_digits(text::dec(n)),
        number(text::dec(n)) == n,
    decreases n,
{
    let s = text::dec(n);
    if n < 10 {
        assert(s.drop_last() =~= Seq::empty());
        assert(s.last() == text::digit_char(n as int));
        assert(number(s.drop_last()) == 0);
    } else {
        lemma_dec(n / 10);
        let d = text::digit_char((n % 10) as int);
        assert(s.drop_last() =~= text::dec(n / 10));
        assert(s.last() == d);
        assert forall|i: int| 0 <= i < s.len() implies digit(#[trigger] s[i]) by {
            if i < s.len() - 1 {
                assert(s[i] == text::dec(n / 10)[i]);
            }
        }
    }
}

/// Whether a text is a number with a point behind its first `k` digits.
pub open spec fn fraction_at(s: Seq<char>, k: int) -> bool {
    &&& 0 < k < s.len() - 1
    &&& s[k] == '.'
    &&& forall|i: int| 0 <= i < s.len() && i != k ==> digit(#[trigger] s[i])
}

// --- seventeen digits suffice ----------------------------------------------------------

/// Some powers of ten.
proof fn lemma_tens()
    ensures
        pow(10, 0) == 1,
        pow(10, 1) == 10,
        pow(10, 16) == 1_0000_0000_0000_0000,
        pow(10, 28) == 1_0000_0000_0000_0000_0000_0000_0000,
{
    lemma_pow0(10);
    lemma_pow1(10);
    lemma_pow_adds(10, 1, 1);
    assert(pow(10, 2) == 100);
    lemma_pow_adds(10, 2, 2);
    assert(pow(10, 4) == 1_0000);
    lemma_pow_adds(10, 4, 4);
    assert(pow(10, 8) == 1_0000_0000);
    lemma_pow_adds(10, 8, 8);
    assert(pow(10, 16) == 1_0000_0000_0000_0000);
    lemma_pow_adds(10, 16, 8);
    assert(pow(10, 24) == 1_0000_0000_0000_0000_0000_0000);
    lemma_pow_adds(10, 24, 4);
}

proof fn lemma_tens_and_twos(k: nat)
    ensures
        pow2(93 * k) <= pow(10, 28 * k),
    decreases k,
{
    lemma_tens();
    lemma2_to64();
    lemma2_to64_rest();
    if k > 0 {
        let j = (k - 1) as nat;
        lemma_tens_and_twos(j);
        lemma_pow2_adds(64, 29);
        lemma_pow2_adds(93 * j, 93);
        lemma_pow_adds(10, 28 * j, 28);
        assert(93 * j + 93 == 93 * k && 28 * j + 28 == 28 * k);
        assert(pow2(93 * j) * pow2(93) <= pow(10, 28 * j) * pow(10, 28)) by (nonlinear_arith)
            requires
                0 <= pow2(93 * j) <= pow(10, 28 * j),
                0 <= pow2(93) <= pow(10, 28),
        ;
    }
}

/// The smallest float is no less than 10^-324.
proof fn lemma_smallest()
    ensures
        pow2(1074) <= pow(10, 324),
{
    lemma_tens();
    lemma2_to64();
    lemma2_to64_rest();
    lemma_tens_and_twos(11);
    lemma_pow2_adds(1023, 51);
    lemma_pow_adds(10, 308, 16);
    assert(pow2(1023) * pow2(51) <= pow(10, 308) * pow(10, 16)) by (nonlinear_arith)
        requires
            0 <= pow2(1023) <= pow(10, 308),
            0 <= pow2(51) <= pow(10, 16),
    ;
}

/// The gap between neighbours is no less than 2^-53 of the larger.
proof fn lemma_gap(m: int)
    requires
        0 <= m,
    ensures
        float::units(m + 1) <= 0x20_0000_0000_0000 * (float::units(m + 1) - float::units(m)),
        float::units(m) < float::units(m + 1),
{
    float::lemma_units_step(m);
    let e = m / 0x10_0000_0000_0000;
    let f = m % 0x10_0000_0000_0000;
    let e2 = (m + 1) / 0x10_0000_0000_0000;
    let f2 = (m + 1) % 0x10_0000_0000_0000;
    lemma2_to64();
    if e > 0 {
        let p = pow2((e - 1) as nat);
        lemma_pow2_pos((e - 1) as nat);
        lemma_pow2_unfold(e as nat);
        let a = float::units(m);
        let b = float::units(m + 1);
        let x = (f + 0x10_0000_0000_0000) as nat;
        assert(a == x * p);
        if f + 1 < 0x10_0000_0000_0000 {
            assert(e2 == e && f2 == f + 1);
            assert(b == (x + 1) * p) by {
                assert((f + 1 + 0x10_0000_0000_0000) as nat == x + 1);
            }
        } else {
            assert(e2 == e + 1 && f2 == 0);
            assert(b == 0x10_0000_0000_0000 * (2 * p));
            assert(b == (x + 1) * p) by (nonlinear_arith)
                requires
                    b == 0x10_0000_0000_0000 * (2 * p),
                    x + 1 == 0x20_0000_0000_0000,
            ;
        }
        assert(b - a == p && b <= 0x20_0000_0000_0000 * p) by (nonlinear_arith)
            requires
                a == x * p,
                b == (x + 1) * p,
                x + 1 <= 0x20_0000_0000_0000,
                p > 0,
        ;
    } else {
        if f + 1 < 0x10_0000_0000_0000 {
            assert(e2 == 0 && f2 == f + 1);
        } else {
            assert(e2 == 1 && f2 == 0);
            assert(float::units(m + 1) == 0x10_0000_0000_0000 * pow2(0));
        }
    }
}

/// Of the multiples of `den` around `num`, the closer one is within the gap.
proof fn lemma_closer(num: nat, den: nat, gap: nat) -> (c: nat)
    requires
        den > 0,
        gap > 0,
        1_0000_0000_0000_0000 * den <= num,
        num <= 0x20_0000_0000_0000 * gap,
    ensures
        c == num / den || c == num / den + 1,
        2 * num - gap < 2 * (c * den) < 2 * num + gap,
{
    let d = num / den;
    let r = num % den;
    vstd::arithmetic::div_mod::lemma_fundamental_div_mod(num as int, den as int);
    assert(num == d * den + r) by (nonlinear_arith)
        requires
            num == den * d + r,
    ;
    assert(den < gap);
    if 2 * r <= den {
        d
    } else {
        assert((d + 1) * den == d * den + den) by (nonlinear_arith);
        d + 1
    }
}

/// With seventeen digits a decimal reads back.
#[verifier::spinoff_prover]
proof fn lemma_reads_back(m: u64, q: int)
    requires
        0 < m < float::INF,
        1_0000_0000_0000_0000 * float::scaled(m, q).1 <= float::scaled(m, q).0,
    ensures
        float::rounded_at(m, q) is Some,
{
    let (num, den) = float::scaled(m, q);
    let u = float::units(m as int);
    let below = float::units(m as int - 1);
    let above = float::units(m as int + 1);
    lemma_gap(m as int);
    lemma_gap(m as int - 1);
    let gap = if u - below < above - u {
        (u - below) as nat
    } else {
        (above - u) as nat
    };
    lemma_pow2_pos(1074);
    lemma_tens();
    let one = float::one();
    if q >= 0 {
        let t = pow(10, q as nat) as nat;
        lemma_pow_positive(10, q as nat);
        assert(den == one * t);
        assert(den > 0) by (nonlinear_arith)
            requires
                den == one * t,
                one > 0,
                t > 0,
        ;
        let c = lemma_closer(num, den, gap);
        assert((c * t) * one == c * den) by (nonlinear_arith)
            requires
                den == one * t,
        ;
        let x = (c * t) * one;
        assert(float::rounds_to(x, 1, m)) by {
            assert(1 * (below + u) == below + u && 1 * (u + above) == u + above);
        }
        float::lemma_nearest(x, 1, m);
        assert(float::reads_as(c, q) == m);
    } else {
        let t = pow(10, (-q) as nat) as nat;
        lemma_pow_positive(10, (-q) as nat);
        assert(num == u * t && den == one);
        let wide = gap * t;
        assert(wide > 0 && num <= 0x20_0000_0000_0000 * wide) by (nonlinear_arith)
            requires
                num == u * t,
                u <= 0x20_0000_0000_0000 * gap,
                wide == gap * t,
                gap > 0,
                t > 0,
        ;
        let c = lemma_closer(num, den, wide);
        let x = c * one;
        assert(t * (below + u) < 2 * x && 2 * x < t * (u + above)) by (nonlinear_arith)
            requires
                2 * num - wide < 2 * x < 2 * num + wide,
                num == u * t,
                wide == gap * t,
                gap <= u - below,
                gap <= above - u,
                t > 0,
        ;
        assert(float::rounds_to(x, t, m));
        float::lemma_nearest(x, t, m);
        assert(float::reads_as(c, q) == m);
    }
}

/// Sixteen places further down, a quotient has sixteen digits more.
proof fn lemma_further(m: u64, e: int)
    requires
        float::scaled(m, e).1 <= float::scaled(m, e).0,
    ensures
        1_0000_0000_0000_0000 * float::scaled(m, e - 16).1 <= float::scaled(m, e - 16).0,
{
    lemma_tens();
    let u = float::units(m as int);
    let one = float::one();
    if e >= 16 {
        let t = pow(10, (e - 16) as nat);
        lemma_pow_adds(10, (e - 16) as nat, 16);
        lemma_pow_positive(10, (e - 16) as nat);
        assert(1_0000_0000_0000_0000 * (one * t) == one * (t * 1_0000_0000_0000_0000)) by (nonlinear_arith);
    } else if e >= 0 {
        let t = pow(10, (16 - e) as nat);
        let v = pow(10, e as nat);
        lemma_pow_adds(10, (16 - e) as nat, e as nat);
        lemma_pow_positive(10, (16 - e) as nat);
        lemma_pow_positive(10, e as nat);
        assert(1_0000_0000_0000_0000 * one <= u * t) by (nonlinear_arith)
            requires
                one * v <= u,
                t * v == 1_0000_0000_0000_0000,
                t > 0,
        ;
    } else {
        let t = pow(10, (16 - e) as nat);
        let v = pow(10, (-e) as nat);
        lemma_pow_adds(10, (-e) as nat, 16);
        lemma_pow_positive(10, (-e) as nat);
        assert(1_0000_0000_0000_0000 * one <= u * t) by (nonlinear_arith)
            requires
                one <= u * v,
                t == v * 1_0000_0000_0000_0000,
        ;
    }
}

/// The leading exponent is not too large.
proof fn lemma_leading(m: u64, e: int)
    requires
        float::scaled(m, e).1 <= float::scaled(m, e).0,
    ensures
        ({
            let r = float::leading_exponent(m, e);
            float::scaled(m, r).1 <= float::scaled(m, r).0
        }),
    decreases 308 - e,
{
    if !(e >= 308 || float::scaled(m, e + 1).0 < float::scaled(m, e + 1).1) {
        lemma_leading(m, e + 1);
    }
}

proof fn lemma_shortest(m: u64, e: int, n: int)
    requires
        float::rounded_at(m, e - 16) is Some,
        n <= 17,
    ensures
        ({
            let (d, q) = float::shortest(m, e, n);
            float::reads_as(d, q) == m
        }),
    decreases 17 - n,
{
    if float::rounded_at(m, e - n + 1) is None {
        assert(n < 17);
        lemma_shortest(m, e, n + 1);
    }
}

/// Every number rounds to a magnitude.
proof fn lemma_rounds(num: nat, den: nat, m: u64)
    requires
        den > 0,
        m <= float::INF,
        float::above_lower(num, den, m as int),
    ensures
        float::rounds_to(num, den, float::nearest(num, den)),
    decreases float::INF - m,
{
    if m < float::INF && float::above_lower(num, den, m + 1) {
        lemma_rounds(num, den, (m + 1) as u64);
    } else {
        assert(float::rounds_to(num, den, m));
    }
}

/// A decimal reads as infinity at most.
pub proof fn lemma_decimal_bound(digits: nat, places: nat)
    ensures
        float::of_decimal(digits, places) <= float::INF,
{
    lemma_pow_positive(10, places);
    lemma_rounds(digits * float::one(), pow(10, places) as nat, 0);
}

/// The power of ten behind the largest float reads as infinity.
proof fn lemma_infinite()
    ensures
        float::of_decimal(pow(10, 309) as nat, 0) == float::INF,
{
    lemma_tens();
    lemma_tens_and_twos(11);
    lemma_pow_adds(10, 308, 1);
    lemma_pow2_unfold(1024);
    let t = pow(10, 309) as nat;
    let one = float::one();
    assert(pow2(1023) <= pow(10, 308));
    lemma_pow_positive(10, 308);
    assert(pow(10, 309) == pow(10, 308) * 10);
    assert(pow2(1024) < t);
    lemma_pow2_pos(1074);
    lemma_pow2_adds(1024, 1074);
    lemma_pow2_adds(2046, 52);
    lemma2_to64();
    lemma2_to64_rest();
    assert(pow2(1024) * one < t * one) by (nonlinear_arith)
        requires
            pow2(1024) < t,
            one > 0,
    ;
    let m = float::INF;
    assert(float::units(m as int) == 0x10_0000_0000_0000 * pow2(2046)) by {
        assert(m as int / 0x10_0000_0000_0000 == 2047);
        assert(m as int % 0x10_0000_0000_0000 == 0);
    }
    assert(float::units(m as int) == pow2(2098));
    lemma_gap(m as int - 1);
    assert(float::rounds_to(t * one, 1, m));
    float::lemma_nearest(t * one, 1, m);
}

/// Ten times as much of both changes nothing.
proof fn lemma_tenfold(a: nat, b: nat)
    requires
        b > 0,
    ensures
        float::nearest(10 * a, 10 * b) == float::nearest(a, b),
{
    let m = float::nearest(a, b);
    lemma_rounds(a, b, 0);
    let x = float::units(m as int - 1) + float::units(m as int);
    let y = float::units(m as int) + float::units(m as int + 1);
    assert((10 * b) * x == 10 * (b * x) && (10 * b) * y == 10 * (b * y)) by (nonlinear_arith);
    float::lemma_nearest(10 * a, 10 * b, m);
}

/// The shortest decimal of a magnitude reads back as it.
proof fn lemma_shortest_decimal(m: u64)
    requires
        0 < m < float::INF,
    ensures
        ({
            let (d, q) = float::shortest_decimal(m);
            float::reads_as(d, q) == m
        }),
{
    let one = float::one();
    lemma_tens();
    lemma_pow2_pos(1074);
    assert(float::scaled(m, -324).1 <= float::scaled(m, -324).0) by {
        lemma_smallest();
        lemma_gap(m as int - 1);
        let u = float::units(m as int);
        let t = pow(10, 324) as nat;
        assert(one <= u * t) by (nonlinear_arith)
            requires
                one <= t,
                u >= 1,
        ;
    }
    let e = float::leading_exponent(m, -324);
    lemma_leading(m, -324);
    lemma_further(m, e);
    lemma_reads_back(m, e - 16);
    lemma_shortest(m, e, 1);
    let (d, q) = float::shortest(m, e, 1);
    if d == 10 {
        if q >= 0 {
            lemma_pow_adds(10, q as nat, 1);
            lemma_pow_positive(10, q as nat);
            assert(1 * pow(10, (q + 1) as nat) as nat == 10 * pow(10, q as nat) as nat);
        } else {
            let k = (-q - 1) as nat;
            let t = pow(10, k) as nat;
            lemma_pow_adds(10, k, 1);
            lemma_pow_positive(10, k);
            assert(pow(10, (-q) as nat) == 10 * t);
            lemma_tenfold(one, t);
            assert(1 * one == one);
            assert(float::of_decimal(10, (-q) as nat) == float::of_decimal(1, k));
            if k == 0 {
                assert(1 * pow(10, 0) as nat == 1);
            }
            assert(float::reads_as(1, q + 1) == float::of_decimal(1, k));
        }
    }
}

// --- texts of numbers ------------------------------------------------------------------

/// What is no digit does not count.
proof fn lemma_number_skip(s: Seq<char>, k: int)
    requires
        0 <= k < s.len(),
        !digit(s[k]),
    ensures
        number(s) == number(s.take(k) + s.skip(k + 1)),
    decreases s.len(),
{
    let t = s.take(k) + s.skip(k + 1);
    if k == s.len() - 1 {
        assert(t =~= s.drop_last());
    } else {
        lemma_number_skip(s.drop_last(), k);
        assert(t.drop_last() =~= s.drop_last().take(k) + s.drop_last().skip(k + 1));
        assert(t.last() == s.last());
    }
}

proof fn lemma_number_zeros(s: Seq<char>, n: nat)
    ensures
        number(s + float::zeros(n as int)) == number(s) * pow(10, n),
    decreases n,
{
    let t = s + float::zeros(n as int);
    lemma_tens();
    if n > 0 {
        lemma_number_zeros(s, (n - 1) as nat);
        assert(t.drop_last() =~= s + float::zeros(n - 1));
        assert(t.last() == '0');
        lemma_pow_adds(10, (n - 1) as nat, 1);
        let p = pow(10, (n - 1) as nat);
        let v = number(s);
        assert(10 * (v * p) == v * (p * 10)) by (nonlinear_arith);
    } else {
        assert(t =~= s);
    }
}

proof fn lemma_zeros_number(n: nat, s: Seq<char>)
    ensures
        number(float::zeros(n as int) + s) == number(s),
    decreases n + s.len(),
{
    let t = float::zeros(n as int) + s;
    if s.len() > 0 {
        lemma_zeros_number(n, s.drop_last());
        assert(t.drop_last() =~= float::zeros(n as int) + s.drop_last());
        assert(t.last() == s.last());
    } else if n > 0 {
        lemma_zeros_number((n - 1) as nat, s);
        assert(t.drop_last() =~= float::zeros(n - 1) + s);
        assert(t.last() == '0');
    } else {
        assert(t =~= s);
    }
}

/// A whole number, written with a point and a zero.
proof fn lemma_whole(s: Seq<char>, v: nat)
    requires
        s.len() > 0,
        all_digits(s),
        number(s) == v,
    ensures
        fraction_at(s + ".0"@, s.len() as int),
        (s + ".0"@).len() == s.len() + 2,
        float::of_decimal(number(s + ".0"@), 1) == float::of_decimal(v, 0),
        !s.contains('.'),
{
    reveal_strlit(".0");
    let t = s + ".0"@;
    let k = s.len() as int;
    assert forall|i: int| 0 <= i < t.len() && i != k implies digit(#[trigger] t[i]) by {
        if i < k {
            assert(t[i] == s[i]);
        }
    }
    lemma_number_skip(t, k);
    let w = t.take(k) + t.skip(k + 1);
    assert(w.drop_last() =~= s);
    assert(w.last() == '0');
    assert(number(t) == 10 * v);
    lemma_tens();
    let one = float::one();
    assert((10 * v) * one == 10 * (v * one)) by (nonlinear_arith);
    lemma_tenfold(v * one, 1);
    if s.contains('.') {
        let i = choose|i: int| 0 <= i < s.len() && s[i] == '.';
        assert(digit(s[i]));
    }
}

/// The text of a float literal is a number with a point, and reads back as the float.
#[verifier::spinoff_prover]
#[verifier::rlimit(40)]
pub proof fn lemma_float_literal(b: u64)
    requires
        b <= float::INF,
    ensures
        exists|k: int|
            #[trigger] fraction_at(print::float_literal(b), k) && float::of_decimal(
                number(print::float_literal(b)),
                (print::float_literal(b).len() - k - 1) as nat,
            ) == b,
{
    let t = print::float_literal(b);
    if b == float::INF {
        reveal_strlit("1");
        let one = "1"@;
        let w = one + float::zeros(309);
        assert(one.drop_last() =~= Seq::empty());
        assert(number(one.drop_last()) == 0);
        assert(number(one) == 1);
        lemma_number_zeros(one, 309);
        lemma_pow_positive(10, 309);
        assert(number(w) == pow(10, 309) as nat);
        lemma_whole(w, pow(10, 309) as nat);
        lemma_infinite();
        assert(fraction_at(t, w.len() as int));
    } else {
        lemma_finite_literal(b);
    }
}

/// The same of a finite float.
#[verifier::spinoff_prover]
#[verifier::rlimit(40)]
proof fn lemma_finite_literal(b: u64)
    requires
        b < float::INF,
    ensures
        exists|k: int|
            #[trigger] fraction_at(print::float_literal(b), k) && float::of_decimal(
                number(print::float_literal(b)),
                (print::float_literal(b).len() - k - 1) as nat,
            ) == b,
{
    let t = print::float_literal(b);
    let s = float::shown(b);
    assert(float::magnitude(b) == b && !float::is_nan_bits(b) && !float::is_inf_bits(b));
    assert(s == float::magnitude_text(b));
    if b == 0 {
        reveal_strlit("0");
        assert(s.drop_last() =~= Seq::empty());
        assert(number(s.drop_last()) == 0);
        assert(number(s) == 0);
        lemma_whole(s, 0);
        lemma_tens();
        assert(float::rounds_to(0, 1, 0)) by {
            lemma_gap(0);
        }
        float::lemma_nearest(0, 1, 0);
        assert(0 * float::one() == 0);
        assert(fraction_at(t, 1));
    } else {
        let (d, q) = float::shortest_decimal(b);
        lemma_shortest_decimal(b);
        let w = text::dec(d);
        lemma_dec(d);
        if q >= 0 {
            lemma_number_zeros(w, q as nat);
            assert(s == w + float::zeros(q));
            assert forall|i: int| 0 <= i < s.len() implies digit(#[trigger] s[i]) by {
                if i < w.len() {
                    assert(s[i] == w[i]);
                }
            }
            lemma_pow_positive(10, q as nat);
            let v = d * pow(10, q as nat) as nat;
            assert(number(s) == v);
            lemma_whole(s, v);
            assert(fraction_at(t, s.len() as int));
        } else if w.len() > -q {
            let j = w.len() + q;
            assert(s == w.take(j) + seq!['.'] + w.skip(j));
            assert(s[j] == '.');
            assert(s.contains('.'));
            assert(t == s);
            assert forall|i: int| 0 <= i < s.len() && i != j implies digit(#[trigger] s[i]) by {
                if i < j {
                    assert(s[i] == w[i]);
                } else {
                    assert(s[i] == w[i - 1]);
                }
            }
            lemma_number_skip(s, j);
            assert(s.take(j) + s.skip(j + 1) =~= w);
            assert(fraction_at(t, j));
            assert(t.len() - j - 1 == -q);
        } else {
            let z = -q - w.len();
            reveal_strlit("0.");
            assert(s == "0."@ + float::zeros(z) + w);
            assert(s[1] == '.');
            assert(s.contains('.'));
            assert(t == s);
            assert forall|i: int| 0 <= i < s.len() && i != 1 implies digit(#[trigger] s[i]) by {
                if i >= 2 + z {
                    assert(s[i] == w[i - 2 - z]);
                }
            }
            lemma_number_skip(s, 1);
            assert(s.take(1) + s.skip(2) =~= float::zeros(z + 1) + w);
            lemma_zeros_number((z + 1) as nat, w);
            assert(fraction_at(t, 1));
            assert(t.len() - 1 - 1 == -q);
        }
    }
}

} // verus!
