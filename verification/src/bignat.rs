//! Natural numbers of any size, as little-endian limbs.

use crate::text;
use vstd::arithmetic::div_mod::*;
use vstd::arithmetic::power2::*;
use vstd::prelude::*;

verus! {

/// The base of a limb.
pub const BASE: u64 = 0x1_0000_0000;

/// The number that a little-endian sequence of limbs stands for.
pub open spec fn limbs_value(s: Seq<u32>) -> nat
    decreases s.len(),
{
    if s.len() == 0 {
        0
    } else {
        s[0] as nat + 0x1_0000_0000nat * limbs_value(s.drop_first())
    }
}

/// The weight of the limb at position `i`.
spec fn weight(i: nat) -> nat
    decreases i,
{
    if i == 0 {
        1
    } else {
        0x1_0000_0000nat * weight((i - 1) as nat)
    }
}

proof fn lemma_weight_pos(i: nat)
    ensures
        weight(i) >= 1,
    decreases i,
{
    if i > 0 {
        lemma_weight_pos((i - 1) as nat);
    }
}

proof fn lemma_push(s: Seq<u32>, x: u32)
    ensures
        limbs_value(s.push(x)) == limbs_value(s) + x as nat * weight(s.len()),
    decreases s.len(),
{
    if s.len() == 0 {
        assert(s.push(x).drop_first() =~= s);
        assert(x as nat * weight(s.len()) == x as nat) by (nonlinear_arith)
            requires
                weight(s.len()) == 1,
        ;
    } else {
        lemma_push(s.drop_first(), x);
        assert(s.push(x).drop_first() =~= s.drop_first().push(x));
        let w = weight((s.len() - 1) as nat);
        let v = limbs_value(s.drop_first());
        assert(0x1_0000_0000nat * (v + x as nat * w) == 0x1_0000_0000nat * v + x as nat * (0x1_0000_0000nat * w)) by (nonlinear_arith);
    }
}

proof fn lemma_take_bound(s: Seq<u32>)
    ensures
        limbs_value(s) < weight(s.len()),
    decreases s.len(),
{
    if s.len() > 0 {
        lemma_take_bound(s.drop_first());
        let v = limbs_value(s.drop_first());
        let w = weight((s.len() - 1) as nat);
        assert(s[0] as nat + 0x1_0000_0000nat * v < 0x1_0000_0000nat * w) by (nonlinear_arith)
            requires
                v + 1 <= w,
                s[0] < BASE,
        ;
    }
}

/// A natural number.
#[derive(Debug)]
pub struct BigNat {
    limbs: Vec<u32>,
}

impl View for BigNat {
    type V = nat;

    closed spec fn view(&self) -> nat {
        limbs_value(self.limbs@)
    }
}

/// How two numbers compare.
#[derive(Clone, Copy, PartialEq, Eq, Structural, Debug)]
pub enum Order {
    Less,
    Same,
    Greater,
}

impl BigNat {
    /// Zero.
    pub fn zero() -> (r: BigNat)
        ensures
            r@ == 0,
    {
        BigNat { limbs: Vec::new() }
    }

    /// The number `n`.
    pub fn from_u64(n: u64) -> (r: BigNat)
        ensures
            r@ == n,
    {
        let lo: u32 = (n % BASE) as u32;
        let hi: u32 = (n / BASE) as u32;
        let mut limbs: Vec<u32> = Vec::new();
        limbs.push(lo);
        limbs.push(hi);
        proof {
            lemma_push(Seq::<u32>::empty(), lo);
            lemma_push(Seq::<u32>::empty().push(lo), hi);
            reveal_with_fuel(weight, 3);
            assert(hi as nat * weight(1) == hi as nat * 0x1_0000_0000nat) by (nonlinear_arith)
                requires
                    weight(1) == 0x1_0000_0000nat,
            ;
            assert(lo as nat * weight(0) == lo) by (nonlinear_arith)
                requires
                    weight(0) == 1,
            ;
            assert(limbs@ =~= Seq::<u32>::empty().push(lo).push(hi));
        }
        BigNat { limbs }
    }

    /// A copy.
    pub fn dup(&self) -> (r: BigNat)
        ensures
            r@ == self@,
    {
        let limbs = self.limbs.clone();
        assert(limbs@ =~= self.limbs@);
        BigNat { limbs }
    }

    fn limb(&self, i: usize) -> (r: u32)
        ensures
            i < self.limbs@.len() ==> r == self.limbs@[i as int],
            i >= self.limbs@.len() ==> r == 0,
    {
        if i < self.limbs.len() {
            self.limbs[i]
        } else {
            0
        }
    }

    /// The number without its lowest `i` limbs.
    spec fn tail(&self, i: nat) -> nat {
        if i < self.limbs@.len() {
            limbs_value(self.limbs@.skip(i as int))
        } else {
            0
        }
    }

    /// The number made of the lowest `i` limbs.
    spec fn head(&self, i: nat) -> nat {
        if i < self.limbs@.len() {
            limbs_value(self.limbs@.take(i as int))
        } else {
            limbs_value(self.limbs@)
        }
    }

    spec fn at(&self, i: nat) -> nat {
        if i < self.limbs@.len() {
            self.limbs@[i as int] as nat
        } else {
            0
        }
    }

    proof fn lemma_tail_step(&self, i: nat)
        ensures
            self.tail(i) == self.at(i) + 0x1_0000_0000nat * self.tail(i + 1),
    {
        if i < self.limbs@.len() {
            let s = self.limbs@.skip(i as int);
            assert(s.drop_first() =~= self.limbs@.skip(i as int + 1));
            assert(s[0] == self.limbs@[i as int]);
            assert(s.len() > 0);
            assert(limbs_value(s) == s[0] as nat + 0x1_0000_0000nat * limbs_value(s.drop_first()));
            if i + 1 >= self.limbs@.len() {
                assert(s.drop_first().len() == 0);
            }
        }
    }

    proof fn lemma_tail_zero(&self)
        ensures
            self.tail(0) == self@,
    {
        if self.limbs@.len() > 0 {
            assert(self.limbs@.skip(0) =~= self.limbs@);
        }
    }

    proof fn lemma_head_step(&self, i: nat)
        ensures
            self.head(i + 1) == self.head(i) + self.at(i) * weight(i),
            self.head(i) < weight(i),
    {
        if i < self.limbs@.len() {
            let t = self.limbs@.take(i as int);
            assert(self.limbs@.take(i as int + 1) =~= t.push(self.limbs@[i as int]));
            lemma_push(t, self.limbs@[i as int]);
            lemma_take_bound(t);
            if i + 1 >= self.limbs@.len() {
                assert(self.limbs@.take(i as int + 1) =~= self.limbs@);
            }
        } else {
            lemma_take_bound(self.limbs@);
            lemma_weight_mono(self.limbs@.len(), i);
        }
    }

    /// Whether the number is zero.
    pub fn is_zero(&self) -> (r: bool)
        ensures
            r == (self@ == 0),
    {
        let mut i: usize = self.limbs.len();
        proof {
            lemma_nonzero_limb(self.limbs@);
        }
        while i > 0
            invariant
                i <= self.limbs@.len(),
                forall|j: int| i <= j < self.limbs@.len() ==> self.limbs@[j] == 0,
                self@ == limbs_value(self.limbs@),
                self@ == 0 <==> forall|j: int| 0 <= j < self.limbs@.len() ==> self.limbs@[j] == 0,
            decreases i,
        {
            i -= 1;
            if self.limbs[i] != 0 {
                return false;
            }
        }
        true
    }

    /// Compares two numbers.
    pub fn compare(&self, other: &BigNat) -> (r: Order)
        ensures
            r == Order::Less <==> self@ < other@,
            r == Order::Same <==> self@ == other@,
            r == Order::Greater <==> self@ > other@,
    {
        let n: usize = if self.limbs.len() < other.limbs.len() { other.limbs.len() } else { self.limbs.len() };
        let mut i: usize = 0;
        let mut r = Order::Same;
        proof {
            if self.limbs@.len() > 0 {
                assert(self.limbs@.take(0) =~= Seq::<u32>::empty());
            }
            if other.limbs@.len() > 0 {
                assert(other.limbs@.take(0) =~= Seq::<u32>::empty());
            }
        }
        while i < n
            invariant
                i <= n,
                self.limbs@.len() <= n,
                other.limbs@.len() <= n,
                r == Order::Less <==> self.head(i as nat) < other.head(i as nat),
                r == Order::Same <==> self.head(i as nat) == other.head(i as nat),
                r == Order::Greater <==> self.head(i as nat) > other.head(i as nat),
            decreases n - i,
        {
            let a: u32 = self.limb(i);
            let b: u32 = other.limb(i);
            proof {
                self.lemma_head_step(i as nat);
                other.lemma_head_step(i as nat);
                let w = weight(i as nat);
                let x = self.head(i as nat);
                let y = other.head(i as nat);
                assert(a < b ==> x + a as nat * w < y + b as nat * w) by (nonlinear_arith)
                    requires
                        x < w,
                ;
                assert(a > b ==> x + a as nat * w > y + b as nat * w) by (nonlinear_arith)
                    requires
                        y < w,
                ;
            }
            if a < b {
                r = Order::Less;
            } else if a > b {
                r = Order::Greater;
            }
            i += 1;
        }
        r
    }

    /// Whether `self <= other`.
    pub fn le(&self, other: &BigNat) -> (r: bool)
        ensures
            r == (self@ <= other@),
    {
        self.compare(other) != Order::Greater
    }

    /// The sum.
    pub fn plus(&self, other: &BigNat) -> (r: BigNat)
        ensures
            r@ == self@ + other@,
    {
        let n: usize = if self.limbs.len() < other.limbs.len() { other.limbs.len() } else { self.limbs.len() };
        let mut out: Vec<u32> = Vec::new();
        let mut carry: u64 = 0;
        let mut i: usize = 0;
        proof {
            self.lemma_tail_zero();
            other.lemma_tail_zero();
            let t = self@ + other@;
            assert(weight(0) * (0 + t) == t) by (nonlinear_arith)
                requires
                    weight(0) == 1,
            ;
        }
        while i < n
            invariant
                i <= n,
                self.limbs@.len() <= n,
                other.limbs@.len() <= n,
                out@.len() == i,
                carry <= 1,
                limbs_value(out@) + weight(i as nat) * (carry as nat + self.tail(i as nat) + other.tail(i as nat)) == self@ + other@,
            decreases n - i,
        {
            let a: u64 = self.limb(i) as u64;
            let b: u64 = other.limb(i) as u64;
            let s: u64 = a + b + carry;
            let x: u32 = (s % BASE) as u32;
            proof {
                self.lemma_tail_step(i as nat);
                other.lemma_tail_step(i as nat);
                lemma_push(out@, x);
                let w = weight(i as nat);
                let c2: nat = (s / BASE) as nat;
                let p = self.tail(i as nat + 1);
                let q = other.tail(i as nat + 1);
                assert(x as nat * w + (0x1_0000_0000nat * w) * (c2 + p + q) == w * (carry as nat + (a as nat + 0x1_0000_0000nat * p) + (b as nat + 0x1_0000_0000nat * q)))
                    by (nonlinear_arith)
                    requires
                        x as nat + 0x1_0000_0000nat * c2 == a as nat + b as nat + carry as nat,
                ;
            }
            out.push(x);
            carry = s / BASE;
            i += 1;
        }
        let top: u32 = carry as u32;
        proof {
            lemma_push(out@, top);
            let w = weight(n as nat);
            assert(w * (carry as nat + 0 + 0) == top as nat * w) by (nonlinear_arith)
                requires
                    top as nat == carry as nat,
            ;
        }
        out.push(top);
        BigNat { limbs: out }
    }

    /// The difference, where it is not negative.
    pub fn minus(&self, other: &BigNat) -> (r: BigNat)
        requires
            other@ <= self@,
        ensures
            r@ == self@ - other@,
    {
        let n: usize = if self.limbs.len() < other.limbs.len() { other.limbs.len() } else { self.limbs.len() };
        let mut out: Vec<u32> = Vec::new();
        let mut borrow: u64 = 0;
        let mut i: usize = 0;
        proof {
            self.lemma_tail_zero();
            other.lemma_tail_zero();
            let t = self@ - other@;
            assert(weight(0) * (t - 0) == t) by (nonlinear_arith)
                requires
                    weight(0) == 1,
            ;
        }
        while i < n
            invariant
                i <= n,
                self.limbs@.len() <= n,
                other.limbs@.len() <= n,
                out@.len() == i,
                borrow <= 1,
                limbs_value(out@) + weight(i as nat) * (self.tail(i as nat) - other.tail(i as nat) - borrow as nat) == self@ - other@,
            decreases n - i,
        {
            let a: u64 = self.limb(i) as u64;
            let b: u64 = other.limb(i) as u64;
            let s: u64 = BASE + a - b - borrow;
            let x: u32 = (s % BASE) as u32;
            let next: u64 = if s < BASE { 1 } else { 0 };
            proof {
                self.lemma_tail_step(i as nat);
                other.lemma_tail_step(i as nat);
                lemma_push(out@, x);
                let w = weight(i as nat) as int;
                let p = self.tail(i as nat + 1) as int;
                let q = other.tail(i as nat + 1) as int;
                let base = 0x1_0000_0000int;
                assert(x as int * w + (base * w) * (p - q - next as int) == w * ((a as int + base * p) - (b as int + base * q) - borrow as int))
                    by (nonlinear_arith)
                    requires
                        x as int - base * next as int == a as int - b as int - borrow as int,
                ;
            }
            out.push(x);
            borrow = next;
            i += 1;
        }
        proof {
            lemma_take_bound(out@);
            let w = weight(n as nat) as int;
            lemma_weight_pos(n as nat);
            assert(borrow as int >= 1 ==> w * (0 - 0 - borrow as int) <= -w) by (nonlinear_arith)
                requires
                    w >= 1,
            ;
            assert(borrow == 0);
            assert(w * (0 - 0 - 0) == 0) by (nonlinear_arith);
        }
        BigNat { limbs: out }
    }

    /// The product with one limb.
    pub fn times_small(&self, m: u32) -> (r: BigNat)
        ensures
            r@ == self@ * m as nat,
    {
        let n: usize = self.limbs.len();
        let mut out: Vec<u32> = Vec::new();
        let mut carry: u64 = 0;
        let mut i: usize = 0;
        proof {
            self.lemma_tail_zero();
            assert(weight(0) * (0 + self@ * m as nat) == self@ * m as nat) by (nonlinear_arith)
                requires
                    weight(0) == 1,
            ;
        }
        while i < n
            invariant
                i <= n,
                n == self.limbs@.len(),
                out@.len() == i,
                carry < BASE,
                limbs_value(out@) + weight(i as nat) * (carry as nat + self.tail(i as nat) * m as nat) == self@ * m as nat,
            decreases n - i,
        {
            let a: u64 = self.limb(i) as u64;
            assert(a * m as u64 <= 0xffff_ffff * 0xffff_ffff) by (nonlinear_arith)
                requires
                    a <= 0xffff_ffff,
                    m <= 0xffff_ffff,
            ;
            let s: u64 = a * m as u64 + carry;
            let x: u32 = (s % BASE) as u32;
            proof {
                self.lemma_tail_step(i as nat);
                lemma_push(out@, x);
                let w = weight(i as nat);
                let c2: nat = (s / BASE) as nat;
                let p = self.tail(i as nat + 1);
                let am = a as nat * m as nat;
                assert(x as nat * w + (0x1_0000_0000nat * w) * (c2 + p * m as nat) == w * (carry as nat + (a as nat + 0x1_0000_0000nat * p) * m as nat))
                    by (nonlinear_arith)
                    requires
                        x as nat + 0x1_0000_0000nat * c2 == a as nat * m as nat + carry as nat,
                ;
                assert(s / BASE < BASE) by (nonlinear_arith)
                    requires
                        s <= 0xffff_ffff * 0xffff_ffff + 0xffff_ffff,
                        BASE == 0x1_0000_0000,
                ;
            }
            out.push(x);
            carry = s / BASE;
            i += 1;
        }
        let top: u32 = carry as u32;
        proof {
            lemma_push(out@, top);
            let w = weight(n as nat);
            assert(w * (carry as nat + 0 * m as nat) == top as nat * w) by (nonlinear_arith)
                requires
                    top as nat == carry as nat,
            ;
        }
        out.push(top);
        BigNat { limbs: out }
    }

    /// The product.
    pub fn times(&self, other: &BigNat) -> (r: BigNat)
        ensures
            r@ == self@ * other@,
    {
        let mut acc = BigNat::zero();
        let mut i: usize = other.limbs.len();
        assert(self@ * 0 == 0) by (nonlinear_arith);
        while i > 0
            invariant
                i <= other.limbs@.len(),
                acc@ == self@ * other.tail(i as nat),
            decreases i,
        {
            i -= 1;
            let part = self.times_small(other.limbs[i]);
            let mut shifted = acc.limbs;
            let ghost before = shifted@;
            shifted.insert(0, 0);
            proof {
                assert(shifted@.drop_first() =~= before);
                assert(shifted@[0] == 0);
                other.lemma_tail_step(i as nat);
                let t = other.tail(i as nat + 1);
                let d = other.limbs@[i as int] as nat;
                assert(0x1_0000_0000nat * (self@ * t) + self@ * d == self@ * (d + 0x1_0000_0000nat * t)) by (nonlinear_arith);
            }
            acc = BigNat { limbs: shifted }.plus(&part);
        }
        proof {
            other.lemma_tail_zero();
        }
        acc
    }

    /// The number shifted left by `k` bits.
    pub fn shl(&self, k: u32) -> (r: BigNat)
        ensures
            r@ == self@ * pow2(k as nat),
    {
        let mut acc = self.dup();
        let mut left: u32 = k;
        proof {
            lemma2_to64();
            assert(self@ * 1 == self@) by (nonlinear_arith);
        }
        while left >= 30
            invariant
                left <= k,
                acc@ == self@ * pow2((k - left) as nat),
            decreases left,
        {
            proof {
                lemma_pow2_adds((k - left) as nat, 30);
                lemma2_to64();
                let p = pow2((k - left) as nat);
                assert(self@ * p * 0x4000_0000 == self@ * (p * 0x4000_0000)) by (nonlinear_arith);
            }
            acc = acc.times_small(0x4000_0000);
            left -= 30;
        }
        while left > 0
            invariant
                left <= k,
                acc@ == self@ * pow2((k - left) as nat),
            decreases left,
        {
            proof {
                lemma_pow2_adds((k - left) as nat, 1);
                lemma2_to64();
                let p = pow2((k - left) as nat);
                assert(self@ * p * 2 == self@ * (p * 2)) by (nonlinear_arith);
            }
            acc = acc.times_small(2);
            left -= 1;
        }
        acc
    }

    /// The number without leading zero limbs.
    fn trim(self) -> (r: BigNat)
        ensures
            r@ == self@,
    {
        let mut limbs = self.limbs;
        let ghost v = self@;
        while limbs.len() > 0 && limbs[limbs.len() - 1] == 0
            invariant
                limbs_value(limbs@) == v,
            decreases limbs.len(),
        {
            let ghost rest = limbs@.drop_last();
            proof {
                assert(limbs@ =~= rest.push(0));
                lemma_push(rest, 0);
                assert(0 * weight(rest.len()) == 0) by (nonlinear_arith);
            }
            limbs.pop();
        }
        BigNat { limbs }
    }

    /// How often `den` goes into a number that is below `den` times the base.
    fn digit_of(&self, den: &BigNat) -> (d: u32)
        requires
            self@ < den@ * 0x1_0000_0000nat,
        ensures
            den@ * d as nat <= self@,
            self@ < den@ * (d as nat + 1),
    {
        let mut lo: u64 = 0;
        let mut hi: u64 = BASE;
        assert(den@ * 0 == 0) by (nonlinear_arith);
        while hi - lo > 1
            invariant
                lo < hi <= BASE,
                den@ * lo as nat <= self@,
                self@ < den@ * hi as nat,
            decreases hi - lo,
        {
            let mid: u64 = lo + (hi - lo) / 2;
            if den.times_small(mid as u32).le(self) {
                lo = mid;
            } else {
                hi = mid;
            }
        }
        lo as u32
    }

    /// Quotient and remainder.
    pub fn div_rem(&self, den: &BigNat) -> (r: (BigNat, BigNat))
        requires
            den@ > 0,
        ensures
            r.0@ == self@ / den@,
            r.1@ == self@ % den@,
    {
        let mut q: Vec<u32> = Vec::new();
        let mut rest = BigNat::zero();
        let mut i: usize = self.limbs.len();
        assert(0 * den@ == 0) by (nonlinear_arith);
        while i > 0
            invariant
                i <= self.limbs@.len(),
                rest@ < den@,
                limbs_value(q@) * den@ + rest@ == self.tail(i as nat),
            decreases i,
        {
            i -= 1;
            let a: u32 = self.limbs[i];
            let mut limbs = rest.limbs;
            let ghost below = limbs@;
            limbs.insert(0, a);
            assert(limbs@.drop_first() =~= below);
            let cur = BigNat { limbs };
            let ghost r0 = limbs_value(below);
            assert(cur@ == a as nat + 0x1_0000_0000nat * r0);
            assert(cur@ < den@ * 0x1_0000_0000nat) by (nonlinear_arith)
                requires
                    cur@ == a as nat + 0x1_0000_0000nat * r0,
                    r0 + 1 <= den@,
                    a < 0x1_0000_0000nat,
            ;
            let d: u32 = cur.digit_of(den);
            let ghost before = q@;
            q.insert(0, d);
            rest = cur.minus(&den.times_small(d)).trim();
            proof {
                assert(q@.drop_first() =~= before);
                self.lemma_tail_step(i as nat);
                let v = limbs_value(before);
                let n = den@;
                assert(n * (d as nat + 1) == n * d as nat + n) by (nonlinear_arith);
                assert((d as nat + 0x1_0000_0000nat * v) * n == n * d as nat + 0x1_0000_0000nat * (v * n)) by (nonlinear_arith);
                assert(0x1_0000_0000nat * (v * n + r0) == 0x1_0000_0000nat * (v * n) + 0x1_0000_0000nat * r0) by (nonlinear_arith);
            }
        }
        let quotient = BigNat { limbs: q };
        proof {
            self.lemma_tail_zero();
            lemma_fundamental_div_mod_converse(self@ as int, den@ as int, quotient@ as int, rest@ as int);
        }
        (quotient.trim(), rest)
    }
}

impl BigNat {
    /// Quotient and remainder by a small divisor.
    fn div_rem_small(&self, den: u32) -> (r: (BigNat, u32))
        requires
            den > 0,
        ensures
            r.0@ == self@ / den as nat,
            r.1 == self@ % den as nat,
    {
        let mut q: Vec<u32> = Vec::new();
        let mut rest: u64 = 0;
        let mut i: usize = self.limbs.len();
        proof {
            assert(0 * den as nat + 0 == 0) by (nonlinear_arith);
        }
        while i > 0
            invariant
                i <= self.limbs@.len(),
                den > 0,
                rest < den,
                q@.len() == self.limbs@.len() - i,
                limbs_value(q@) * den as nat + rest as nat == self.tail(i as nat),
            decreases i,
        {
            i -= 1;
            let a: u64 = self.limbs[i] as u64;
            assert(rest * BASE + a < den as u64 * BASE) by (nonlinear_arith)
                requires
                    rest + 1 <= den,
                    a < BASE,
            ;
            let cur: u64 = rest * BASE + a;
            let d: u64 = cur / den as u64;
            assert(d < BASE) by (nonlinear_arith)
                requires
                    cur < den as u64 * BASE,
                    d == cur / den as u64,
                    den > 0,
            ;
            let ghost before = q@;
            q.insert(0, d as u32);
            proof {
                assert(q@.drop_first() =~= before);
                self.lemma_tail_step(i as nat);
                let v = limbs_value(before);
                let n = den as nat;
                let rem2 = (cur % den as u64) as nat;
                assert(d as nat * n + rem2 == cur) by (nonlinear_arith)
                    requires
                        d == cur / den as u64,
                        rem2 == cur % den as u64,
                        n == den,
                        den > 0,
                ;
                assert((d as nat + 0x1_0000_0000nat * v) * n + rem2 == a as nat + 0x1_0000_0000nat * (v * n + rest as nat)) by (nonlinear_arith)
                    requires
                        d as nat * n + rem2 == rest as nat * 0x1_0000_0000nat + a as nat,
                ;
            }
            rest = cur % den as u64;
        }
        proof {
            self.lemma_tail_zero();
            lemma_fundamental_div_mod_converse(self@ as int, den as int, limbs_value(q@) as int, rest as int);
        }
        (BigNat { limbs: q }, rest as u32)
    }

    /// The decimal numeral.
    pub fn digits(&self) -> (r: Vec<char>)
        ensures
            r@ == text::dec(self@),
        decreases self@,
    {
        let (q, d) = self.div_rem_small(10);
        let c: char = (48u8 + d as u8) as char;
        if q.is_zero() {
            let mut out: Vec<char> = Vec::new();
            out.push(c);
            assert(out@ =~= text::dec(self@));
            out
        } else {
            let mut out = q.digits();
            out.push(c);
            out
        }
    }
}

proof fn lemma_weight_mono(i: nat, j: nat)
    requires
        i <= j,
    ensures
        weight(i) <= weight(j),
    decreases j,
{
    if i < j {
        lemma_weight_mono(i, (j - 1) as nat);
    }
}

proof fn lemma_nonzero_limb(s: Seq<u32>)
    ensures
        limbs_value(s) == 0 <==> forall|j: int| 0 <= j < s.len() ==> s[j] == 0,
    decreases s.len(),
{
    if s.len() > 0 {
        let t = s.drop_first();
        lemma_nonzero_limb(t);
        if limbs_value(s) == 0 {
            assert forall|j: int| 0 <= j < s.len() implies s[j] == 0 by {
                if j > 0 {
                    assert(t[j - 1] == s[j]);
                }
            }
        }
        if forall|j: int| 0 <= j < s.len() ==> s[j] == 0 {
            assert forall|j: int| 0 <= j < t.len() implies t[j] == 0 by {
                assert(t[j] == s[j + 1]);
            }
        }
    }
}

} // verus!
