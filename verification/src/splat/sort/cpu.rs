//! Radix sort by camera-space depth.
//!
//! Four stable counting passes over the bytes of a key that orders like the depth.

use vstd::arithmetic::div_mod::lemma_mod_breakdown;
use vstd::arithmetic::power2::{lemma_pow2_pos, lemma_pow2_strictly_increases, lemma_pow2_unfold, pow2};
use vstd::prelude::*;
use vstd::set_lib::{lemma_int_range, lemma_subset_equality, set_int_range};

verus! {

// --- keys -----------------------------------------------------------------------

/// The sort key of a float, by its bits: a set sign bit inverts all bits, a clear
/// one is set.
pub open spec fn key_of(bits: u32) -> u32 {
    if bits >= 0x8000_0000 {
        (0xFFFF_FFFF - bits) as u32
    } else {
        (bits + 0x8000_0000) as u32
    }
}

/// Maps the bits of a depth to a sort key. The mapping is monotonic, so sorting the
/// keys as integers sorts the depths.
pub fn float_to_radix_key(bits: u32) -> (r: u32)
    ensures
        r == key_of(bits),
{
    if bits >= 0x8000_0000 {
        0xFFFF_FFFF - bits
    } else {
        bits + 0x8000_0000
    }
}

/// The magnitude of a single-precision float in units of its smallest positive
/// value. The infinities come out above all finite magnitudes.
pub open spec fn magnitude(bits: u32) -> nat {
    let m = (bits % 0x8000_0000) as nat;
    let e = m / 0x80_0000;
    let f = m % 0x80_0000;
    if e == 0 {
        f
    } else {
        (0x80_0000 + f) * pow2((e - 1) as nat)
    }
}

/// The value of a single-precision float in units of its smallest positive value.
pub open spec fn scaled(bits: u32) -> int {
    if bits >= 0x8000_0000 {
        -(magnitude(bits) as int)
    } else {
        magnitude(bits) as int
    }
}

proof fn lemma_magnitude(a: u32, b: u32)
    requires
        a % 0x8000_0000 < b % 0x8000_0000,
    ensures
        magnitude(a) < magnitude(b),
{
    let ma = (a % 0x8000_0000) as nat;
    let mb = (b % 0x8000_0000) as nat;
    let (ea, fa) = (ma / 0x80_0000, ma % 0x80_0000);
    let (eb, fb) = (mb / 0x80_0000, mb % 0x80_0000);
    assert(ea <= eb);
    if eb > 0 {
        let q = pow2((eb - 1) as nat) as int;
        lemma_pow2_pos((eb - 1) as nat);
        if ea == eb {
            assert((0x80_0000 + fa) * q < (0x80_0000 + fb) * q) by (nonlinear_arith)
                requires
                    fa < fb,
                    q > 0,
            ;
        } else if ea == 0 {
            assert(0x80_0000 <= (0x80_0000 + fb) * q) by (nonlinear_arith)
                requires
                    q >= 1,
            ;
        } else {
            let p = pow2((ea - 1) as nat) as int;
            lemma_pow2_pos((ea - 1) as nat);
            lemma_pow2_unfold(ea);
            if ea < eb - 1 {
                lemma_pow2_strictly_increases(ea, (eb - 1) as nat);
            }
            assert(2 * p <= q);
            assert((0x80_0000 + fa) * p < (0x80_0000 + fb) * q) by (nonlinear_arith)
                requires
                    fa < 0x80_0000,
                    0 <= fb,
                    0 < p,
                    2 * p <= q,
            ;
        }
    }
}

/// Of two depths, the key of the smaller is the smaller.
pub proof fn law_keys_order_like_depths(a: u32, b: u32)
    requires
        scaled(a) < scaled(b),
    ensures
        key_of(a) < key_of(b),
{
    let ma = a % 0x8000_0000;
    let mb = b % 0x8000_0000;
    if a < 0x8000_0000 && b < 0x8000_0000 {
        if mb < ma {
            lemma_magnitude(b, a);
        }
        assert(ma < mb);
    } else if a >= 0x8000_0000 && b >= 0x8000_0000 {
        if ma < mb {
            lemma_magnitude(a, b);
        }
        assert(mb < ma);
    }
}

// --- counting -------------------------------------------------------------------

/// A key and the place it came from.
pub type Entry = (u32, u32);

/// The digit of a key at a weight.
spec fn digit(k: u32, w: int) -> int {
    (k as int / w) % 256
}

/// How many of the first `k` entries have the digit `d`.
spec fn count_eq(e: Seq<Entry>, w: int, d: int, k: int) -> int
    decreases k,
{
    if k <= 0 {
        0
    } else {
        count_eq(e, w, d, k - 1) + if digit(e[k - 1].0, w) == d {
            1int
        } else {
            0
        }
    }
}

/// How many of the first `k` entries have a digit below `d`.
spec fn count_lt(e: Seq<Entry>, w: int, d: int, k: int) -> int
    decreases k,
{
    if k <= 0 {
        0
    } else {
        count_lt(e, w, d, k - 1) + if digit(e[k - 1].0, w) < d {
            1int
        } else {
            0
        }
    }
}

/// Where a stable pass puts the `j`th entry.
spec fn rank(e: Seq<Entry>, w: int, j: int) -> int {
    count_lt(e, w, digit(e[j].0, w), e.len() as int) + count_eq(e, w, digit(e[j].0, w), j)
}

proof fn lemma_counts(e: Seq<Entry>, w: int, d: int, k: int)
    ensures
        0 <= count_eq(e, w, d, k),
        0 <= count_lt(e, w, d, k),
        k >= 0 ==> count_lt(e, w, d, k) + count_eq(e, w, d, k) <= k,
        count_lt(e, w, d + 1, k) == count_lt(e, w, d, k) + count_eq(e, w, d, k),
    decreases k,
{
    if k > 0 {
        lemma_counts(e, w, d, k - 1);
    }
}

proof fn lemma_count_eq_grows(e: Seq<Entry>, w: int, d: int, j: int, k: int)
    requires
        0 <= j <= k,
    ensures
        count_eq(e, w, d, j) <= count_eq(e, w, d, k),
    decreases k,
{
    if j < k {
        lemma_count_eq_grows(e, w, d, j, k - 1);
    }
}

proof fn lemma_count_lt_grows(e: Seq<Entry>, w: int, c: int, d: int, k: int)
    requires
        c <= d,
    ensures
        count_lt(e, w, c, k) <= count_lt(e, w, d, k),
    decreases k,
{
    if k > 0 {
        lemma_count_lt_grows(e, w, c, d, k - 1);
    }
}

/// Ranks lie in range, and order entries by digit and then by place.
proof fn lemma_rank_order(e: Seq<Entry>, w: int, i: int, j: int)
    requires
        0 <= i < e.len(),
        0 <= j < e.len(),
    ensures
        0 <= rank(e, w, i) < e.len(),
        digit(e[i].0, w) < digit(e[j].0, w) ==> rank(e, w, i) < rank(e, w, j),
        digit(e[i].0, w) == digit(e[j].0, w) && i < j ==> rank(e, w, i) < rank(e, w, j),
{
    let n = e.len() as int;
    let (di, dj) = (digit(e[i].0, w), digit(e[j].0, w));
    lemma_counts(e, w, di, i);
    lemma_counts(e, w, di, n);
    lemma_counts(e, w, dj, j);
    lemma_count_eq_grows(e, w, di, i + 1, n);
    assert(count_eq(e, w, di, i + 1) == count_eq(e, w, di, i) + 1);
    if di < dj {
        lemma_count_lt_grows(e, w, di + 1, dj, n);
    }
    if di == dj && i < j {
        lemma_count_eq_grows(e, w, di, i + 1, j);
    }
}

/// The `r`th entry with a digit.
proof fn lemma_nth(e: Seq<Entry>, w: int, d: int, r: int, k: int) -> (i: int)
    requires
        0 <= r < count_eq(e, w, d, k),
        0 <= k <= e.len(),
    ensures
        0 <= i < k,
        digit(e[i].0, w) == d,
        count_eq(e, w, d, i) == r,
    decreases k,
{
    if digit(e[k - 1].0, w) == d && count_eq(e, w, d, k - 1) == r {
        k - 1
    } else {
        lemma_nth(e, w, d, r, k - 1)
    }
}

/// The digit whose entries cover a place.
proof fn lemma_covering(e: Seq<Entry>, w: int, p: int, top: int) -> (d: int)
    requires
        0 <= top,
        count_lt(e, w, 0, e.len() as int) <= p < count_lt(e, w, top, e.len() as int),
    ensures
        0 <= d < top,
        count_lt(e, w, d, e.len() as int) <= p < count_lt(e, w, d + 1, e.len() as int),
    decreases top,
{
    if p >= count_lt(e, w, top - 1, e.len() as int) {
        top - 1
    } else {
        lemma_covering(e, w, p, top - 1)
    }
}

proof fn lemma_all_below(e: Seq<Entry>, w: int, k: int)
    requires
        0 <= k <= e.len(),
        w > 0,
    ensures
        count_lt(e, w, 256, k) == k,
        count_lt(e, w, 0, k) == 0,
    decreases k,
{
    if k > 0 {
        lemma_all_below(e, w, k - 1);
        lemma_digit_range(e[k - 1].0, w);
    }
}

proof fn lemma_digit_range(k: u32, w: int)
    requires
        w > 0,
    ensures
        0 <= digit(k, w) < 256,
{
}

/// Every place is the rank of an entry.
proof fn lemma_rank_onto(e: Seq<Entry>, w: int, p: int) -> (i: int)
    requires
        0 <= p < e.len(),
        w > 0,
    ensures
        0 <= i < e.len(),
        rank(e, w, i) == p,
{
    let n = e.len() as int;
    lemma_all_below(e, w, n);
    let d = lemma_covering(e, w, p, 256);
    lemma_counts(e, w, d, n);
    lemma_nth(e, w, d, p - count_lt(e, w, d, n), n)
}

// --- order ----------------------------------------------------------------------

/// Whether an entry comes first by the part of its key below a weight, and then by
/// its place.
spec fn before(a: Entry, b: Entry, w: int) -> bool {
    a.0 as int % w < b.0 as int % w || (a.0 as int % w == b.0 as int % w && a.1 < b.1)
}

/// Whether entries are those of `keys`, sorted by the parts of the keys below a
/// weight.
spec fn arranged(e: Seq<Entry>, keys: Seq<u32>, w: int) -> bool {
    &&& e.len() == keys.len()
    &&& forall|i: int| 0 <= i < e.len() ==> (#[trigger] e[i]).1 < keys.len() && e[i].0 == keys[e[i].1 as int]
    &&& forall|i: int, j: int| 0 <= i < j < e.len() ==> before(#[trigger] e[i], #[trigger] e[j], w)
}

/// Whether `out` is what a stable pass makes of `e`.
spec fn passed(e: Seq<Entry>, out: Seq<Entry>, w: int) -> bool {
    out.len() == e.len() && forall|j: int| 0 <= j < e.len() ==> out[rank(e, w, j)] == #[trigger] e[j]
}

/// A pass sorts by one more digit.
proof fn lemma_pass(e: Seq<Entry>, out: Seq<Entry>, keys: Seq<u32>, w: int)
    requires
        w > 0,
        arranged(e, keys, w),
        passed(e, out, w),
    ensures
        arranged(out, keys, 256 * w),
{
    assert forall|p: int| 0 <= p < out.len() implies (#[trigger] out[p]).1 < keys.len() && out[p].0
        == keys[out[p].1 as int] by {
        let i = lemma_rank_onto(e, w, p);
        assert(out[rank(e, w, i)] == e[i]);
    }
    assert forall|p: int, q: int| 0 <= p < q < out.len() implies before(#[trigger] out[p], #[trigger] out[q], 256 * w) by {
        let i = lemma_rank_onto(e, w, p);
        let j = lemma_rank_onto(e, w, q);
        assert(out[rank(e, w, i)] == e[i]);
        assert(out[rank(e, w, j)] == e[j]);
        lemma_rank_order(e, w, i, j);
        lemma_rank_order(e, w, j, i);
        let (a, b) = (e[i].0, e[j].0);
        let (da, db) = (digit(a, w), digit(b, w));
        lemma_mod_breakdown(a as int, w, 256);
        lemma_mod_breakdown(b as int, w, 256);
        assert(w * 256 == 256 * w) by (nonlinear_arith);
        let (la, lb) = (a as int % w, b as int % w);
        assert(0 <= la < w && 0 <= lb < w) by {
            vstd::arithmetic::div_mod::lemma_mod_bound(a as int, w);
            vstd::arithmetic::div_mod::lemma_mod_bound(b as int, w);
        }
        if da < db {
            assert(w * da + la < w * db + lb) by (nonlinear_arith)
                requires
                    da < db,
                    0 < w,
                    la < w,
                    0 <= lb,
            ;
        } else {
            assert(da == db);
            assert(i < j) by {
                if i == j {
                    assert(p == q);
                }
            }
            assert(before(e[i], e[j], w));
        }
    }
}

// --- the sort -------------------------------------------------------------------

/// Whether `r` lists all places of `keys`, from the largest key to the smallest; of
/// equal keys the later place comes first.
pub open spec fn back_to_front(r: Seq<u32>, keys: Seq<u32>) -> bool {
    &&& r.len() == keys.len()
    &&& forall|i: int| 0 <= i < r.len() ==> (#[trigger] r[i]) < keys.len()
    &&& forall|i: int, j: int|
        0 <= i < j < r.len() ==> {
            let (a, b) = (#[trigger] r[i], #[trigger] r[j]);
            keys[a as int] > keys[b as int] || (keys[a as int] == keys[b as int] && a > b)
        }
}

/// The keys of some depths.
pub open spec fn keys_of(depths: Seq<u32>) -> Seq<u32> {
    Seq::new(depths.len(), |i: int| key_of(depths[i]))
}

/// Every place appears in a back-to-front list.
pub proof fn law_sort_loses_nothing(r: Seq<u32>, keys: Seq<u32>, place: u32)
    requires
        back_to_front(r, keys),
        place < keys.len(),
    ensures
        r.contains(place),
{
    let t = Seq::new(r.len(), |i: int| r[i] as int);
    assert(t.no_duplicates()) by {
        assert forall|i: int, j: int| 0 <= i < t.len() && 0 <= j < t.len() && i != j implies t[i] != t[j] by {
            if i < j {
                assert(r[i] != r[j]);
            } else {
                assert(r[j] != r[i]);
            }
        }
    }
    t.unique_seq_to_set();
    let all = set_int_range(0, keys.len() as int);
    lemma_int_range(0, keys.len() as int);
    assert(t.to_set().subset_of(all)) by {
        assert forall|x: int| t.to_set().contains(x) implies all.contains(x) by {
            let i = choose|i: int| 0 <= i < t.len() && t[i] == x;
            assert(r[i] < keys.len());
        }
    }
    lemma_subset_equality(t.to_set(), all);
    assert(all.contains(place as int));
    assert(t.to_set().contains(place as int));
    let i = choose|i: int| 0 <= i < t.len() && t[i] == place;
    assert(r[i] == place);
}

/// There is one back-to-front list of some keys, however it is computed.
pub proof fn law_sort_is_determined(r: Seq<u32>, s: Seq<u32>, keys: Seq<u32>)
    requires
        back_to_front(r, keys),
        back_to_front(s, keys),
    ensures
        r == s,
{
    assert forall|i: int| 0 <= i < r.len() implies r[i] == s[i] by {
        lemma_same_place(r, s, keys, i);
    }
    assert(r =~= s);
}

proof fn lemma_same_place(r: Seq<u32>, s: Seq<u32>, keys: Seq<u32>, i: int)
    requires
        back_to_front(r, keys),
        back_to_front(s, keys),
        0 <= i < r.len(),
    ensures
        forall|k: int| 0 <= k <= i ==> r[k] == s[k],
    decreases i,
{
    if i > 0 {
        lemma_same_place(r, s, keys, i - 1);
    }
    if r[i] != s[i] {
        law_sort_loses_nothing(s, keys, r[i]);
        law_sort_loses_nothing(r, keys, s[i]);
        let j = choose|j: int| 0 <= j < s.len() && s[j] == r[i];
        let k = choose|k: int| 0 <= k < r.len() && r[k] == s[i];
        if j < i {
            assert(r[j] == s[j]);
        }
        if k < i {
            assert(r[k] == s[k]);
        }
        assert(i < j && i < k);
    }
}

/// Each entry's digit, counted.
fn count_digits(e: &Vec<Entry>, w: u32) -> (r: Vec<u32>)
    requires
        w > 0,
        e@.len() <= u32::MAX,
    ensures
        r@.len() == 256,
        forall|d: int| 0 <= d < 256 ==> (#[trigger] r@[d]) == count_eq(e@, w as int, d, e@.len() as int),
{
    let mut counts: Vec<u32> = Vec::new();
    let mut d: usize = 0;
    while d < 256
        invariant
            d <= 256,
            counts@.len() == d,
            forall|c: int| 0 <= c < d ==> (#[trigger] counts@[c]) == 0,
        decreases 256 - d,
    {
        counts.push(0);
        d += 1;
    }
    let mut k: usize = 0;
    while k < e.len()
        invariant
            w > 0,
            k <= e@.len() <= u32::MAX,
            counts@.len() == 256,
            forall|c: int| 0 <= c < 256 ==> (#[trigger] counts@[c]) == count_eq(e@, w as int, c, k as int),
        decreases e.len() - k,
    {
        let c: usize = ((e[k].0 / w) % 256) as usize;
        assert(c == digit(e@[k as int].0, w as int));
        proof {
            lemma_counts(e@, w as int, c as int, k as int);
        }
        let n: u32 = counts[c];
        counts.set(c, n + 1);
        k += 1;
    }
    counts
}

/// Where the entries of each digit start.
fn prefix_sums(e: &Vec<Entry>, w: u32, counts: &Vec<u32>) -> (r: Vec<u32>)
    requires
        w > 0,
        e@.len() <= u32::MAX,
        counts@.len() == 256,
        forall|d: int| 0 <= d < 256 ==> (#[trigger] counts@[d]) == count_eq(e@, w as int, d, e@.len() as int),
    ensures
        r@.len() == 256,
        forall|d: int| 0 <= d < 256 ==> (#[trigger] r@[d]) == count_lt(e@, w as int, d, e@.len() as int),
{
    let ghost n = e@.len() as int;
    let mut offsets: Vec<u32> = Vec::new();
    let mut sum: u32 = 0;
    let mut d: usize = 0;
    proof {
        lemma_all_below(e@, w as int, n);
    }
    while d < 256
        invariant
            d <= 256,
            n == e@.len() <= u32::MAX,
            counts@.len() == 256,
            forall|c: int| 0 <= c < 256 ==> (#[trigger] counts@[c]) == count_eq(e@, w as int, c, n),
            offsets@.len() == d,
            forall|c: int| 0 <= c < d ==> (#[trigger] offsets@[c]) == count_lt(e@, w as int, c, n),
            sum == count_lt(e@, w as int, d as int, n),
        decreases 256 - d,
    {
        proof {
            lemma_counts(e@, w as int, d as int, n);
        }
        offsets.push(sum);
        sum = sum + counts[d];
        d += 1;
    }
    offsets
}

/// One stable pass over the digit at a weight.
fn pass(e: &Vec<Entry>, w: u32) -> (r: Vec<Entry>)
    requires
        w > 0,
        e@.len() <= u32::MAX,
    ensures
        passed(e@, r@, w as int),
{
    let ghost n = e@.len() as int;
    let counts = count_digits(e, w);
    let mut cursors = prefix_sums(e, w, &counts);
    let mut out: Vec<Entry> = Vec::new();
    let mut k: usize = 0;
    while k < e.len()
        invariant
            k <= e@.len(),
            out@.len() == k,
        decreases e.len() - k,
    {
        out.push((0, 0));
        k += 1;
    }
    let mut j: usize = 0;
    while j < e.len()
        invariant
            w > 0,
            j <= e@.len(),
            n == e@.len() <= u32::MAX,
            out@.len() == n,
            cursors@.len() == 256,
            forall|d: int|
                0 <= d < 256 ==> (#[trigger] cursors@[d]) == count_lt(e@, w as int, d, n) + count_eq(
                    e@,
                    w as int,
                    d,
                    j as int,
                ),
            forall|i: int| 0 <= i < j ==> out@[rank(e@, w as int, i)] == #[trigger] e@[i],
        decreases e.len() - j,
    {
        let d: usize = ((e[j].0 / w) % 256) as usize;
        assert(d == digit(e@[j as int].0, w as int));
        let at: u32 = cursors[d];
        proof {
            assert(at == rank(e@, w as int, j as int));
            lemma_rank_order(e@, w as int, j as int, j as int);
            assert forall|i: int| 0 <= i < j implies rank(e@, w as int, i) != at && 0 <= rank(e@, w as int, i) < n by {
                lemma_rank_order(e@, w as int, i, j as int);
                lemma_rank_order(e@, w as int, j as int, i);
            }
            lemma_counts(e@, w as int, d as int, n);
            lemma_count_eq_grows(e@, w as int, d as int, j + 1, n);
        }
        out.set(at as usize, e[j]);
        cursors.set(d, at + 1);
        j += 1;
    }
    out
}

/// Sorts splats by camera-space depth, given by its bits, back to front: the result
/// lists the places of the depths, the farthest first.
pub fn radix_sort_by_depth(depths: &[u32]) -> (r: Vec<u32>)
    requires
        depths@.len() <= u32::MAX,
    ensures
        back_to_front(r@, keys_of(depths@)),
{
    let ghost keys = keys_of(depths@);
    let n: usize = depths.len();
    let mut entries: Vec<Entry> = Vec::new();
    let mut i: usize = 0;
    while i < n
        invariant
            n == depths@.len() <= u32::MAX,
            keys == keys_of(depths@),
            i <= n,
            entries@.len() == i,
            forall|j: int| 0 <= j < i ==> (#[trigger] entries@[j]) == (keys[j], j as u32),
        decreases n - i,
    {
        entries.push((float_to_radix_key(depths[i]), i as u32));
        i += 1;
    }
    assert(arranged(entries@, keys, 1));
    let e1 = pass(&entries, 1);
    proof {
        lemma_pass(entries@, e1@, keys, 1);
    }
    let e2 = pass(&e1, 0x100);
    proof {
        lemma_pass(e1@, e2@, keys, 0x100);
    }
    let e3 = pass(&e2, 0x1_0000);
    proof {
        lemma_pass(e2@, e3@, keys, 0x1_0000);
    }
    let e4 = pass(&e3, 0x100_0000);
    proof {
        lemma_pass(e3@, e4@, keys, 0x100_0000);
    }
    let mut out: Vec<u32> = Vec::new();
    let mut k: usize = n;
    while k > 0
        invariant
            k <= n,
            n == e4@.len() == keys.len(),
            out@.len() == n - k,
            forall|j: int| 0 <= j < out@.len() ==> (#[trigger] out@[j]) == e4@[n - 1 - j].1,
        decreases k,
    {
        k -= 1;
        out.push(e4[k].1);
    }
    proof {
        assert forall|i: int, j: int| 0 <= i < j < out@.len() implies {
            let (a, b) = (#[trigger] out@[i], #[trigger] out@[j]);
            keys[a as int] > keys[b as int] || (keys[a as int] == keys[b as int] && a > b)
        } by {
            assert(before(e4@[n - 1 - j], e4@[n - 1 - i], 0x1_0000_0000));
        }
    }
    out
}

} // verus!
