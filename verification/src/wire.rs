//! Little-endian byte strings.

use vstd::prelude::*;

verus! {

/// The `k` low bytes of `v`, least significant first.
pub open spec fn le(v: nat, k: nat) -> Seq<u8>
    decreases k,
{
    if k == 0 {
        Seq::empty()
    } else {
        seq![(v % 256) as u8] + le(v / 256, (k - 1) as nat)
    }
}

/// The number that bytes stand for, least significant first.
pub open spec fn un_le(b: Seq<u8>) -> nat
    decreases b.len(),
{
    if b.len() == 0 {
        0
    } else {
        b[0] as nat + 256 * un_le(b.skip(1))
    }
}

/// How many numbers `k` bytes can tell apart.
pub open spec fn range(k: nat) -> nat
    decreases k,
{
    if k == 0 {
        1
    } else {
        256 * range((k - 1) as nat)
    }
}

/// Whether `part` stands in `b` at `p`.
pub open spec fn at(b: Seq<u8>, p: int, part: Seq<u8>) -> bool {
    0 <= p && p + part.len() <= b.len() && b.subrange(p, p + part.len()) == part
}

pub proof fn lemma_le_len(v: nat, k: nat)
    ensures
        le(v, k).len() == k,
    decreases k,
{
    if k > 0 {
        lemma_le_len(v / 256, (k - 1) as nat);
    }
}

/// Reading the bytes of a number that fits gives the number.
pub proof fn law_le_round_trip(v: nat, k: nat)
    requires
        v < range(k),
    ensures
        un_le(le(v, k)) == v,
    decreases k,
{
    lemma_le_len(v, k);
    if k > 0 {
        law_le_round_trip(v / 256, (k - 1) as nat);
        assert(le(v, k).skip(1) =~= le(v / 256, (k - 1) as nat));
    }
}

pub proof fn lemma_un_le_bound(b: Seq<u8>)
    ensures
        un_le(b) < range(b.len()),
    decreases b.len(),
{
    if b.len() > 0 {
        lemma_un_le_bound(b.skip(1));
    }
}

pub proof fn lemma_ranges()
    ensures
        range(1) == 0x100,
        range(2) == 0x1_0000,
        range(4) == 0x1_0000_0000,
        range(8) == 0x1_0000_0000_0000_0000,
{
    reveal_with_fuel(range, 9);
}

/// Of two parts in a row, each stands where it was put.
pub proof fn lemma_at_split(b: Seq<u8>, p: int, x: Seq<u8>, y: Seq<u8>)
    requires
        at(b, p, x + y),
    ensures
        at(b, p, x),
        at(b, p + x.len(), y),
{
    let w = x + y;
    assert(b.subrange(p, p + w.len()) == w);
    assert forall|i: int| 0 <= i < x.len() implies b[p + i] == x[i] by {
        assert(b.subrange(p, p + w.len())[i] == w[i]);
    }
    assert forall|i: int| 0 <= i < y.len() implies b[p + x.len() + i] == y[i] by {
        assert(b.subrange(p, p + w.len())[x.len() + i] == w[x.len() + i]);
    }
    assert(b.subrange(p, p + x.len()) =~= x);
    assert(b.subrange(p + x.len(), p + x.len() + y.len()) =~= y);
}

/// Appends the `k` low bytes of `v`.
pub(crate) fn push_le(out: &mut Vec<u8>, v: u64, k: usize)
    ensures
        final(out)@ == old(out)@ + le(v as nat, k as nat),
    decreases k,
{
    if k == 0 {
        assert(out@ =~= old(out)@ + le(v as nat, k as nat));
    } else {
        out.push((v % 256) as u8);
        push_le(out, v / 256, k - 1);
        assert(out@ =~= old(out)@ + le(v as nat, k as nat));
    }
}

/// The number in the `k` bytes at `p`.
pub(crate) fn read_le(b: &[u8], p: usize, k: usize) -> (r: u64)
    requires
        k <= 8,
        p + k <= b@.len(),
    ensures
        r == un_le(b@.subrange(p as int, p + k)),
        r < range(k as nat),
    decreases k,
{
    proof {
        lemma_un_le_bound(b@.subrange(p as int, p + k));
    }
    if k == 0 {
        0
    } else {
        let n: usize = b.len();
        assert(p + 1 <= n);
        let hi: u64 = read_le(b, p + 1, k - 1);
        proof {
            lemma_ranges();
            reveal_with_fuel(range, 9);
            assert(b@.subrange(p as int, p + k).skip(1) =~= b@.subrange(p + 1, p + k));
        }
        hi * 256 + b[p] as u64
    }
}

/// Appends all of `part`.
pub(crate) fn push_all(out: &mut Vec<u8>, part: &[u8])
    ensures
        final(out)@ == old(out)@ + part@,
{
    let mut i: usize = 0;
    assert(old(out)@ + part@.take(0) =~= old(out)@);
    while i < part.len()
        invariant
            i <= part@.len(),
            out@ == old(out)@ + part@.take(i as int),
        decreases part.len() - i,
    {
        out.push(part[i]);
        i += 1;
        assert(out@ =~= old(out)@ + part@.take(i as int));
    }
    assert(part@.take(i as int) =~= part@);
}

/// The bytes from `from` to `to`.
pub(crate) fn copy_range(b: &[u8], from: usize, to: usize) -> (r: Vec<u8>)
    requires
        from <= to <= b@.len(),
    ensures
        r@ == b@.subrange(from as int, to as int),
{
    let mut out: Vec<u8> = Vec::new();
    let mut i: usize = from;
    while i < to
        invariant
            from <= i <= to,
            to <= b@.len(),
            out@ == b@.subrange(from as int, i as int),
        decreases to - i,
    {
        out.push(b[i]);
        i += 1;
        assert(out@ =~= b@.subrange(from as int, i as int));
    }
    out
}

} // verus!
