//! Big-endian fixed-width integers, the building block of every length
//! prefix and every numeric primitive on the wire.
use vstd::prelude::*;

verus! {

/// `256` raised to the power `w`.
pub open spec fn pow256(w: nat) -> nat
    decreases w,
{
    if w == 0 {
        1
    } else {
        256 * pow256((w - 1) as nat)
    }
}

/// The `w` low-order bytes of `n`, most significant first.
pub open spec fn be_bytes(n: nat, w: nat) -> Seq<u8>
    decreases w,
{
    if w == 0 {
        Seq::empty()
    } else {
        be_bytes(n / 256, (w - 1) as nat).push((n % 256) as u8)
    }
}

/// The number that a big-endian byte string denotes.
pub open spec fn be_value(s: Seq<u8>) -> nat
    decreases s.len(),
{
    if s.len() == 0 {
        0
    } else {
        (be_value(s.drop_last()) * 256 + s.last()) as nat
    }
}

pub proof fn lemma_pow256_positive(w: nat)
    ensures
        pow256(w) > 0,
    decreases w,
{
    if w > 0 {
        lemma_pow256_positive((w - 1) as nat);
    }
}

pub proof fn lemma_be_bytes_len(n: nat, w: nat)
    ensures
        be_bytes(n, w).len() == w,
    decreases w,
{
    if w > 0 {
        lemma_be_bytes_len(n / 256, (w - 1) as nat);
    }
}

/// A big-endian string of `w` bytes denotes a number below `256^w`.
pub proof fn lemma_be_value_bound(s: Seq<u8>)
    ensures
        be_value(s) < pow256(s.len()),
    decreases s.len(),
{
    if s.len() > 0 {
        lemma_be_value_bound(s.drop_last());
        let p = pow256((s.len() - 1) as nat);
        let v = be_value(s.drop_last());
        assert(v * 256 + s.last() < p * 256) by (nonlinear_arith)
            requires
                v < p,
                s.last() < 256,
        ;
    }
}

/// Reading back the bytes of `n` gives `n` when `n` fits in `w` bytes.
pub proof fn lemma_be_round_trip(n: nat, w: nat)
    requires
        n < pow256(w),
    ensures
        be_value(be_bytes(n, w)) == n,
    decreases w,
{
    if w > 0 {
        let p = pow256((w - 1) as nat);
        assert(n / 256 < p) by (nonlinear_arith)
            requires
                n < 256 * p,
        ;
        lemma_be_round_trip(n / 256, (w - 1) as nat);
        let b = be_bytes(n, w);
        assert(b.drop_last() =~= be_bytes(n / 256, (w - 1) as nat));
        assert((n / 256) * 256 + n % 256 == n) by (nonlinear_arith);
    }
}

/// Appends the `w` low-order bytes of `n` to `out`, most significant first.
pub fn push_be(out: &mut Vec<u8>, n: u128, w: usize)
    requires
        w <= 16,
    ensures
        final(out)@ == old(out)@ + be_bytes(n as nat, w as nat),
    decreases w,
{
    if w > 0 {
        push_be(out, n / 256, w - 1);
        out.push((n % 256) as u8);
        assert(((n / 256) as u128) as nat == (n as nat) / 256);
    }
}

/// The number held by `data[pos .. pos + w]`, read big-endian.
pub fn read_be(data: &Vec<u8>, pos: usize, w: usize) -> (r: u128)
    requires
        w <= 16,
        pos + w <= data@.len(),
    ensures
        r as nat == be_value(data@.subrange(pos as int, pos + w)),
    decreases w,
{
    if w == 0 {
        0
    } else {
        let hi = read_be(data, pos, w - 1);
        let ghost s = data@.subrange(pos as int, pos + w);
        proof {
            assert(s.drop_last() =~= data@.subrange(pos as int, pos + w - 1));
            lemma_be_value_bound(s.drop_last());
            lemma_pow256_15();
            lemma_pow256_mono((w - 1) as nat, 15);
        }
        let len = data.len();
        let b = data[pos + (w - 1)];
        hi * 256 + b as u128
    }
}

proof fn lemma_pow256_15()
    ensures
        pow256(15) == 0x1000000000000000000000000000000int,
{
    reveal_with_fuel(pow256, 16);
}

pub proof fn lemma_pow256_mono(a: nat, b: nat)
    requires
        a <= b,
    ensures
        pow256(a) <= pow256(b),
    decreases b,
{
    if a < b {
        lemma_pow256_mono(a, (b - 1) as nat);
        lemma_pow256_positive((b - 1) as nat);
    }
}

} // verus!
