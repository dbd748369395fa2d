//! Big-endian integer coding shared by the frame codec.
//!
//! Every multi-byte integer on the wire is big-endian.  The spec-level
//! form `enc_be`/`dec_be` is recursive over the byte count, which keeps
//! the round-trip proofs to simple inductions.

use vstd::prelude::*;

verus! {

/// 256 to the power `n`: the number of values an `n`-byte field can hold.
pub open spec fn pow256(n: nat) -> nat
    decreases n,
{
    if n == 0 {
        1
    } else {
        256 * pow256((n - 1) as nat)
    }
}

/// Big-endian encoding of `x` in exactly `n` bytes (high byte first).
pub open spec fn enc_be(x: nat, n: nat) -> Seq<u8>
    decreases n,
{
    if n == 0 {
        Seq::empty()
    } else {
        enc_be(x / 256, (n - 1) as nat) + seq![(x % 256) as u8]
    }
}

/// Big-endian value of the `n` bytes of `b` starting at index `i`.
pub open spec fn dec_be(b: Seq<u8>, i: int, n: nat) -> nat
    decreases n,
{
    if n == 0 {
        0
    } else {
        dec_be(b, i, (n - 1) as nat) * 256 + (if 0 <= i + n - 1 < b.len() {
            b[i + n - 1] as nat
        } else {
            0
        })
    }
}

pub proof fn lemma_pow256_unfold()
    ensures
        pow256(1) == 0x100,
        pow256(2) == 0x1_0000,
        pow256(7) == 0x100_0000_0000_0000,
        pow256(8) == 0x1_0000_0000_0000_0000,
{
    reveal_with_fuel(pow256, 9);
}

pub proof fn lemma_enc_be_len(x: nat, n: nat)
    ensures
        enc_be(x, n).len() == n,
    decreases n,
{
    if n > 0 {
        lemma_enc_be_len(x / 256, (n - 1) as nat);
    }
}

pub proof fn lemma_dec_be_bound(b: Seq<u8>, i: int, n: nat)
    ensures
        dec_be(b, i, n) < pow256(n),
    decreases n,
{
    if n > 0 {
        lemma_dec_be_bound(b, i, (n - 1) as nat);
    }
}

/// Decoding reads only the bytes it covers: two sequences that agree on
/// the window give the same value.
pub proof fn lemma_dec_be_frame(b1: Seq<u8>, b2: Seq<u8>, i1: int, i2: int, n: nat)
    requires
        0 <= i1,
        i1 + n <= b1.len(),
        0 <= i2,
        i2 + n <= b2.len(),
        forall|k: int| 0 <= k < n ==> b1[i1 + k] == #[trigger] b2[i2 + k],
    ensures
        dec_be(b1, i1, n) == dec_be(b2, i2, n),
    decreases n,
{
    if n > 0 {
        lemma_dec_be_frame(b1, b2, i1, i2, (n - 1) as nat);
        assert(b1[i1 + (n - 1)] == b2[i2 + (n - 1)]);
    }
}

/// The round trip: decoding an `n`-byte encoding of `x` (with anything
/// after it) gives back `x`.
pub proof fn lemma_enc_dec_be(x: nat, n: nat, t: Seq<u8>)
    requires
        x < pow256(n),
    ensures
        enc_be(x, n).len() == n,
        dec_be(enc_be(x, n) + t, 0, n) == x,
    decreases n,
{
    lemma_enc_be_len(x, n);
    if n > 0 {
        let hd = enc_be(x / 256, (n - 1) as nat);
        let last = seq![(x % 256) as u8];
        lemma_enc_be_len(x / 256, (n - 1) as nat);
        assert(enc_be(x, n) + t =~= hd + (last + t));
        lemma_enc_dec_be(x / 256, (n - 1) as nat, last + t);
        let b = enc_be(x, n) + t;
        assert(dec_be(b, 0, (n - 1) as nat) == x / 256) by {
            lemma_dec_be_frame(b, hd + (last + t), 0, 0, (n - 1) as nat);
        }
        assert(b[n - 1] == (x % 256) as u8);
        assert(x / 256 * 256 + x % 256 == x) by {
            vstd::arithmetic::div_mod::lemma_fundamental_div_mod(x as int, 256);
        }
    } else {
        assert(x == 0);
    }
}

/// Appends the `n`-byte big-endian encoding of `x` to `out`.
pub fn push_be(out: &mut Vec<u8>, x: u64, n: usize)
    requires
        n <= 8,
        x < pow256(n as nat),
    ensures
        final(out)@ == old(out)@ + enc_be(x as nat, n as nat),
    decreases n,
{
    if n == 0 {
        assert(out@ =~= out@ + enc_be(x as nat, 0));
    } else {
        proof {
            lemma_pow256_unfold();
        }
        push_be(out, x / 256, n - 1);
        out.push((x % 256) as u8);
        assert(out@ =~= old(out)@ + enc_be(x as nat, n as nat));
    }
}

/// Reads the big-endian value of the `n` bytes of `b` starting at `i`.
pub fn read_be(b: &[u8], i: usize, n: usize) -> (r: u64)
    requires
        n <= 8,
        i + n <= b@.len(),
    ensures
        r as nat == dec_be(b@, i as int, n as nat),
        r < pow256(n as nat),
    decreases n,
{
    proof {
        lemma_pow256_unfold();
        lemma_dec_be_bound(b@, i as int, n as nat);
    }
    if n == 0 {
        0
    } else {
        let len = b.len();
        let hi = read_be(b, i, n - 1);
        proof {
            lemma_dec_be_bound(b@, i as int, (n - 1) as nat);
            assert(pow256((n - 1) as nat) * 256 <= pow256(8)) by {
                lemma_pow256_monotone((n - 1) as nat, 7);
                vstd::arithmetic::mul::lemma_mul_inequality(
                    pow256((n - 1) as nat) as int,
                    pow256(7) as int,
                    256,
                );
            }
        }
        hi * 256 + (b[i + n - 1] as u64)
    }
}

pub proof fn lemma_pow256_monotone(m: nat, n: nat)
    requires
        m <= n,
    ensures
        pow256(m) <= pow256(n),
    decreases n,
{
    if m < n && n > 0 {
        lemma_pow256_monotone(m, (n - 1) as nat);
        assert(pow256((n - 1) as nat) <= 256 * pow256((n - 1) as nat)) by (nonlinear_arith)
            requires
                pow256((n - 1) as nat) >= 0,
        ;
    }
}

} // verus!
