//! Fixed-width big-endian byte encodings of machine integers, the scalar
//! layer under row and record encoding.
use vstd::prelude::*;

verus! {

/// 256 to the power `k`.
pub open spec fn pow256(k: nat) -> int
    decreases k,
{
    if k == 0 {
        1
    } else {
        256 * pow256((k - 1) as nat)
    }
}

/// Big-endian base-256 digits of `n`, `len` bytes, most significant first.
pub open spec fn be_bytes(n: int, len: nat) -> Seq<u8>
    decreases len,
{
    if len == 0 {
        Seq::empty()
    } else {
        be_bytes(n / 256, (len - 1) as nat).push((n % 256) as u8)
    }
}

/// Value of a big-endian byte string.
pub open spec fn be_val(s: Seq<u8>) -> int
    decreases s.len(),
{
    if s.len() == 0 {
        0
    } else {
        be_val(s.drop_last()) * 256 + s.last()
    }
}

/// `pow256` grows and stays positive.
pub proof fn lemma_pow256_pos(k: nat)
    ensures
        pow256(k) >= 1,
    decreases k,
{
    if k > 0 {
        lemma_pow256_pos((k - 1) as nat);
    }
}

/// An encoded integer reads back as itself.
pub proof fn lemma_be_bytes_val(n: int, len: nat)
    requires
        0 <= n < pow256(len),
    ensures
        be_val(be_bytes(n, len)) == n,
        be_bytes(n, len).len() == len,
    decreases len,
{
    if len == 0 {
    } else {
        lemma_pow256_pos((len - 1) as nat);
        assert(n / 256 < pow256((len - 1) as nat)) by {
            assert(n < 256 * pow256((len - 1) as nat));
        }
        lemma_be_bytes_val(n / 256, (len - 1) as nat);
        assert(be_bytes(n, len).drop_last() =~= be_bytes(n / 256, (len - 1) as nat));
        assert(be_bytes(n, len).last() == (n % 256) as u8);
        assert(be_val(be_bytes(n, len)) == (n / 256) * 256 + n % 256);
    }
}

/// A byte string's value is in range for its width.
pub proof fn lemma_be_val_bound(s: Seq<u8>)
    ensures
        0 <= be_val(s) < pow256(s.len()),
    decreases s.len(),
{
    if s.len() == 0 {
    } else {
        lemma_be_val_bound(s.drop_last());
        assert(be_val(s) == be_val(s.drop_last()) * 256 + s.last());
        assert(be_val(s.drop_last()) * 256 <= (pow256((s.len() - 1) as nat) - 1) * 256)
            by (nonlinear_arith)
            requires
                be_val(s.drop_last()) <= pow256((s.len() - 1) as nat) - 1,
        ;
    }
}


/// Appends the `len`-byte big-endian form of `n`.
pub fn append_u64_be(out: &mut Vec<u8>, n: u64, len: usize)
    requires
        len <= 8,
        n < pow256(len as nat) || len == 8,
    ensures
        final(out)@ == old(out)@ + be_bytes(n as int, len as nat),
    decreases len,
{
    if len == 0 {
        assert(out@ =~= old(out)@ + be_bytes(n as int, 0));
    } else {
        proof {
            lemma_pow256_u64_bounds();
            lemma_pow256_monotone((len - 1) as nat, 7);
            if n < pow256(len as nat) {
                assert(n < 256 * pow256((len - 1) as nat));
            }
        }
        append_u64_be(out, n / 256, len - 1);
        out.push((n % 256) as u8);
        assert(out@ =~= old(out)@ + be_bytes(n as int, len as nat));
    }
}

/// Appends the `len`-byte big-endian form of a 128-bit integer.
pub fn append_u128_be(out: &mut Vec<u8>, n: u128, len: usize)
    requires
        len <= 16,
        n < pow256(len as nat) || len == 16,
    ensures
        final(out)@ == old(out)@ + be_bytes(n as int, len as nat),
    decreases len,
{
    if len == 0 {
        assert(out@ =~= old(out)@ + be_bytes(n as int, 0));
    } else {
        proof {
            lemma_pow256_u128_bounds();
            lemma_pow256_monotone((len - 1) as nat, 15);
            if n < pow256(len as nat) {
                assert(n < 256 * pow256((len - 1) as nat));
            }
        }
        append_u128_be(out, n / 256, len - 1);
        out.push((n % 256) as u8);
        assert(out@ =~= old(out)@ + be_bytes(n as int, len as nat));
    }
}

/// Reads a big-endian integer of at most 8 bytes from a slice range.
pub fn u64_from_be(b: &[u8], start: usize, len: usize)  -> (r: u64)
    requires
        len <= 8,
        start + len <= b@.len(),
    ensures
        r == be_val(b@.subrange(start as int, start as int + len as int)),
{
    let blen: usize = b.len();
    let mut acc: u64 = 0;
    let mut i: usize = 0;
    proof {
        assert(b@.subrange(start as int, start as int) =~= Seq::empty());
    }
    while i < len
        invariant
            i <= len <= 8,
            start + len <= blen == b@.len(),
            acc == be_val(b@.subrange(start as int, start as int + i as int)),
            0 <= acc < pow256(i as nat),
        decreases len - i,
    {
        proof {
            lemma_pow256_pos((8 - i - 1) as nat);
            lemma_pow256_u64_bounds();
            assert(pow256(i as nat) <= pow256(7)) by {
                lemma_pow256_monotone(i as nat, 7);
            }
            assert(b@.subrange(start as int, start as int + i + 1).drop_last() =~= b@.subrange(
                start as int,
                start as int + i as int,
            ));
        }
        acc = acc * 256 + (b[start + i] as u64);
        i = i + 1;
    }
    acc
}

/// Reads a big-endian integer of at most 16 bytes from a slice range.
pub fn u128_from_be(b: &[u8], start: usize, len: usize) -> (r: u128)
    requires
        len <= 16,
        start + len <= b@.len(),
    ensures
        r == be_val(b@.subrange(start as int, start as int + len as int)),
{
    let blen: usize = b.len();
    let mut acc: u128 = 0;
    let mut i: usize = 0;
    proof {
        assert(b@.subrange(start as int, start as int) =~= Seq::empty());
    }
    while i < len
        invariant
            i <= len <= 16,
            start + len <= blen == b@.len(),
            acc == be_val(b@.subrange(start as int, start as int + i as int)),
            0 <= acc < pow256(i as nat),
        decreases len - i,
    {
        proof {
            lemma_pow256_u128_bounds();
            assert(pow256(i as nat) <= pow256(15)) by {
                lemma_pow256_monotone(i as nat, 15);
            }
            assert(b@.subrange(start as int, start as int + i + 1).drop_last() =~= b@.subrange(
                start as int,
                start as int + i as int,
            ));
        }
        acc = acc * 256 + (b[start + i] as u128);
        i = i + 1;
    }
    acc
}

/// `pow256` is monotone in its exponent.
pub proof fn lemma_pow256_monotone(a: nat, b: nat)
    requires
        a <= b,
    ensures
        pow256(a) <= pow256(b),
    decreases b,
{
    if a < b {
        lemma_pow256_monotone(a, (b - 1) as nat);
        lemma_pow256_pos((b - 1) as nat);
    }
}

/// Concrete values of the powers that bound `u64` and `u32` widths.
pub proof fn lemma_pow256_u64_bounds()
    ensures
        pow256(4) == 0x1_0000_0000,
        pow256(8) == 0x1_0000_0000_0000_0000,
        pow256(7) == 0x100_0000_0000_0000,
{
    assert(pow256(0) == 1);
    assert(pow256(1) == 256);
    assert(pow256(2) == 0x1_0000);
    assert(pow256(3) == 0x100_0000);
    assert(pow256(4) == 0x1_0000_0000);
    assert(pow256(5) == 0x100_0000_0000);
    assert(pow256(6) == 0x1_0000_0000_0000);
    assert(pow256(7) == 0x100_0000_0000_0000);
    assert(pow256(8) == 0x1_0000_0000_0000_0000);
}

/// Concrete value of the power that bounds the 16-byte width.
pub proof fn lemma_pow256_u128_bounds()
    ensures
        pow256(16) == 0x1_0000_0000_0000_0000_0000_0000_0000_0000,
        pow256(15) == 0x100_0000_0000_0000_0000_0000_0000_0000,
{
    lemma_pow256_u64_bounds();
    assert(pow256(9) == 0x100 * pow256(8));
    assert(pow256(10) == 0x100 * pow256(9));
    assert(pow256(11) == 0x100 * pow256(10));
    assert(pow256(12) == 0x100 * pow256(11));
    assert(pow256(13) == 0x100 * pow256(12));
    assert(pow256(14) == 0x100 * pow256(13));
    assert(pow256(15) == 0x100 * pow256(14));
    assert(pow256(16) == 0x100 * pow256(15));
}

} // verus!
