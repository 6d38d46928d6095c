//! Little-endian machine words.
//!
//! Every multi-byte quantity in the wire format — fixed-width integers,
//! enum discriminants, and the (offset, length) words of references — is
//! stored as a little-endian byte string of a statically chosen width.

use vstd::prelude::*;

verus! {

/// `256^w`: the number of values representable in `w` bytes.
pub open spec fn pow256(w: nat) -> nat
    decreases w,
{
    if w == 0 {
        1
    } else {
        256 * pow256((w - 1) as nat)
    }
}

/// The reference words of the format may be 1, 2, 4 or 8 bytes wide.
pub open spec fn valid_width(w: nat) -> bool {
    w == 1 || w == 2 || w == 4 || w == 8
}

/// The `w` little-endian bytes of `n` (low byte first); `n` is taken modulo `256^w`.
pub open spec fn le_bytes(n: nat, w: nat) -> Seq<u8>
    decreases w,
{
    if w == 0 {
        Seq::empty()
    } else {
        seq![(n % 256) as u8] + le_bytes(n / 256, (w - 1) as nat)
    }
}

/// The value of a little-endian byte string.
pub open spec fn le_value(s: Seq<u8>) -> nat
    decreases s.len(),
{
    if s.len() == 0 {
        0
    } else {
        s[0] as nat + 256 * le_value(s.drop_first())
    }
}

pub proof fn lemma_le_bytes_len(n: nat, w: nat)
    ensures
        le_bytes(n, w).len() == w,
    decreases w,
{
    if w > 0 {
        lemma_le_bytes_len(n / 256, (w - 1) as nat);
    }
}

/// Writing then reading a word is the identity on values below `256^w`.
pub proof fn lemma_le_roundtrip(n: nat, w: nat)
    requires
        n < pow256(w),
    ensures
        le_value(le_bytes(n, w)) == n,
    decreases w,
{
    if w > 0 {
        lemma_le_bytes_len(n / 256, (w - 1) as nat);
        assert(le_bytes(n, w).drop_first() =~= le_bytes(n / 256, (w - 1) as nat));
        assert(n / 256 < pow256((w - 1) as nat)) by {
            assert(n < 256 * pow256((w - 1) as nat));
        };
        lemma_le_roundtrip(n / 256, (w - 1) as nat);
    }
}

/// `pow256` grows with the width.
pub proof fn lemma_pow256_monotone(a: nat, b: nat)
    requires
        a <= b,
    ensures
        pow256(a) <= pow256(b),
    decreases b,
{
    if a < b && b > 0 {
        lemma_pow256_monotone(a, (b - 1) as nat);
    }
}

/// The runtime check for `valid_width`.
pub fn width_ok(w: usize) -> (r: bool)
    ensures
        r == valid_width(w as nat),
{
    w == 1 || w == 2 || w == 4 || w == 8
}

/// The word sizes that occur in the format, evaluated.
pub proof fn lemma_pow256_values()
    ensures
        pow256(1) == 0x100,
        pow256(2) == 0x1_0000,
        pow256(4) == 0x1_0000_0000,
        pow256(8) == 0x1_0000_0000_0000_0000,
{
    reveal_with_fuel(pow256, 9);
}

/// Appends the `w` little-endian bytes of `n` to `out`.
pub fn write_word(out: &mut Vec<u8>, n: u64, w: usize)
    requires
        w <= 8,
    ensures
        final(out)@ == old(out)@ + le_bytes(n as nat, w as nat),
{
    let mut cur: u64 = n;
    let mut i: usize = 0;
    while i < w
        invariant
            i <= w,
            w <= 8,
            out@ + le_bytes(cur as nat, (w - i) as nat) == old(out)@ + le_bytes(
                n as nat,
                w as nat,
            ),
        decreases w - i,
    {
        proof {
            assert(le_bytes(cur as nat, (w - i) as nat) == seq![(cur as nat % 256) as u8]
                + le_bytes(cur as nat / 256, (w - i - 1) as nat));
        }
        out.push((cur % 256) as u8);
        proof {
            assert(out@ + le_bytes((cur / 256) as nat, (w - i - 1) as nat) == old(out)@
                + le_bytes(n as nat, w as nat));
        }
        cur = cur / 256;
        i = i + 1;
    }
    proof {
        assert(out@ + le_bytes(cur as nat, 0) =~= out@);
    }
}

/// Reads the `w`-byte little-endian word stored at `data[pos..pos + w]`.
pub fn read_word(data: &[u8], pos: usize, w: usize) -> (r: u64)
    requires
        w <= 8,
        pos + w <= data@.len(),
    ensures
        r as nat == le_value(data@.subrange(pos as int, pos + w)),
        (r as nat) < pow256(w as nat),
{
    proof {
        assert(pow256(8) == 0x1_0000_0000_0000_0000) by {
            reveal_with_fuel(pow256, 9);
        };
        lemma_pow256_monotone(w as nat, 8);
    }
    let dlen: usize = data.len();
    let mut r: u64 = 0;
    let mut i: usize = w;
    while i > 0
        invariant
            i <= w,
            w <= 8,
            pos + w <= dlen,
            dlen == data@.len(),
            r as nat == le_value(data@.subrange(pos + i, pos + w)),
            (r as nat) < pow256((w - i) as nat),
            pow256(w as nat) <= pow256(8),
            pow256(8) == 0x1_0000_0000_0000_0000,
        decreases i,
    {
        proof {
            lemma_pow256_monotone((w - i) as nat, 7);
            assert(pow256(7) == 0x100_0000_0000_0000) by {
                reveal_with_fuel(pow256, 8);
            };
            assert(data@.subrange(pos + i - 1, pos + w).drop_first() =~= data@.subrange(
                pos + i,
                pos + w,
            ));
        }
        i = i - 1;
        r = r * 256 + (data[pos + i] as u64);
    }
    proof {
        assert(data@.subrange(pos as int, pos + w) =~= data@.subrange(pos + 0, pos + w));
    }
    r
}

} // verus!
