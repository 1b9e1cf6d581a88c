//! Little-endian byte encodings shared by the index type, the tree store and
//! the blob layer: the numeric value of a byte string, and conversions between
//! `u64` scalars and their 8-byte wire form.
use vstd::arithmetic::power2::*;
use vstd::prelude::*;

verus! {

/// Value of a byte string read as a little-endian unsigned integer.
pub open spec fn le_val(s: Seq<u8>) -> nat
    decreases s.len(),
{
    if s.len() == 0 {
        0
    } else {
        (s[0] + 256 * le_val(s.skip(1))) as nat
    }
}

/// The 8-byte little-endian form of a `u64`.
pub open spec fn u64_le_seq(x: u64) -> Seq<u8> {
    seq![
        (x & 0xff) as u8,
        ((x >> 8) & 0xff) as u8,
        ((x >> 16) & 0xff) as u8,
        ((x >> 24) & 0xff) as u8,
        ((x >> 32) & 0xff) as u8,
        ((x >> 40) & 0xff) as u8,
        ((x >> 48) & 0xff) as u8,
        ((x >> 56) & 0xff) as u8,
    ]
}

/// A little-endian byte string of length `n` is worth less than `2^(8n)`.
pub proof fn lemma_le_val_bound(s: Seq<u8>)
    ensures
        le_val(s) < pow2(8 * s.len()),
    decreases s.len(),
{
    if s.len() == 0 {
        lemma2_to64();
    } else {
        lemma_le_val_bound(s.skip(1));
        lemma2_to64();
        lemma_pow2_adds(8, 8 * (s.len() - 1) as nat);
        assert(le_val(s) <= 255 + 256 * le_val(s.skip(1)));
        assert(256 * le_val(s.skip(1)) <= 256 * (pow2(8 * (s.len() - 1) as nat) - 1))
            by (nonlinear_arith)
            requires
                le_val(s.skip(1)) <= pow2(8 * (s.len() - 1) as nat) - 1,
        ;
    }
}

/// Concatenation splits the little-endian value at the byte boundary.
pub proof fn lemma_le_val_append(a: Seq<u8>, b: Seq<u8>)
    ensures
        le_val(a + b) == le_val(a) + pow2(8 * a.len()) * le_val(b),
    decreases a.len(),
{
    if a.len() == 0 {
        assert(a + b =~= b);
        lemma2_to64();
    } else {
        assert((a + b).skip(1) =~= a.skip(1) + b);
        lemma_le_val_append(a.skip(1), b);
        lemma2_to64();
        lemma_pow2_adds(8, 8 * (a.len() - 1) as nat);
        let p = pow2(8 * (a.len() - 1) as nat);
        assert(256 * (le_val(a.skip(1)) + p * le_val(b)) == 256 * le_val(a.skip(1)) + (256 * p)
            * le_val(b)) by (nonlinear_arith);
    }
}

/// The 8-byte form of a `u64` reads back as that `u64`.
pub proof fn lemma_u64_le_seq_val(x: u64)
    ensures
        u64_le_seq(x).len() == 8,
        le_val(u64_le_seq(x)) == x,
{
    let s = u64_le_seq(x);
    assert((x & 0xff) < 256 && ((x >> 8) & 0xff) < 256 && ((x >> 16) & 0xff) < 256 && ((x >> 24)
        & 0xff) < 256 && ((x >> 32) & 0xff) < 256 && ((x >> 40) & 0xff) < 256 && ((x >> 48) & 0xff)
        < 256 && ((x >> 56) & 0xff) < 256) by (bit_vector);
    assert(x == (x & 0xff) + 0x100 * ((x >> 8) & 0xff) + 0x10000 * ((x >> 16) & 0xff) + 0x1000000
        * ((x >> 24) & 0xff) + 0x100000000 * ((x >> 32) & 0xff) + 0x10000000000 * ((x >> 40) & 0xff)
        + 0x1000000000000 * ((x >> 48) & 0xff) + 0x100000000000000 * ((x >> 56) & 0xff))
        by (bit_vector);
    lemma_le_val_unfold8(s);
}

/// Unfolds `le_val` on an 8-byte string into an explicit digit sum.
pub proof fn lemma_le_val_unfold8(s: Seq<u8>)
    requires
        s.len() == 8,
    ensures
        le_val(s) == s[0] + 0x100 * s[1] + 0x10000 * s[2] + 0x1000000 * s[3] + 0x100000000 * s[4]
            + 0x10000000000 * s[5] + 0x1000000000000 * s[6] + 0x100000000000000 * s[7],
{
    assert(s.skip(1).skip(1) =~= s.subrange(2, 8));
    assert(s.subrange(2, 8).skip(1) =~= s.subrange(3, 8));
    assert(s.subrange(3, 8).skip(1) =~= s.subrange(4, 8));
    assert(s.subrange(4, 8).skip(1) =~= s.subrange(5, 8));
    assert(s.subrange(5, 8).skip(1) =~= s.subrange(6, 8));
    assert(s.subrange(6, 8).skip(1) =~= s.subrange(7, 8));
    assert(s.subrange(7, 8).skip(1) =~= Seq::<u8>::empty());
    assert(le_val(Seq::<u8>::empty()) == 0);
    assert(le_val(s.subrange(7, 8)) == s[7]);
    assert(le_val(s.subrange(6, 8)) == s[6] + 0x100 * s[7]);
    assert(le_val(s.subrange(5, 8)) == s[5] + 0x100 * le_val(s.subrange(6, 8)));
    assert(le_val(s.subrange(4, 8)) == s[4] + 0x100 * le_val(s.subrange(5, 8)));
    assert(le_val(s.subrange(3, 8)) == s[3] + 0x100 * le_val(s.subrange(4, 8)));
    assert(le_val(s.subrange(2, 8)) == s[2] + 0x100 * le_val(s.subrange(3, 8)));
    assert(le_val(s.skip(1)) == s[1] + 0x100 * le_val(s.subrange(2, 8)));
    assert(le_val(s) == s[0] + 0x100 * le_val(s.skip(1)));
}

/// Reads the 8 bytes at `off` as a little-endian `u64`.
pub fn u64_from_le_slice(b: &[u8], off: usize) -> (r: u64)
    requires
        off + 8 <= b@.len(),
    ensures
        r == le_val(b@.subrange(off as int, off + 8)),
{
    let r = (b[off] as u64) | ((b[off + 1] as u64) << 8u64) | ((b[off + 2] as u64) << 16u64) | ((
    b[off + 3] as u64) << 24u64) | ((b[off + 4] as u64) << 32u64) | ((b[off + 5] as u64) << 40u64)
        | ((b[off + 6] as u64) << 48u64) | ((b[off + 7] as u64) << 56u64);
    proof {
        let s = b@.subrange(off as int, off + 8);
        let x0 = b@[off as int] as u64;
        let x1 = b@[off + 1] as u64;
        let x2 = b@[off + 2] as u64;
        let x3 = b@[off + 3] as u64;
        let x4 = b@[off + 4] as u64;
        let x5 = b@[off + 5] as u64;
        let x6 = b@[off + 6] as u64;
        let x7 = b@[off + 7] as u64;
        assert(x0 | (x1 << 8u64) | (x2 << 16u64) | (x3 << 24u64) | (x4 << 32u64) | (x5 << 40u64) | (
        x6 << 48u64) | (x7 << 56u64) == x0 + 0x100 * x1 + 0x10000 * x2 + 0x1000000 * x3
            + 0x100000000 * x4 + 0x10000000000 * x5 + 0x1000000000000 * x6 + 0x100000000000000 * x7)
            by (bit_vector)
            requires
                x0 < 256 && x1 < 256 && x2 < 256 && x3 < 256 && x4 < 256 && x5 < 256 && x6 < 256
                    && x7 < 256,
        ;
        lemma_le_val_unfold8(s);
    }
    r
}

/// Appends the 8-byte little-endian form of `x`.
pub fn push_u64_le(out: &mut Vec<u8>, x: u64)
    ensures
        final(out)@ == old(out)@ + u64_le_seq(x),
{
    out.push((x & 0xff) as u8);
    out.push(((x >> 8u64) & 0xff) as u8);
    out.push(((x >> 16u64) & 0xff) as u8);
    out.push(((x >> 24u64) & 0xff) as u8);
    out.push(((x >> 32u64) & 0xff) as u8);
    out.push(((x >> 40u64) & 0xff) as u8);
    out.push(((x >> 48u64) & 0xff) as u8);
    out.push(((x >> 56u64) & 0xff) as u8);
    proof {
        assert(final(out)@ =~= old(out)@ + u64_le_seq(x));
    }
}

/// Copies the 32 bytes at `off` into a fresh chunk.
pub fn read_chunk32(b: &[u8], off: usize) -> (r: [u8; 32])
    requires
        off + 32 <= b@.len(),
    ensures
        r@ == b@.subrange(off as int, off + 32),
{
    let r: [u8; 32] = [
        b[off],
        b[off + 1],
        b[off + 2],
        b[off + 3],
        b[off + 4],
        b[off + 5],
        b[off + 6],
        b[off + 7],
        b[off + 8],
        b[off + 9],
        b[off + 10],
        b[off + 11],
        b[off + 12],
        b[off + 13],
        b[off + 14],
        b[off + 15],
        b[off + 16],
        b[off + 17],
        b[off + 18],
        b[off + 19],
        b[off + 20],
        b[off + 21],
        b[off + 22],
        b[off + 23],
        b[off + 24],
        b[off + 25],
        b[off + 26],
        b[off + 27],
        b[off + 28],
        b[off + 29],
        b[off + 30],
        b[off + 31],
    ];
    proof {
        assert(r@ =~= b@.subrange(off as int, off + 32));
    }
    r
}

/// The 32-byte leaf form of a scalar field: 8 value bytes, then 24 zero bytes.
pub open spec fn field_chunk_spec(v: u64) -> Seq<u8> {
    u64_le_seq(v) + Seq::new(24, |_i: int| 0u8)
}

/// Encodes a scalar account field into its 32-byte leaf form.
pub fn field_chunk(v: u64) -> (r: [u8; 32])
    ensures
        r@ == field_chunk_spec(v),
{
    let r: [u8; 32] = [
        (v & 0xff) as u8,
        ((v >> 8u64) & 0xff) as u8,
        ((v >> 16u64) & 0xff) as u8,
        ((v >> 24u64) & 0xff) as u8,
        ((v >> 32u64) & 0xff) as u8,
        ((v >> 40u64) & 0xff) as u8,
        ((v >> 48u64) & 0xff) as u8,
        ((v >> 56u64) & 0xff) as u8,
        0,
        0,
        0,
        0,
        0,
        0,
        0,
        0,
        0,
        0,
        0,
        0,
        0,
        0,
        0,
        0,
        0,
        0,
        0,
        0,
        0,
        0,
        0,
        0,
    ];
    proof {
        assert(r@ =~= field_chunk_spec(v));
    }
    r
}

/// The scalar stored in a 32-byte leaf: the value of its low 8 bytes.
pub open spec fn chunk_low8(s: Seq<u8>) -> nat {
    le_val(s.take(8))
}

/// Reads the low 8 bytes of a leaf chunk as a little-endian `u64`.
pub fn chunk_value(c: &[u8; 32]) -> (r: u64)
    ensures
        r == chunk_low8(c@),
{
    let r = u64_from_le_slice(c.as_slice(), 0);
    proof {
        assert(c@.subrange(0, 8) =~= c@.take(8));
    }
    r
}

/// A leaf in field form stores exactly the encoded scalar.
pub proof fn lemma_field_chunk_value(v: u64)
    ensures
        field_chunk_spec(v).len() == 32,
        chunk_low8(field_chunk_spec(v)) == v,
        forall|j: int| 8 <= j < 32 ==> field_chunk_spec(v)[j] == 0,
{
    lemma_u64_le_seq_val(v);
    assert(field_chunk_spec(v).take(8) =~= u64_le_seq(v));
}

} // verus!
