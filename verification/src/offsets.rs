//! Witness-offset compression: an ordered list of absolute generalized
//! indices is replaced by one 64-bit offset per index, and recovered exactly
//! from the count and the offsets alone.
//!
//! The canonical enumeration is the depth-first, left-to-right walk of the
//! partial tree whose frontier the proof reveals: a node of depth `d`
//! (root = depth 0) covers an aligned span of `2^(263 - d)` unit slots out of
//! the `2^263` slots under the root, and a legitimate index list is one whose
//! spans are aligned, adjacent in walk order, and tile the root span exactly.
//! The offset stored for an index is its depth, which pins the index given
//! the position the walk has reached; decompression replays the walk.
use crate::u264::{lemma_pow2_constants, lemma_view_bound, p264, U264};
use vstd::arithmetic::div_mod::{
    lemma_basic_div, lemma_div_basics, lemma_div_by_self, lemma_div_denominator,
    lemma_div_is_ordered, lemma_div_multiples_vanish, lemma_fundamental_div_mod,
    lemma_mod_multiples_basic, lemma_multiply_divide_lt, lemma_small_mod,
};
use vstd::arithmetic::mul::{lemma_mul_basics, lemma_mul_is_commutative};
use vstd::arithmetic::power2::{lemma2_to64, lemma_pow2_adds, lemma_pow2_pos, lemma_pow2_strictly_increases, lemma_pow2_unfold, pow2};
use vstd::prelude::*;

verus! {

/// Depth of a generalized index: the root (1) has depth 0, its children
/// depth 1, and so on; equivalently, one less than the bit length.
pub open spec fn depth(v: nat) -> nat
    decreases v,
{
    if v < 2 {
        0
    } else {
        1 + depth(v / 2)
    }
}

/// Powers of two never shrink as the exponent grows.
pub proof fn lemma_pow2_le(e1: nat, e2: nat)
    requires
        e1 <= e2,
    ensures
        pow2(e1) <= pow2(e2),
{
    if e1 < e2 {
        lemma_pow2_strictly_increases(e1, e2);
    }
}

/// A positive index of depth `d` lies in `[2^d, 2^(d+1))`.
pub proof fn lemma_depth_bounds(v: nat)
    requires
        1 <= v,
    ensures
        pow2(depth(v)) <= v < pow2(depth(v) + 1),
    decreases v,
{
    if v < 2 {
        lemma2_to64();
    } else {
        lemma_depth_bounds(v / 2);
        lemma_pow2_unfold(depth(v));
        lemma_pow2_unfold(depth(v) + 1);
    }
}

/// The depth is the only exponent whose span contains the index.
pub proof fn lemma_depth_unique(v: nat, d: nat)
    requires
        1 <= v,
        pow2(d) <= v < pow2(d + 1),
    ensures
        depth(v) == d,
{
    lemma_depth_bounds(v);
    if depth(v) < d {
        lemma_pow2_le(depth(v) + 1, d);
    }
    if depth(v) > d {
        lemma_pow2_le(d + 1, depth(v));
    }
}

/// The number of unit slots a node of depth `d` covers out of the root's
/// `2^263`.
pub open spec fn width(d: nat) -> nat
    recommends
        d <= 263,
{
    pow2((263 - d) as nat)
}

/// The numeric values of a list of wide indices.
pub open spec fn index_vals(s: Seq<U264>) -> Seq<nat> {
    s.map_values(|x: U264| x@)
}

/// The numeric values of a list of offsets.
pub open spec fn offset_vals(s: Seq<u64>) -> Seq<nat> {
    s.map_values(|x: u64| x as nat)
}

/// Slot position where the walk stands after the first `i` indices.
pub open spec fn pos_of(ixs: Seq<nat>, i: int) -> nat
    decreases i,
{
    if i <= 0 {
        0
    } else {
        pos_of(ixs, i - 1) + width(depth(ixs[i - 1]))
    }
}

/// The walk position never moves backwards.
pub proof fn lemma_pos_monotone(ixs: Seq<nat>, i: int, j: int)
    requires
        0 <= i <= j,
    ensures
        pos_of(ixs, i) <= pos_of(ixs, j),
    decreases j - i,
{
    if i < j {
        lemma_pos_monotone(ixs, i, j - 1);
    }
}

/// A legitimate proof index list: every index positive, every span aligned
/// at the position the walk has reached, and the spans tile the root span
/// exactly.
pub open spec fn valid_indices(ixs: Seq<nat>) -> bool {
    &&& forall|i: int| 0 <= i < ixs.len() ==> 1 <= #[trigger] ixs[i] && depth(ixs[i]) <= 263
    &&& forall|i: int|
        0 <= i < ixs.len() ==> pos_of(ixs, i) == (#[trigger] ixs[i] - pow2(depth(ixs[i]))) * width(
            depth(ixs[i]),
        )
    &&& pos_of(ixs, ixs.len() as int) == pow2(263)
}

/// A legitimate proof index list never repeats an index: each span starts
/// where the walk stands, and the walk strictly advances.
pub proof fn lemma_valid_indices_distinct(ixs: Seq<nat>)
    requires
        valid_indices(ixs),
    ensures
        forall|i: int, j: int| 0 <= i < j < ixs.len() ==> ixs[i] != ixs[j],
{
    assert forall|i: int, j: int| 0 <= i < j < ixs.len() implies ixs[i] != ixs[j] by {
        if ixs[i] == ixs[j] {
            assert(1 <= ixs[i] && depth(ixs[i]) <= 263);
            assert(pos_of(ixs, i) == (ixs[i] - pow2(depth(ixs[i]))) * width(depth(ixs[i])));
            assert(pos_of(ixs, j) == (ixs[j] - pow2(depth(ixs[j]))) * width(depth(ixs[j])));
            assert(pos_of(ixs, i + 1) == pos_of(ixs, i) + width(depth(ixs[i])));
            lemma_pow2_pos((263 - depth(ixs[i])) as nat);
            lemma_pos_monotone(ixs, i + 1, j);
        }
    }
}

/// Replays the walk over a list of depth offsets: starting at position `p`,
/// each offset `d` recovers the index `p / width(d) + 2^d` and advances the
/// walk by the node's span; the walk must stay aligned and end exactly at
/// the root span's end.
pub open spec fn decode_rec(offs: Seq<nat>, p: nat) -> Option<Seq<nat>>
    decreases offs.len(),
{
    if offs.len() == 0 {
        if p == pow2(263) {
            Some(Seq::<nat>::empty())
        } else {
            None
        }
    } else {
        let d = offs[0];
        if d <= 263 && p % width(d) == 0 && p + width(d) <= pow2(263) {
            match decode_rec(offs.skip(1), (p + width(d)) as nat) {
                Some(rest) => Some(seq![(p / width(d) + pow2(d)) as nat] + rest),
                None => None,
            }
        } else {
            None
        }
    }
}

/// The index list recovered from a list of depth offsets, if any.
pub open spec fn decode_offsets(offs: Seq<nat>) -> Option<Seq<nat>> {
    decode_rec(offs, 0)
}

/// Bit length of a wide index: 0 for zero, else the unique `n` with
/// `2^(n-1) <= x < 2^n`.
fn bit_len(x: &U264) -> (r: usize)
    ensures
        r == 0 <==> x@ == 0,
        x@ >= 1 ==> 1 <= r <= 264 && r - 1 == depth(x@),
{
    let mut cur: U264 = *x;
    let mut n: usize = 0;
    proof {
        lemma2_to64();
        lemma_div_basics(x@ as int);
    }
    while !(cur == U264::zero())
        invariant
            n <= 264,
            cur@ == x@ / pow2(n as nat),
            n > 0 ==> x@ >= pow2((n - 1) as nat),
        decreases cur@,
    {
        proof {
            lemma_pow2_pos(n as nat);
            // a nonzero quotient means the divisor fits into the dividend
            if x@ < pow2(n as nat) {
                lemma_basic_div(x@ as int, pow2(n as nat) as int);
            }
            assert(x@ >= pow2(n as nat));
            if n >= 264 {
                lemma_pow2_le(264, n as nat);
                lemma_pow2_constants();
                lemma_view_bound(*x);
            }
            lemma_div_denominator(x@ as int, pow2(n as nat) as int, 2);
            lemma_pow2_adds(n as nat, 1);
            lemma2_to64();
        }
        cur = cur.shr(1);
        n = n + 1;
    }
    proof {
        if n > 0 {
            lemma_pow2_pos((n - 1) as nat);
        }
        if x@ >= 1 {
            assert(n >= 1);
            lemma_pow2_pos(n as nat);
            if x@ >= pow2(n as nat) {
                lemma_div_is_ordered(pow2(n as nat) as int, x@ as int, pow2(n as nat) as int);
                lemma_div_by_self(pow2(n as nat) as int);
            }
            assert(x@ < pow2(n as nat));
            lemma_depth_unique(x@, (n - 1) as nat);
        }
    }
    n
}

/// Compresses an ordered index list into one depth offset per index.
/// Succeeds exactly on legitimate proof index lists; the recovered list is
/// then the input itself (see `lemma_compress_round_trip`).
pub fn compress(indices: &Vec<U264>) -> (r: Option<Vec<u64>>)
    ensures
        r is Some <==> valid_indices(index_vals(indices@)),
        r is Some ==> r->0@.len() == indices@.len() && offset_vals(r->0@) == index_vals(
            indices@,
        ).map_values(|v: nat| depth(v)),
{
    let ghost ixs = index_vals(indices@);
    let limit = U264::one().shl(263);
    proof {
        lemma_pow2_constants();
        lemma_pow2_strictly_increases(263, 264);
        lemma_small_mod(pow2(263), p264());
        lemma_mul_basics(pow2(263) as int);
    }
    let mut offs: Vec<u64> = Vec::new();
    let mut p = U264::zero();
    let n = indices.len();
    let mut i: usize = 0;
    while i < n
        invariant
            n == indices@.len(),
            i <= n,
            ixs == index_vals(indices@),
            limit@ == pow2(263),
            offs@.len() == i,
            p@ == pos_of(ixs, i as int),
            p@ <= pow2(263),
            forall|j: int| 0 <= j < i ==> 1 <= #[trigger] ixs[j] && depth(ixs[j]) <= 263,
            forall|j: int|
                0 <= j < i ==> pos_of(ixs, j) == (#[trigger] ixs[j] - pow2(depth(ixs[j]))) * width(
                    depth(ixs[j]),
                ),
            forall|j: int| 0 <= j < i ==> offs@[j] == depth(ixs[j]),
        decreases n - i,
    {
        proof {
            lemma_pow2_constants();
            lemma_pow2_strictly_increases(263, 264);
        }
        let ghost v = ixs[i as int];
        let len = bit_len(&indices[i]);
        if len == 0 {
            proof {
                if valid_indices(ixs) {
                    assert(1 <= ixs[i as int]);
                }
            }
            return None;
        }
        let d = len - 1;
        proof {
            lemma_depth_bounds(v);
            if depth(v) >= 264 {
                lemma_pow2_le(264, depth(v));
                lemma_pow2_constants();
                lemma_view_bound(indices@[i as int]);
            }
            assert(d == depth(v) && d <= 263);
        }
        let pd = U264::one().shl(d);
        let w = U264::one().shl(263 - d);
        proof {
            lemma_pow2_le(d as nat, 263);
            lemma_pow2_le((263 - d) as nat, 263);
            lemma_small_mod(pow2(d as nat), p264());
            lemma_small_mod(pow2((263 - d) as nat), p264());
            lemma_mul_basics(pow2(d as nat) as int);
            lemma_mul_basics(pow2((263 - d) as nat) as int);
            assert(pd@ == pow2(d as nat));
            assert(w@ == width(depth(v)));
        }
        let start = indices[i].sub(pd).shl(263 - d);
        proof {
            lemma_pow2_adds(d as nat, (263 - d) as nat);
            lemma_pow2_pos((263 - d) as nat);
            lemma_pow2_unfold((d + 1) as nat);
            assert((v - pow2(d as nat)) * pow2((263 - d) as nat) < pow2(d as nat) * pow2(
                (263 - d) as nat,
            )) by (nonlinear_arith)
                requires
                    v - pow2(d as nat) < pow2(d as nat),
                    pow2((263 - d) as nat) > 0,
            ;
            lemma_small_mod(((v - pow2(d as nat)) * pow2((263 - d) as nat)) as nat, p264());
            assert(start@ == (v - pow2(depth(v))) * width(depth(v)));
        }
        if !(p == start) {
            proof {
                if valid_indices(ixs) {
                    assert(pos_of(ixs, i as int) == (ixs[i as int] - pow2(depth(ixs[i as int])))
                        * width(depth(ixs[i as int])));
                }
            }
            return None;
        }
        let (pn, overflow) = p.overflowing_add(w);
        if overflow || !(pn.le(&limit)) {
            proof {
                assert(pos_of(ixs, i + 1) == pos_of(ixs, i as int) + width(depth(ixs[i as int])));
                assert(pos_of(ixs, i + 1) > pow2(263));
                if valid_indices(ixs) {
                    lemma_pos_monotone(ixs, i + 1, ixs.len() as int);
                }
            }
            return None;
        }
        offs.push(d as u64);
        proof {
            assert(pos_of(ixs, i + 1) == pos_of(ixs, i as int) + width(depth(ixs[i as int])));
        }
        p = pn;
        i = i + 1;
    }
    if !(p == limit) {
        proof {
            if valid_indices(ixs) {
                assert(pos_of(ixs, ixs.len() as int) == pow2(263));
            }
        }
        return None;
    }
    proof {
        assert(valid_indices(ixs));
        assert(offset_vals(offs@) =~= ixs.map_values(|v: nat| depth(v)));
    }
    Some(offs)
}

/// Decompresses a list of depth offsets back into the index list whose walk
/// they describe; fails exactly where the walk replay does.
pub fn decompress(offsets: &Vec<u64>) -> (r: Option<Vec<U264>>)
    ensures
        r is Some <==> decode_offsets(offset_vals(offsets@)) is Some,
        r is Some ==> r->0@.len() == offsets@.len() && index_vals(r->0@) == decode_offsets(
            offset_vals(offsets@),
        )->0,
{
    let ghost offs = offset_vals(offsets@);
    let limit = U264::one().shl(263);
    proof {
        lemma_pow2_constants();
        lemma_pow2_strictly_increases(263, 264);
        lemma_small_mod(pow2(263), p264());
        lemma_mul_basics(pow2(263) as int);
        assert(offs.skip(0) =~= offs);
    }
    let mut out: Vec<U264> = Vec::new();
    let mut p = U264::zero();
    let n = offsets.len();
    let mut i: usize = 0;
    while i < n
        invariant
            n == offsets@.len(),
            i <= n,
            offs == offset_vals(offsets@),
            limit@ == pow2(263),
            out@.len() == i,
            p@ <= pow2(263),
            decode_offsets(offs) is Some <==> decode_rec(offs.skip(i as int), p@) is Some,
            decode_rec(offs.skip(i as int), p@) is Some ==> decode_offsets(offs)->0 == index_vals(
                out@,
            ) + decode_rec(offs.skip(i as int), p@)->0,
        decreases n - i,
    {
        proof {
            lemma_pow2_constants();
            lemma_pow2_strictly_increases(263, 264);
        }
        let ghost tail = offs.skip(i as int);
        let d64 = offsets[i];
        proof {
            assert(tail[0] == d64 as nat);
            assert(tail.skip(1) =~= offs.skip(i + 1));
        }
        if d64 > 263 {
            return None;
        }
        let d = d64 as usize;
        let w = U264::one().shl(263 - d);
        proof {
            lemma_pow2_le((263 - d) as nat, 263);
            lemma_pow2_le(d as nat, 263);
            lemma_small_mod(pow2((263 - d) as nat), p264());
            lemma_small_mod(pow2(d as nat), p264());
            lemma_mul_basics(pow2((263 - d) as nat) as int);
            lemma_mul_basics(pow2(d as nat) as int);
            assert(w@ == width(d as nat));
        }
        let q = p.shr(263 - d);
        let back = q.shl(263 - d);
        proof {
            let wv = pow2((263 - d) as nat) as int;
            lemma_pow2_pos((263 - d) as nat);
            lemma_fundamental_div_mod(p@ as int, wv);
            assert(q@ == p@ as int / wv);
            vstd::arithmetic::div_mod::lemma_remainder_lower(p@ as int, wv);
            lemma_small_mod(((p@ as int / wv) * wv) as nat, p264());
            lemma_mul_is_commutative(p@ as int / wv, wv);
            assert(back@ == (p@ as int / wv) * wv);
        }
        if !(back == p) {
            proof {
                assert(p@ % width(d as nat) != 0);
            }
            return None;
        }
        proof {
            assert(p@ % width(d as nat) == 0);
        }
        let (pn, overflow) = p.overflowing_add(w);
        if overflow || !(pn.le(&limit)) {
            proof {
                assert(p@ + width(d as nat) > pow2(263));
            }
            return None;
        }
        let pd = U264::one().shl(d);
        proof {
            let wv = pow2((263 - d) as nat) as int;
            lemma_pow2_adds(d as nat, (263 - d) as nat);
            lemma_pow2_pos((263 - d) as nat);
            lemma_mul_is_commutative(wv, pow2(d as nat) as int);
            assert(wv * pow2(d as nat) == pow2(263));
            assert(p@ < wv * pow2(d as nat));
            lemma_multiply_divide_lt(p@ as int, wv, pow2(d as nat) as int);
            lemma_pow2_unfold((d + 1) as nat);
            lemma_pow2_le((d + 1) as nat, 264);
        }
        let idx = q.add(pd);
        proof {
            assert(idx@ == p@ / width(d as nat) + pow2(d as nat));
        }
        let ghost prev_out = out@;
        out.push(idx);
        p = pn;
        i = i + 1;
        proof {
            assert(index_vals(out@) =~= index_vals(prev_out).push(idx@));
            assert(decode_rec(tail, (p@ - width(d as nat)) as nat) matches Some(whole) ==> whole
                == seq![idx@] + decode_rec(offs.skip(i as int), p@)->0);
            if decode_rec(offs.skip(i as int), p@) is Some {
                assert(index_vals(prev_out) + (seq![idx@] + decode_rec(offs.skip(i as int), p@)->0)
                    =~= index_vals(out@) + decode_rec(offs.skip(i as int), p@)->0);
            }
        }
    }
    proof {
        assert(offs.skip(n as int) =~= Seq::<nat>::empty());
    }
    if !(p == limit) {
        return None;
    }
    proof {
        assert(decode_rec(offs.skip(n as int), p@) == Some(Seq::<nat>::empty()));
        assert(index_vals(out@) + Seq::<nat>::empty() =~= index_vals(out@));
    }
    Some(out)
}

/// Compression round-trip: a legitimate proof index list compresses to its
/// depths, and replaying the walk over those depths recovers exactly the
/// original list.
pub proof fn lemma_compress_round_trip(ixs: Seq<nat>)
    requires
        valid_indices(ixs),
    ensures
        decode_offsets(ixs.map_values(|v: nat| depth(v))) == Some(ixs),
{
    lemma_round_trip_rec(ixs, 0);
    assert(ixs.skip(0) =~= ixs);
    assert(ixs.map_values(|v: nat| depth(v)).skip(0) =~= ixs.map_values(|v: nat| depth(v)));
}

proof fn lemma_round_trip_rec(ixs: Seq<nat>, i: int)
    requires
        valid_indices(ixs),
        0 <= i <= ixs.len(),
    ensures
        decode_rec(ixs.map_values(|v: nat| depth(v)).skip(i), pos_of(ixs, i)) == Some(ixs.skip(i)),
    decreases ixs.len() - i,
{
    let offs = ixs.map_values(|v: nat| depth(v));
    if i == ixs.len() {
        assert(offs.skip(i) =~= Seq::<nat>::empty());
        assert(ixs.skip(i) =~= Seq::<nat>::empty());
    } else {
        let v = ixs[i];
        let d = depth(v);
        let p = pos_of(ixs, i);
        lemma_depth_bounds(v);
        assert(1 <= ixs[i] && depth(ixs[i]) <= 263);
        let wv = width(d);
        lemma_pow2_pos((263 - d) as nat);
        assert(p == (v - pow2(d)) * wv);
        lemma_mod_multiples_basic(v - pow2(d) as int, wv as int);
        assert(p % wv == 0);
        assert(p + wv <= pow2(263)) by {
            assert(pos_of(ixs, i + 1) == p + wv);
            lemma_pos_monotone(ixs, i + 1, ixs.len() as int);
        }
        assert(p / wv == v - pow2(d)) by {
            lemma_div_multiples_vanish(v - pow2(d) as int, wv as int);
            lemma_mul_is_commutative(v - pow2(d) as int, wv as int);
        }
        lemma_round_trip_rec(ixs, i + 1);
        assert(offs.skip(i)[0] == d);
        assert(offs.skip(i).skip(1) =~= offs.skip(i + 1));
        assert(pos_of(ixs, i + 1) == p + wv);
        assert(decode_rec(offs.skip(i), p) == Some(
            seq![(p / wv + pow2(d)) as nat] + ixs.skip(i + 1),
        ));
        assert(seq![(p / wv + pow2(d)) as nat] + ixs.skip(i + 1) =~= ixs.skip(i));
    }
}

} // verus!
