//! A 264-bit unsigned integer: four 64-bit little-endian limbs plus one
//! trailing byte. It represents generalized binary-tree node indices (root =
//! 1, children of `i` = `2i` and `2i + 1`) at depths where 64-bit indices
//! would overflow, and all arithmetic propagates carries and borrows exactly,
//! with explicit overflow signalling instead of silent truncation.
use crate::encoding::{le_val, lemma_le_val_append, lemma_le_val_bound, lemma_u64_le_seq_val, u64_le_seq};
use core::cmp::Ordering;
use vstd::std_specs::cmp::{PartialEqSpec, PartialOrdSpec};
use vstd::arithmetic::div_mod::{
    lemma_div_denominator, lemma_div_multiples_vanish, lemma_mod_multiples_vanish,
    lemma_fundamental_div_mod_converse, lemma_mul_mod_noop_left, lemma_basic_div, lemma_small_mod,
};
use vstd::arithmetic::mul::lemma_mul_is_commutative;
use vstd::arithmetic::power2::{lemma2_to64, lemma2_to64_rest, lemma_pow2_adds, lemma_pow2_pos, lemma_pow2_strictly_increases, pow2};
use vstd::prelude::*;

verus! {

/// `2^64`.
pub open spec fn p64() -> nat {
    0x10000000000000000nat
}

/// `2^128`.
pub open spec fn p128() -> nat {
    0x100000000000000000000000000000000nat
}

/// `2^192`.
pub open spec fn p192() -> nat {
    0x1000000000000000000000000000000000000000000000000nat
}

/// `2^256`.
pub open spec fn p256() -> nat {
    0x10000000000000000000000000000000000000000000000000000000000000000nat
}

/// `2^264`, one past the largest representable index.
pub open spec fn p264() -> nat {
    0x1000000000000000000000000000000000000000000000000000000000000000000nat
}

/// The named powers above are the matching powers of two.
pub proof fn lemma_pow2_constants()
    ensures
        pow2(64) == p64(),
        pow2(128) == p128(),
        pow2(192) == p192(),
        pow2(256) == p256(),
        pow2(264) == p264(),
{
    lemma2_to64_rest();
    lemma_pow2_adds(64, 64);
    lemma_pow2_adds(128, 64);
    lemma_pow2_adds(192, 64);
    lemma_pow2_adds(256, 8);
    lemma2_to64();
}

#[derive(Clone, Copy, Debug, Hash)]
pub struct U264 {
    l0: u64,
    l1: u64,
    l2: u64,
    l3: u64,
    top: u8,
}

impl View for U264 {
    type V = nat;

    /// The numeric value: limbs weighted by increasing powers of `2^64`,
    /// the trailing byte by `2^256`.
    closed spec fn view(&self) -> nat {
        (self.l0 + self.l1 * p64() + self.l2 * p128() + self.l3 * p192() + self.top * p256()) as nat
    }
}

/// Every value is below `2^264`.
pub proof fn lemma_view_bound(x: U264)
    ensures
        x@ < p264(),
{
}

/// The numeric value determines each limb: peel them off with division and
/// remainder by the limb base.
proof fn lemma_view_determines_limbs(x: U264)
    ensures
        x.l0 == x@ % p64(),
        x.l1 == (x@ / p64()) % p64(),
        x.l2 == (x@ / p64() / p64()) % p64(),
        x.l3 == (x@ / p64() / p64() / p64()) % p64(),
        x.top == x@ / p64() / p64() / p64() / p64(),
{
    let q1 = x.l1 + x.l2 * p64() + x.l3 * p128() + x.top * p192();
    assert(x@ as int == q1 * p64() + x.l0);
    lemma_fundamental_div_mod_converse(x@ as int, p64() as int, q1 as int, x.l0 as int);
    let q2 = x.l2 + x.l3 * p64() + x.top * p128();
    assert(q1 == q2 * p64() + x.l1);
    lemma_fundamental_div_mod_converse(q1 as int, p64() as int, q2 as int, x.l1 as int);
    let q3 = x.l3 + x.top * p64();
    assert(q2 == q3 * p64() + x.l2);
    lemma_fundamental_div_mod_converse(q2 as int, p64() as int, q3 as int, x.l2 as int);
    assert(q3 == (x.top as int) * p64() + x.l3);
    lemma_fundamental_div_mod_converse(q3 as int, p64() as int, x.top as int, x.l3 as int);
}

/// Two values with the same numeric value are the same value.
pub proof fn lemma_view_injective(a: U264, b: U264)
    ensures
        a@ == b@ <==> a == b,
{
    if a@ == b@ {
        lemma_view_determines_limbs(a);
        lemma_view_determines_limbs(b);
        assert(a.l0 == b.l0 && a.l1 == b.l1 && a.l2 == b.l2 && a.l3 == b.l3 && a.top == b.top);
    }
}

/// One limb-sized addition with carry in and carry out.
fn add_limb(x: u64, y: u64, cin: bool) -> (r: (u64, bool))
    ensures
        r.0 + (if r.1 {
            p64()
        } else {
            0nat
        }) == x + y + (if cin {
            1nat
        } else {
            0nat
        }),
{
    let s = x.wrapping_add(y).wrapping_add(if cin {
        1
    } else {
        0
    });
    let c = if cin {
        s <= x
    } else {
        s < x
    };
    (s, c)
}

/// The trailing-byte addition with carry in and carry out.
fn add_byte(x: u8, y: u8, cin: bool) -> (r: (u8, bool))
    ensures
        r.0 + (if r.1 {
            256nat
        } else {
            0nat
        }) == x + y + (if cin {
            1nat
        } else {
            0nat
        }),
{
    let s = x.wrapping_add(y).wrapping_add(if cin {
        1
    } else {
        0
    });
    let c = if cin {
        s <= x
    } else {
        s < x
    };
    (s, c)
}

/// One limb-sized subtraction with borrow in and borrow out.
fn sub_limb(x: u64, y: u64, bin: bool) -> (r: (u64, bool))
    ensures
        r.0 == x - y - (if bin {
            1int
        } else {
            0int
        }) + (if r.1 {
            p64()
        } else {
            0nat
        }),
{
    let s = x.wrapping_sub(y).wrapping_sub(if bin {
        1
    } else {
        0
    });
    let b = if bin {
        s >= x
    } else {
        s > x
    };
    (s, b)
}

/// The trailing-byte subtraction with borrow in and borrow out.
fn sub_byte(x: u8, y: u8, bin: bool) -> (r: (u8, bool))
    ensures
        r.0 == x - y - (if bin {
            1int
        } else {
            0int
        }) + (if r.1 {
            256nat
        } else {
            0nat
        }),
{
    let s = x.wrapping_sub(y).wrapping_sub(if bin {
        1
    } else {
        0
    });
    let b = if bin {
        s >= x
    } else {
        s > x
    };
    (s, b)
}

impl U264 {
    pub fn zero() -> (r: Self)
        ensures
            r@ == 0,
    {
        U264 { l0: 0, l1: 0, l2: 0, l3: 0, top: 0 }
    }

    pub fn one() -> (r: Self)
        ensures
            r@ == 1,
    {
        U264 { l0: 1, l1: 0, l2: 0, l3: 0, top: 0 }
    }

    /// Zero-extends a single byte.
    pub fn from_u8(n: u8) -> (r: Self)
        ensures
            r@ == n,
    {
        U264 { l0: n as u64, l1: 0, l2: 0, l3: 0, top: 0 }
    }

    /// Addition that reports whether the true sum overflowed 264 bits.
    pub fn overflowing_add(self, other: Self) -> (r: (Self, bool))
        ensures
            r.0@ + (if r.1 {
                p264()
            } else {
                0nat
            }) == self@ + other@,
            r.1 <==> self@ + other@ >= p264(),
            other@ == 0 ==> r.0@ == self@ && !r.1,
    {
        let (s0, c0) = add_limb(self.l0, other.l0, false);
        let (s1, c1) = add_limb(self.l1, other.l1, c0);
        let (s2, c2) = add_limb(self.l2, other.l2, c1);
        let (s3, c3) = add_limb(self.l3, other.l3, c2);
        let (s4, c4) = add_byte(self.top, other.top, c3);
        let out = U264 { l0: s0, l1: s1, l2: s2, l3: s3, top: s4 };
        (out, c4)
    }

    /// Subtraction that reports whether the true difference went below zero.
    pub fn overflowing_sub(self, other: Self) -> (r: (Self, bool))
        ensures
            r.0@ == self@ - other@ + (if r.1 {
                p264()
            } else {
                0nat
            }),
            r.1 <==> self@ < other@,
            other@ == self@ ==> r.0@ == 0 && !r.1,
            other@ == 0 ==> r.0@ == self@ && !r.1,
    {
        let (s0, b0) = sub_limb(self.l0, other.l0, false);
        let (s1, b1) = sub_limb(self.l1, other.l1, b0);
        let (s2, b2) = sub_limb(self.l2, other.l2, b1);
        let (s3, b3) = sub_limb(self.l3, other.l3, b2);
        let (s4, b4) = sub_byte(self.top, other.top, b3);
        let out = U264 { l0: s0, l1: s1, l2: s2, l3: s3, top: s4 };
        (out, b4)
    }

    /// Checked addition: the caller rules out overflow.
    pub fn add(self, other: Self) -> (r: Self)
        requires
            self@ + other@ < p264(),
        ensures
            r@ == self@ + other@,
    {
        let (r, _) = self.overflowing_add(other);
        r
    }

    /// Checked subtraction: the caller rules out underflow.
    pub fn sub(self, other: Self) -> (r: Self)
        requires
            self@ >= other@,
        ensures
            r@ == self@ - other@,
    {
        let (r, _) = self.overflowing_sub(other);
        r
    }

    /// One-bit left shift: doubles the value modulo `2^264`.
    fn shl1(self) -> (r: Self)
        ensures
            r@ == (2 * self@) % p264(),
    {
        let a0 = self.l0;
        let a1 = self.l1;
        let a2 = self.l2;
        let a3 = self.l3;
        let a4 = self.top;
        let out = U264 {
            l0: a0 << 1u64,
            l1: (a1 << 1u64) | (a0 >> 63u64),
            l2: (a2 << 1u64) | (a1 >> 63u64),
            l3: (a3 << 1u64) | (a2 >> 63u64),
            top: (a4 << 1u8) | ((a3 >> 63u64) as u8),
        };
        proof {
            assert((a0 << 1u64) + (a0 >> 63u64) * 0x10000000000000000int == 2 * a0) by (bit_vector);
            assert((a1 << 1u64) | (a0 >> 63u64) == (a1 << 1u64) + (a0 >> 63u64)) by (bit_vector);
            assert((a1 << 1u64) + (a1 >> 63u64) * 0x10000000000000000int == 2 * a1) by (bit_vector);
            assert((a2 << 1u64) | (a1 >> 63u64) == (a2 << 1u64) + (a1 >> 63u64)) by (bit_vector);
            assert((a2 << 1u64) + (a2 >> 63u64) * 0x10000000000000000int == 2 * a2) by (bit_vector);
            assert((a3 << 1u64) | (a2 >> 63u64) == (a3 << 1u64) + (a2 >> 63u64)) by (bit_vector);
            assert((a3 << 1u64) + (a3 >> 63u64) * 0x10000000000000000int == 2 * a3) by (bit_vector);
            assert((a4 << 1u8) | ((a3 >> 63u64) as u8) == (a4 << 1u8) + ((a3 >> 63u64) as u8))
                by (bit_vector);
            assert((a4 << 1u8) + (a4 >> 7u8) * 0x100int == 2 * a4) by (bit_vector);
            assert((a3 >> 63u64) as u8 == a3 >> 63u64) by (bit_vector);
            assert(out@ + (a4 >> 7u8) * p264() == 2 * self@);
            lemma_mod_multiples_vanish((a4 >> 7u8) as int, out@ as int, p264() as int);
            lemma_small_mod(out@, p264());
        }
        out
    }

    /// One-bit right shift: halves the value, dropping the low bit.
    fn shr1(self) -> (r: Self)
        ensures
            r@ == self@ / 2,
    {
        let a0 = self.l0;
        let a1 = self.l1;
        let a2 = self.l2;
        let a3 = self.l3;
        let a4 = self.top;
        let out = U264 {
            l0: (a0 >> 1u64) | (a1 << 63u64),
            l1: (a1 >> 1u64) | (a2 << 63u64),
            l2: (a2 >> 1u64) | (a3 << 63u64),
            l3: (a3 >> 1u64) | ((a4 as u64) << 63u64),
            top: a4 >> 1u8,
        };
        proof {
            assert((a0 >> 1u64) | (a1 << 63u64) == a0 / 2 + (a1 % 2) * 0x8000000000000000)
                by (bit_vector);
            assert((a1 >> 1u64) | (a2 << 63u64) == a1 / 2 + (a2 % 2) * 0x8000000000000000)
                by (bit_vector);
            assert((a2 >> 1u64) | (a3 << 63u64) == a2 / 2 + (a3 % 2) * 0x8000000000000000)
                by (bit_vector);
            assert((a3 >> 1u64) | ((a4 as u64) << 63u64) == a3 / 2 + ((a4 as u64) % 2)
                * 0x8000000000000000) by (bit_vector);
            assert(a4 >> 1u8 == a4 / 2) by (bit_vector);
            assert(2 * out@ + (a0 % 2) == self@);
        }
        out
    }

    /// Left shift by `shift` bits, modulo `2^264`; shifting by zero is the
    /// identity and shifting zero gives zero.
    pub fn shl(self, shift: usize) -> (r: Self)
        ensures
            r@ == (self@ * pow2(shift as nat)) % p264(),
            shift == 0 ==> r@ == self@,
            self@ == 0 ==> r@ == 0,
    {
        proof {
            lemma_pow2_constants();
            lemma_small_mod(self@, p264());
            lemma2_to64();
        }
        if shift >= 264 {
            proof {
                lemma_pow2_adds(264, (shift - 264) as nat);
                lemma_pow2_pos((shift - 264) as nat);
                assert(self@ * (pow2(264) * pow2((shift - 264) as nat)) == (self@ * pow2(
                    (shift - 264) as nat,
                )) * pow2(264)) by (nonlinear_arith);
                lemma_mod_multiples_vanish(
                    self@ * pow2((shift - 264) as nat) as int,
                    0,
                    p264() as int,
                );
                lemma_small_mod(0, p264());
            }
            return U264::zero();
        }
        let mut cur = self;
        let mut i: usize = 0;
        while i < shift
            invariant
                i <= shift,
                shift < 264,
                cur@ == (self@ * pow2(i as nat)) % p264(),
            decreases shift - i,
        {
            let next = cur.shl1();
            proof {
                lemma_mul_mod_noop_left(self@ * pow2(i as nat) as int, 2, p264() as int);
                lemma_pow2_adds(i as nat, 1);
                lemma2_to64();
                assert((self@ * pow2(i as nat)) * 2 == self@ * (pow2(i as nat) * 2))
                    by (nonlinear_arith);
                assert(2 * ((self@ * pow2(i as nat)) % p264()) == ((self@ * pow2(i as nat)) % p264())
                    * 2);
            }
            cur = next;
            i = i + 1;
        }
        proof {
            if self@ == 0 {
                assert(self@ * pow2(shift as nat) == 0) by (nonlinear_arith)
                    requires
                        self@ == 0,
                ;
                lemma_small_mod(0, p264());
            }
        }
        cur
    }

    /// Right shift by `shift` bits, dropping shifted-out bits; shifting by
    /// zero is the identity and shifting zero gives zero.
    pub fn shr(self, shift: usize) -> (r: Self)
        ensures
            r@ == self@ / pow2(shift as nat),
            shift == 0 ==> r@ == self@,
            self@ == 0 ==> r@ == 0,
    {
        proof {
            lemma_pow2_constants();
            lemma2_to64();
        }
        if shift >= 264 {
            proof {
                if shift > 264 {
                    lemma_pow2_strictly_increases(264, shift as nat);
                }
                lemma_basic_div(self@ as int, pow2(shift as nat) as int);
            }
            return U264::zero();
        }
        let mut cur = self;
        let mut i: usize = 0;
        while i < shift
            invariant
                i <= shift,
                shift < 264,
                cur@ == self@ / pow2(i as nat),
            decreases shift - i,
        {
            let next = cur.shr1();
            proof {
                lemma_pow2_pos(i as nat);
                lemma_div_denominator(self@ as int, pow2(i as nat) as int, 2);
                lemma_pow2_adds(i as nat, 1);
                lemma2_to64();
            }
            cur = next;
            i = i + 1;
        }
        proof {
            if self@ == 0 {
                lemma_pow2_pos(shift as nat);
                lemma_basic_div(0, pow2(shift as nat) as int);
            }
        }
        cur
    }

    /// The least-significant limb.
    pub closed spec fn limb0(&self) -> u64 {
        self.l0
    }

    /// The second limb.
    pub closed spec fn limb1(&self) -> u64 {
        self.l1
    }

    /// The third limb.
    pub closed spec fn limb2(&self) -> u64 {
        self.l2
    }

    /// The most-significant full limb.
    pub closed spec fn limb3(&self) -> u64 {
        self.l3
    }

    /// The trailing byte.
    pub closed spec fn limb4(&self) -> u8 {
        self.top
    }

    /// The numeric value decomposes uniquely into the five limbs.
    pub proof fn lemma_limbs(self)
        ensures
            self@ == self.limb0() + self.limb1() * p64() + self.limb2() * p128() + self.limb3()
                * p192() + self.limb4() * p256(),
    {
    }

    /// Bitwise AND, limb by limb.
    pub fn bitand(self, other: Self) -> (r: Self)
        ensures
            r.limb0() == self.limb0() & other.limb0(),
            r.limb1() == self.limb1() & other.limb1(),
            r.limb2() == self.limb2() & other.limb2(),
            r.limb3() == self.limb3() & other.limb3(),
            r.limb4() == self.limb4() & other.limb4(),
    {
        U264 {
            l0: self.l0 & other.l0,
            l1: self.l1 & other.l1,
            l2: self.l2 & other.l2,
            l3: self.l3 & other.l3,
            top: self.top & other.top,
        }
    }

    /// Bitwise complement of all 264 bits.
    pub fn not(self) -> (r: Self)
        ensures
            r.limb0() == !self.limb0(),
            r.limb1() == !self.limb1(),
            r.limb2() == !self.limb2(),
            r.limb3() == !self.limb3(),
            r.limb4() == !self.limb4(),
    {
        U264 { l0: !self.l0, l1: !self.l1, l2: !self.l2, l3: !self.l3, top: !self.top }
    }

    /// The low 32 bits of the value.
    pub fn low_u32(&self) -> (r: u32)
        ensures
            r == self@ % 0x100000000,
    {
        let r = (self.l0 & 0xffffffff) as u32;
        proof {
            let a0 = self.l0;
            assert((a0 & 0xffffffff) as u32 == a0 % 0x100000000) by (bit_vector);
            assert(self@ == 0x100000000 * ((a0 / 0x100000000) + self.l1 * 0x100000000 + self.l2
                * 0x1000000000000000000000000int + self.l3 * 0x10000000000000000000000000000000000000000int
                + self.top * 0x100000000000000000000000000000000000000000000000000000000int) + (a0
                % 0x100000000));
            lemma_mod_multiples_vanish(
                (a0 / 0x100000000) + self.l1 * 0x100000000 + self.l2 * 0x1000000000000000000000000int
                    + self.l3 * 0x10000000000000000000000000000000000000000int + self.top
                    * 0x100000000000000000000000000000000000000000000000000000000int,
                (a0 % 0x100000000) as int,
                0x100000000,
            );
            lemma_small_mod((a0 % 0x100000000) as nat, 0x100000000);
        }
        r
    }

    /// The 33-byte little-endian form of the value.
    pub closed spec fn spec_le_bytes(&self) -> Seq<u8> {
        u64_le_seq(self.l0) + u64_le_seq(self.l1) + u64_le_seq(self.l2) + u64_le_seq(self.l3)
            + seq![self.top]
    }

    /// The 33-byte form has length 33 and reads back as the value.
    pub proof fn lemma_spec_le_bytes(self)
        ensures
            self.spec_le_bytes().len() == 33,
            le_val(self.spec_le_bytes()) == self@,
    {
        lemma_pow2_constants();
        lemma_u64_le_seq_val(self.l0);
        lemma_u64_le_seq_val(self.l1);
        lemma_u64_le_seq_val(self.l2);
        lemma_u64_le_seq_val(self.l3);
        let s0 = u64_le_seq(self.l0);
        let s1 = u64_le_seq(self.l1);
        let s2 = u64_le_seq(self.l2);
        let s3 = u64_le_seq(self.l3);
        let s4 = seq![self.top];
        assert(le_val(s4) == self.top + 256 * le_val(s4.skip(1)));
        assert(s4.skip(1) =~= Seq::<u8>::empty());
        assert(le_val(Seq::<u8>::empty()) == 0);
        lemma_le_val_append(s3, s4);
        lemma_le_val_append(s2, s3 + s4);
        lemma_le_val_append(s1, s2 + (s3 + s4));
        lemma_le_val_append(s0, s1 + (s2 + (s3 + s4)));
        assert(self.spec_le_bytes() =~= s0 + (s1 + (s2 + (s3 + s4))));
        assert(p64() * (self.l1 + p64() * (self.l2 + p64() * (self.l3 + p64() * self.top)))
            == self.l1 * p64() + self.l2 * p128() + self.l3 * p192() + self.top * p256())
            by (nonlinear_arith);
    }

    /// The value as 33 little-endian bytes.
    pub fn as_le_bytes(&self) -> (r: [u8; 33])
        ensures
            r@ == self.spec_le_bytes(),
            le_val(r@) == self@,
    {
        let r: [u8; 33] = [
            (self.l0 & 0xff) as u8,
            ((self.l0 >> 8u64) & 0xff) as u8,
            ((self.l0 >> 16u64) & 0xff) as u8,
            ((self.l0 >> 24u64) & 0xff) as u8,
            ((self.l0 >> 32u64) & 0xff) as u8,
            ((self.l0 >> 40u64) & 0xff) as u8,
            ((self.l0 >> 48u64) & 0xff) as u8,
            ((self.l0 >> 56u64) & 0xff) as u8,
            (self.l1 & 0xff) as u8,
            ((self.l1 >> 8u64) & 0xff) as u8,
            ((self.l1 >> 16u64) & 0xff) as u8,
            ((self.l1 >> 24u64) & 0xff) as u8,
            ((self.l1 >> 32u64) & 0xff) as u8,
            ((self.l1 >> 40u64) & 0xff) as u8,
            ((self.l1 >> 48u64) & 0xff) as u8,
            ((self.l1 >> 56u64) & 0xff) as u8,
            (self.l2 & 0xff) as u8,
            ((self.l2 >> 8u64) & 0xff) as u8,
            ((self.l2 >> 16u64) & 0xff) as u8,
            ((self.l2 >> 24u64) & 0xff) as u8,
            ((self.l2 >> 32u64) & 0xff) as u8,
            ((self.l2 >> 40u64) & 0xff) as u8,
            ((self.l2 >> 48u64) & 0xff) as u8,
            ((self.l2 >> 56u64) & 0xff) as u8,
            (self.l3 & 0xff) as u8,
            ((self.l3 >> 8u64) & 0xff) as u8,
            ((self.l3 >> 16u64) & 0xff) as u8,
            ((self.l3 >> 24u64) & 0xff) as u8,
            ((self.l3 >> 32u64) & 0xff) as u8,
            ((self.l3 >> 40u64) & 0xff) as u8,
            ((self.l3 >> 48u64) & 0xff) as u8,
            ((self.l3 >> 56u64) & 0xff) as u8,
            self.top,
        ];
        proof {
            assert(r@ =~= self.spec_le_bytes());
            self.lemma_spec_le_bytes();
        }
        r
    }

    /// Reads a value from its 33-byte little-endian form.
    pub fn from_le_bytes(b: &[u8; 33]) -> (r: Self)
        ensures
            r@ == le_val(b@),
    {
        let s = b.as_slice();
        let l0 = crate::encoding::u64_from_le_slice(s, 0);
        let l1 = crate::encoding::u64_from_le_slice(s, 8);
        let l2 = crate::encoding::u64_from_le_slice(s, 16);
        let l3 = crate::encoding::u64_from_le_slice(s, 24);
        let top = b[32];
        let out = U264 { l0, l1, l2, l3, top };
        proof {
            lemma_pow2_constants();
            let t0 = b@.subrange(0, 8);
            let t1 = b@.subrange(8, 16);
            let t2 = b@.subrange(16, 24);
            let t3 = b@.subrange(24, 32);
            let t4 = seq![b@[32]];
            assert(le_val(t4) == b@[32] + 256 * le_val(t4.skip(1)));
            assert(t4.skip(1) =~= Seq::<u8>::empty());
            assert(le_val(Seq::<u8>::empty()) == 0);
            lemma_le_val_append(t3, t4);
            lemma_le_val_append(t2, t3 + t4);
            lemma_le_val_append(t1, t2 + (t3 + t4));
            lemma_le_val_append(t0, t1 + (t2 + (t3 + t4)));
            assert(b@ =~= t0 + (t1 + (t2 + (t3 + t4))));
            assert(p64() * (l1 + p64() * (l2 + p64() * (l3 + p64() * top))) == l1 * p64() + l2
                * p128() + l3 * p192() + top * p256()) by (nonlinear_arith);
        }
        out
    }
}

/// Marker declaration so `bigint::U256` can appear in a signature.
#[verifier::external_type_specification]
#[verifier::external_body]
pub struct ExU256(bigint::U256);

/// The 33-byte little-endian buffer a 256-bit integer fills.
///
/// Relies on `bigint::U256::to_little_endian`, which writes the value's
/// 32-byte little-endian form into the slice it is handed; the buffer's
/// trailing byte is never written and stays zero.
#[verifier::external_body]
fn u256_le_bytes(n: &bigint::U256) -> (r: [u8; 33])
    ensures
        r@[32] == 0,
{
    let mut buf = [0u8; 33];
    n.to_little_endian(&mut buf[0..32]);
    buf
}

impl U264 {
    /// Truncating widening from a 256-bit integer: the extra byte of
    /// headroom stays zero, so the result is below `2^256`.
    pub fn from_u256(n: &bigint::U256) -> (r: Self)
        ensures
            r@ < p256(),
    {
        let b = u256_le_bytes(n);
        let r = U264::from_le_bytes(&b);
        proof {
            assert(b@ =~= b@.take(32) + seq![b@[32]]);
            lemma_le_val_append(b@.take(32), seq![b@[32]]);
            assert(le_val(seq![b@[32]]) == b@[32] + 256 * le_val(seq![b@[32]].skip(1)));
            assert(seq![b@[32]].skip(1) =~= Seq::<u8>::empty());
            assert(le_val(Seq::<u8>::empty()) == 0);
            lemma_le_val_bound(b@.take(32));
            lemma_pow2_constants();
            vstd::arithmetic::mul::lemma_mul_basics(pow2(8 * 32) as int);
        }
        r
    }
}

impl PartialEq for U264 {
    /// Limb-wise comparison: equal exactly when the numeric values are equal.
    fn eq(&self, other: &Self) -> (r: bool) {
        let r = self.l0 == other.l0 && self.l1 == other.l1 && self.l2 == other.l2 && self.l3
            == other.l3 && self.top == other.top;
        proof {
            lemma_view_injective(*self, *other);
        }
        r
    }
}

impl vstd::std_specs::cmp::PartialEqSpecImpl for U264 {
    open spec fn obeys_eq_spec() -> bool {
        true
    }

    open spec fn eq_spec(&self, other: &Self) -> bool {
        self@ == other@
    }
}

impl PartialOrd for U264 {
    /// Lexicographic comparison from the most-significant limb down,
    /// consistent with full numeric comparison.
    fn partial_cmp(&self, other: &Self) -> (r: Option<Ordering>) {
        if self.top != other.top {
            if self.top < other.top {
                Some(Ordering::Less)
            } else {
                Some(Ordering::Greater)
            }
        } else if self.l3 != other.l3 {
            if self.l3 < other.l3 {
                Some(Ordering::Less)
            } else {
                Some(Ordering::Greater)
            }
        } else if self.l2 != other.l2 {
            if self.l2 < other.l2 {
                Some(Ordering::Less)
            } else {
                Some(Ordering::Greater)
            }
        } else if self.l1 != other.l1 {
            if self.l1 < other.l1 {
                Some(Ordering::Less)
            } else {
                Some(Ordering::Greater)
            }
        } else if self.l0 != other.l0 {
            if self.l0 < other.l0 {
                Some(Ordering::Less)
            } else {
                Some(Ordering::Greater)
            }
        } else {
            Some(Ordering::Equal)
        }
    }
}

impl vstd::std_specs::cmp::PartialOrdSpecImpl for U264 {
    open spec fn obeys_partial_cmp_spec() -> bool {
        true
    }

    open spec fn partial_cmp_spec(&self, other: &Self) -> Option<Ordering> {
        if self@ < other@ {
            Some(Ordering::Less)
        } else if self@ == other@ {
            Some(Ordering::Equal)
        } else {
            Some(Ordering::Greater)
        }
    }
}

/// Equality is reflexive, symmetric and transitive, and the total order
/// agrees with it: two values compare `Equal` exactly when they are equal.
pub proof fn lemma_eq_order_consistent(a: U264, b: U264, c: U264)
    ensures
        a.eq_spec(&a),
        a.eq_spec(&b) ==> b.eq_spec(&a),
        a.eq_spec(&b) && b.eq_spec(&c) ==> a.eq_spec(&c),
        a.partial_cmp_spec(&b) is Some,
        a.eq_spec(&b) <==> a.partial_cmp_spec(&b) == Some(Ordering::Equal),
        a.partial_cmp_spec(&b) == Some(Ordering::Less) <==> b.partial_cmp_spec(&a) == Some(
            Ordering::Greater,
        ),
{
}

/// Shifting left by `n` and back right by `n` is the identity whenever no
/// bits are lost, that is when the shifted value still fits in 264 bits.
pub proof fn lemma_shift_round_trip(x: U264, n: nat)
    requires
        x@ * pow2(n) < p264(),
    ensures
        ((x@ * pow2(n)) % p264()) / pow2(n) == x@,
{
    lemma_small_mod(x@ * pow2(n), p264());
    lemma_pow2_pos(n);
    lemma_mul_is_commutative(x@ as int, pow2(n) as int);
    lemma_div_multiples_vanish(x@ as int, pow2(n) as int);
}

} // verus!
