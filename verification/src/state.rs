//! The partial-tree store and the account-field accessor layer: field-level
//! get and update against the leaves a witness covers, with overflow-checked
//! balance and nonce mutations, and a deterministic root over the store's
//! contents. The cryptographic reconstruction primitive this store stands in
//! for is an external collaborator; this reference store keeps the same
//! interface (`get`, `update`, `root`) over plain node values.
use crate::encoding::{chunk_low8, field_chunk, field_chunk_spec, le_val, lemma_le_val_append, lemma_le_val_bound};
use crate::error::Error;
use crate::u264::{lemma_pow2_constants, p256, p264, U264};
use vstd::arithmetic::power2::{lemma2_to64, lemma_pow2_strictly_increases, pow2};
use vstd::prelude::*;

verus! {

/// A 256-bit account address, stored as 32 little-endian bytes.
#[derive(Clone, Copy, Debug, PartialEq, Eq)]
pub struct Address(pub [u8; 32]);

/// The numeric value of an address.
pub open spec fn addr_val(a: Address) -> nat {
    le_val(a.0@)
}

/// Generalized index of the balance leaf of an address in a tree of height
/// `h`: the leaf span starts at `2^h`, and each address owns two adjacent
/// slots, balance first.
pub open spec fn value_index_spec(a: Address, h: nat) -> nat {
    (pow2(h) + 2 * addr_val(a)) as nat
}

/// Generalized index of the nonce leaf: the slot after the balance leaf.
pub open spec fn nonce_index_spec(a: Address, h: nat) -> nat {
    (pow2(h) + 2 * addr_val(a) + 1) as nat
}

/// Distinct (address, field) pairs map to distinct indices, and for
/// addresses below `2^(h-1)` both indices lie in the leaf span
/// `[2^h, 2^(h+1))`.
pub proof fn lemma_index_mapping(a: Address, b: Address, h: nat)
    requires
        1 <= h,
    ensures
        value_index_spec(a, h) != nonce_index_spec(b, h),
        addr_val(a) != addr_val(b) ==> value_index_spec(a, h) != value_index_spec(b, h),
        addr_val(a) != addr_val(b) ==> nonce_index_spec(a, h) != nonce_index_spec(b, h),
        addr_val(a) < pow2((h - 1) as nat) ==> pow2(h) <= value_index_spec(a, h)
            && nonce_index_spec(a, h) < pow2(h + 1),
{
    vstd::arithmetic::power2::lemma_pow2_unfold(h);
    vstd::arithmetic::power2::lemma_pow2_adds(h, 1);
    lemma2_to64();
}

/// Converts an address to its index value as a wide integer.
pub fn address_to_u264(a: &Address) -> (r: U264)
    ensures
        r@ == addr_val(*a),
        r@ < p256(),
{
    let b: [u8; 33] = [
        a.0[0],
        a.0[1],
        a.0[2],
        a.0[3],
        a.0[4],
        a.0[5],
        a.0[6],
        a.0[7],
        a.0[8],
        a.0[9],
        a.0[10],
        a.0[11],
        a.0[12],
        a.0[13],
        a.0[14],
        a.0[15],
        a.0[16],
        a.0[17],
        a.0[18],
        a.0[19],
        a.0[20],
        a.0[21],
        a.0[22],
        a.0[23],
        a.0[24],
        a.0[25],
        a.0[26],
        a.0[27],
        a.0[28],
        a.0[29],
        a.0[30],
        a.0[31],
        0,
    ];
    let r = U264::from_le_bytes(&b);
    proof {
        assert(b@ =~= a.0@ + seq![0u8]);
        lemma_le_val_append(a.0@, seq![0u8]);
        assert(le_val(seq![0u8]) == 0 + 256 * le_val(seq![0u8].skip(1)));
        assert(seq![0u8].skip(1) =~= Seq::<u8>::empty());
        assert(le_val(Seq::<u8>::empty()) == 0);
        lemma_le_val_bound(a.0@);
        lemma_pow2_constants();
        vstd::arithmetic::mul::lemma_mul_basics(pow2(8 * 32) as int);
    }
    r
}

/// Computes the balance-leaf index of `address` in a tree of height `height`.
pub fn calc_value_index(address: &Address, height: u64) -> (r: U264)
    requires
        1 <= height <= 256,
    ensures
        r@ == value_index_spec(*address, height as nat),
{
    let base = U264::one().shl(height as usize);
    let two_a = address_to_u264(address).shl(1);
    proof {
        lemma_pow2_constants();
        lemma2_to64();
        if height < 256 {
            lemma_pow2_strictly_increases(height as nat, 256);
        }
        lemma_pow2_strictly_increases(height as nat, 264);
        vstd::arithmetic::div_mod::lemma_small_mod(pow2(height as nat), p264());
        vstd::arithmetic::div_mod::lemma_small_mod(2 * addr_val(*address), p264());
    }
    base.add(two_a)
}

/// Computes the nonce-leaf index of `address` in a tree of height `height`.
pub fn calc_nonce_index(address: &Address, height: u64) -> (r: U264)
    requires
        1 <= height <= 256,
    ensures
        r@ == nonce_index_spec(*address, height as nat),
{
    let v = calc_value_index(address, height);
    proof {
        lemma_pow2_constants();
        if height < 256 {
            lemma_pow2_strictly_increases(height as nat, 256);
        }
        lemma_le_val_bound(address.0@);
    }
    v.add(U264::one())
}

/// One mixing step of the reference root: a byte of the running digest
/// combined with a byte of a node's index and chunk.
pub open spec fn mix_byte(acc: u8, ib: u8, ch: u8, extra: u8) -> u8 {
    ((acc * 3 + ib + ch + extra) % 256) as u8
}

/// Folds one node into the running 32-byte digest; the index's trailing
/// byte enters at position 0.
pub open spec fn mix_node(acc: Seq<u8>, idx: U264, ch: Seq<u8>) -> Seq<u8> {
    Seq::new(
        32,
        |j: int|
            mix_byte(
                acc[j],
                idx.spec_le_bytes()[j],
                ch[j],
                if j == 0 {
                    idx.spec_le_bytes()[32]
                } else {
                    0u8
                },
            ),
    )
}

/// The digest of a node list, folded left over a zero start.
pub open spec fn root_rec(entries: Seq<(U264, Seq<u8>)>, acc: Seq<u8>) -> Seq<u8>
    decreases entries.len(),
{
    if entries.len() == 0 {
        acc
    } else {
        root_rec(entries.skip(1), mix_node(acc, entries[0].0, entries[0].1))
    }
}

/// The deterministic reference root of a store's contents. The production
/// system derives this value from the cryptographic reconstruction
/// primitive; here it is any fixed function of the node list, so that the
/// same witness and the same mutations always yield the same root.
pub open spec fn spec_root(entries: Seq<(U264, Seq<u8>)>) -> Seq<u8> {
    root_rec(entries, Seq::new(32, |_j: int| 0u8))
}

/// Replaces the chunk stored at key `k`, leaving order and keys unchanged.
pub open spec fn entries_with(entries: Seq<(U264, Seq<u8>)>, k: nat, c: Seq<u8>) -> Seq<
    (U264, Seq<u8>),
> {
    Seq::new(
        entries.len(),
        |i: int|
            if entries[i].0@ == k {
                (entries[i].0, c)
            } else {
                entries[i]
            },
    )
}

/// Whether a node list covers index value `k`.
pub open spec fn covers_in(es: Seq<(U264, Seq<u8>)>, k: nat) -> bool {
    exists|i: int| 0 <= i < es.len() && es[i].0@ == k
}

/// Position of the node with index value `k` in a node list.
pub open spec fn idx_in(es: Seq<(U264, Seq<u8>)>, k: nat) -> int {
    choose|i: int| 0 <= i < es.len() && es[i].0@ == k
}

/// The chunk stored for index value `k` in a node list.
pub open spec fn chunk_in(es: Seq<(U264, Seq<u8>)>, k: nat) -> Seq<u8> {
    es[idx_in(es, k)].1
}

/// A partial view of the account tree: the nodes a witness covers, each an
/// index paired with its 32-byte value, and the tree height.
pub struct PartialTree {
    height: u64,
    nodes: Vec<(U264, [u8; 32])>,
}

impl PartialTree {
    /// The stored nodes, in witness order.
    pub closed spec fn entries(&self) -> Seq<(U264, Seq<u8>)> {
        self.nodes@.map_values(|p: (U264, [u8; 32])| (p.0, p.1@))
    }

    /// The tree height.
    pub closed spec fn spec_height(&self) -> u64 {
        self.height
    }

    /// Well-formed: keys are distinct, every chunk is 32 bytes, and the
    /// height is a usable tree height.
    pub open spec fn wf(&self) -> bool {
        &&& forall|i: int, j: int|
            0 <= i < j < self.entries().len() ==> self.entries()[i].0@ != self.entries()[j].0@
        &&& forall|i: int|
            0 <= i < self.entries().len() ==> (#[trigger] self.entries()[i].1).len() == 32
        &&& 1 <= self.spec_height() <= 256
    }

    /// Whether the witness covers index value `k`.
    pub open spec fn covers(&self, k: nat) -> bool {
        covers_in(self.entries(), k)
    }

    /// Position of the node with index value `k`.
    pub open spec fn idx_of(&self, k: nat) -> int {
        idx_in(self.entries(), k)
    }

    /// The chunk stored for index value `k`.
    pub open spec fn chunk_of(&self, k: nat) -> Seq<u8> {
        chunk_in(self.entries(), k)
    }

    /// In a well-formed store, position `i` holds the chunk of its own key.
    pub proof fn lemma_chunk_at(&self, i: int)
        requires
            self.wf(),
            0 <= i < self.entries().len(),
        ensures
            self.covers(self.entries()[i].0@),
            self.idx_of(self.entries()[i].0@) == i,
            self.chunk_of(self.entries()[i].0@) == self.entries()[i].1,
    {
        let k = self.entries()[i].0@;
        assert(self.covers(k));
        let j = self.idx_of(k);
        if j != i {
            if j < i {
                assert(self.entries()[j].0@ != self.entries()[i].0@);
            } else {
                assert(self.entries()[i].0@ != self.entries()[j].0@);
            }
        }
    }

    /// Builds a store from a decoded witness: one chunk per index, indices
    /// distinct. Returns nothing if the node list is malformed.
    pub fn from_nodes(height: u64, indices: &Vec<U264>, chunks: &Vec<[u8; 32]>) -> (r: Option<
        PartialTree,
    >)
        requires
            1 <= height <= 256,
        ensures
            r is Some <==> indices@.len() == chunks@.len() && (forall|i: int, j: int|
                0 <= i < j < indices@.len() ==> indices@[i]@ != indices@[j]@),
            r is Some ==> ({
                let t = r->0;
                &&& t.wf()
                &&& t.spec_height() == height
                &&& t.entries().len() == indices@.len()
                &&& forall|i: int|
                    0 <= i < indices@.len() ==> t.entries()[i].0 == indices@[i]
                        && t.entries()[i].1 == chunks@[i]@
            }),
    {
        if indices.len() != chunks.len() {
            return None;
        }
        let n = indices.len();
        let mut i: usize = 0;
        while i < n
            invariant
                n == indices@.len() == chunks@.len(),
                i <= n,
                forall|p: int, q: int| 0 <= p < q < i ==> indices@[p]@ != indices@[q]@,
            decreases n - i,
        {
            let mut j: usize = 0;
            while j < i
                invariant
                    n == indices@.len() == chunks@.len(),
                    j <= i < n,
                    forall|q: int| 0 <= q < j ==> indices@[q]@ != indices@[i as int]@,
                decreases i - j,
            {
                if indices[j] == indices[i] {
                    proof {
                        let pj = j as int;
                        let qi = i as int;
                        assert(0 <= pj < qi < indices@.len());
                        assert(indices@[pj]@ == indices@[qi]@);
                        assert(!(forall|p: int, q: int|
                            0 <= p < q < indices@.len() ==> indices@[p]@ != indices@[q]@)) by {
                            if forall|p: int, q: int|
                                0 <= p < q < indices@.len() ==> indices@[p]@ != indices@[q]@ {
                                assert(indices@[pj]@ != indices@[qi]@);
                            }
                        }
                    }
                    return None;
                }
                j = j + 1;
            }
            i = i + 1;
        }
        let mut nodes: Vec<(U264, [u8; 32])> = Vec::new();
        let mut k: usize = 0;
        while k < n
            invariant
                n == indices@.len() == chunks@.len(),
                k <= n,
                nodes@.len() == k,
                forall|i: int|
                    0 <= i < k ==> nodes@[i].0 == indices@[i] && nodes@[i].1 == chunks@[i],
            decreases n - k,
        {
            nodes.push((indices[k], chunks[k]));
            k = k + 1;
        }
        let t = PartialTree { height, nodes };
        proof {
            assert(t.entries().len() == n);
            assert(forall|i: int|
                0 <= i < n ==> t.entries()[i].0 == indices@[i] && t.entries()[i].1
                    == chunks@[i]@);
            assert forall|p: int, q: int|
                0 <= p < q < t.entries().len() implies t.entries()[p].0@ != t.entries()[q].0@ by {
                assert(t.entries()[p].0 == indices@[p]);
                assert(t.entries()[q].0 == indices@[q]);
                assert(indices@[p]@ != indices@[q]@);
            }
            assert(t.wf());
        }
        Some(t)
    }

    /// Returns the 32-byte chunk stored for `index`, or reports that the
    /// witness does not cover it.
    pub fn get(&self, index: &U264) -> (r: Result<[u8; 32], Error>)
        requires
            self.wf(),
        ensures
            r is Ok <==> self.covers(index@),
            r is Ok ==> r->Ok_0@ == self.chunk_of(index@),
            r is Err ==> r->Err_0 == Error::IndexNotCovered,
    {
        let n = self.nodes.len();
        let mut i: usize = 0;
        while i < n
            invariant
                self.wf(),
                n == self.nodes@.len(),
                i <= n,
                forall|p: int| 0 <= p < i ==> self.entries()[p].0@ != index@,
            decreases n - i,
        {
            if self.nodes[i].0 == *index {
                proof {
                    self.lemma_chunk_at(i as int);
                }
                return Ok(self.nodes[i].1);
            }
            i = i + 1;
        }
        Err(Error::IndexNotCovered)
    }

    /// Overwrites the chunk stored for `index`, or reports that the witness
    /// does not cover it; keys and their order never change.
    pub fn update(&mut self, index: &U264, chunk: [u8; 32]) -> (r: Result<(), Error>)
        requires
            old(self).wf(),
        ensures
            final(self).wf(),
            final(self).spec_height() == old(self).spec_height(),
            r is Ok <==> old(self).covers(index@),
            r is Ok ==> final(self).entries() == entries_with(
                old(self).entries(),
                index@,
                chunk@,
            ),
            r is Err ==> r->Err_0 == Error::IndexNotCovered && *final(self) == *old(self),
    {
        let n = self.nodes.len();
        let mut i: usize = 0;
        while i < n
            invariant
                self.wf(),
                *self == *old(self),
                n == self.nodes@.len(),
                i <= n,
                forall|p: int| 0 <= p < i ==> self.entries()[p].0@ != index@,
            decreases n - i,
        {
            if self.nodes[i].0 == *index {
                let key = self.nodes[i].0;
                self.nodes[i] = (key, chunk);
                proof {
                    assert(old(self).entries()[i as int].0@ == index@);
                    assert(forall|p: int|
                        0 <= p < self.entries().len() && p != i ==> self.entries()[p]
                            == old(self).entries()[p]);
                    assert(forall|p: int|
                        0 <= p < self.entries().len() ==> self.entries()[p].0 == old(
                            self,
                        ).entries()[p].0);
                    assert(self.entries() =~= entries_with(old(self).entries(), index@, chunk@));
                }
                return Ok(());
            }
            i = i + 1;
        }
        Err(Error::IndexNotCovered)
    }

    /// The deterministic root implied by the current contents.
    pub fn root(&self) -> (r: [u8; 32])
        ensures
            r@ == spec_root(self.entries()),
    {
        let mut acc: [u8; 32] = [0u8; 32];
        proof {
            assert(acc@ =~= Seq::new(32, |_j: int| 0u8));
            assert(self.entries().skip(0) =~= self.entries());
        }
        let n = self.nodes.len();
        let mut i: usize = 0;
        while i < n
            invariant
                n == self.nodes@.len(),
                i <= n,
                acc@.len() == 32,
                root_rec(self.entries().skip(i as int), acc@) == spec_root(self.entries()),
            decreases n - i,
        {
            let ib: [u8; 33] = self.nodes[i].0.as_le_bytes();
            let ghost prev = acc@;
            let ghost e = self.entries()[i as int];
            let mut j: usize = 0;
            while j < 32
                invariant
                    j <= 32,
                    acc@.len() == 32,
                    ib@ == e.0.spec_le_bytes(),
                    e.1.len() == 32,
                    0 <= i < self.nodes@.len(),
                    e == self.entries()[i as int],
                    e.1 == self.nodes@[i as int].1@,
                    prev.len() == 32,
                    forall|q: int| j <= q < 32 ==> acc@[q] == prev[q],
                    forall|q: int| 0 <= q < j ==> acc@[q] == mix_node(prev, e.0, e.1)[q],
                decreases 32 - j,
            {
                let extra: u8 = if j == 0 {
                    ib[32]
                } else {
                    0
                };
                let v: u32 = (acc[j] as u32) * 3 + (ib[j] as u32) + (self.nodes[i].1[j] as u32) + (
                extra as u32);
                acc[j] = (v % 256) as u8;
                j = j + 1;
            }
            proof {
                assert(acc@ =~= mix_node(prev, e.0, e.1));
                assert(self.entries().skip(i as int).skip(1) =~= self.entries().skip(i + 1));
                assert(self.entries().skip(i as int)[0] == e);
            }
            i = i + 1;
        }
        proof {
            assert(self.entries().skip(n as int) =~= Seq::<(U264, Seq<u8>)>::empty());
        }
        acc
    }

    /// Reads the balance field of `address`.
    pub fn value(&self, address: &Address) -> (r: Result<u64, Error>)
        requires
            self.wf(),
        ensures
            ({
                let k = value_index_spec(*address, self.spec_height() as nat);
                &&& r is Ok <==> self.covers(k)
                &&& r is Ok ==> r->Ok_0 == chunk_low8(self.chunk_of(k))
                &&& r is Err ==> r->Err_0 == Error::IndexNotCovered
            }),
    {
        let index = calc_value_index(address, self.height);
        match self.get(&index) {
            Ok(chunk) => Ok(crate::encoding::chunk_value(&chunk)),
            Err(e) => Err(e),
        }
    }

    /// Reads the nonce field of `address`.
    pub fn nonce(&self, address: &Address) -> (r: Result<u64, Error>)
        requires
            self.wf(),
        ensures
            ({
                let k = nonce_index_spec(*address, self.spec_height() as nat);
                &&& r is Ok <==> self.covers(k)
                &&& r is Ok ==> r->Ok_0 == chunk_low8(self.chunk_of(k))
                &&& r is Err ==> r->Err_0 == Error::IndexNotCovered
            }),
    {
        let index = calc_nonce_index(address, self.height);
        match self.get(&index) {
            Ok(chunk) => Ok(crate::encoding::chunk_value(&chunk)),
            Err(e) => Err(e),
        }
    }

    /// Adds `amount` to the balance of `address` and writes the leaf back in
    /// field form. Fails with `Overflow`, leaving the store unchanged, if the
    /// sum would leave the 64-bit range.
    pub fn add_value(&mut self, address: &Address, amount: u64) -> (r: Result<u64, Error>)
        requires
            old(self).wf(),
        ensures
            final(self).wf(),
            final(self).spec_height() == old(self).spec_height(),
            ({
                let k = value_index_spec(*address, old(self).spec_height() as nat);
                let cur = chunk_low8(old(self).chunk_of(k));
                &&& r is Ok <==> old(self).covers(k) && cur + amount <= u64::MAX
                &&& r is Ok ==> r->Ok_0 == cur + amount && final(self).entries() == entries_with(
                    old(self).entries(),
                    k,
                    field_chunk_spec((cur + amount) as u64),
                )
                &&& !old(self).covers(k) ==> r == Err::<u64, Error>(Error::IndexNotCovered)
                    && *final(self) == *old(self)
                &&& old(self).covers(k) && cur + amount > u64::MAX ==> r == Err::<u64, Error>(
                    Error::Overflow,
                ) && *final(self) == *old(self)
            }),
    {
        let index = calc_value_index(address, self.height);
        let chunk = match self.get(&index) {
            Ok(c) => c,
            Err(e) => {
                return Err(e);
            },
        };
        let cur = crate::encoding::chunk_value(&chunk);
        let next = match cur.checked_add(amount) {
            Some(v) => v,
            None => {
                return Err(Error::Overflow);
            },
        };
        let buf = field_chunk(next);
        let _ = self.update(&index, buf);
        Ok(next)
    }

    /// Subtracts `amount` from the balance of `address` and writes the leaf
    /// back in field form. Fails with `Overflow`, leaving the store
    /// unchanged, if the difference would go below zero.
    pub fn sub_value(&mut self, address: &Address, amount: u64) -> (r: Result<u64, Error>)
        requires
            old(self).wf(),
        ensures
            final(self).wf(),
            final(self).spec_height() == old(self).spec_height(),
            ({
                let k = value_index_spec(*address, old(self).spec_height() as nat);
                let cur = chunk_low8(old(self).chunk_of(k));
                &&& r is Ok <==> old(self).covers(k) && cur >= amount
                &&& r is Ok ==> r->Ok_0 == cur - amount && final(self).entries() == entries_with(
                    old(self).entries(),
                    k,
                    field_chunk_spec((cur - amount) as u64),
                )
                &&& !old(self).covers(k) ==> r == Err::<u64, Error>(Error::IndexNotCovered)
                    && *final(self) == *old(self)
                &&& old(self).covers(k) && cur < amount ==> r == Err::<u64, Error>(Error::Overflow)
                    && *final(self) == *old(self)
            }),
    {
        let index = calc_value_index(address, self.height);
        let chunk = match self.get(&index) {
            Ok(c) => c,
            Err(e) => {
                return Err(e);
            },
        };
        let cur = crate::encoding::chunk_value(&chunk);
        let next = match cur.checked_sub(amount) {
            Some(v) => v,
            None => {
                return Err(Error::Overflow);
            },
        };
        let buf = field_chunk(next);
        let _ = self.update(&index, buf);
        Ok(next)
    }

    /// Increments the nonce of `address` by exactly one and writes the leaf
    /// back in field form. Fails with `Overflow`, leaving the store
    /// unchanged, at the maximum nonce.
    pub fn inc_nonce(&mut self, address: &Address) -> (r: Result<u64, Error>)
        requires
            old(self).wf(),
        ensures
            final(self).wf(),
            final(self).spec_height() == old(self).spec_height(),
            ({
                let k = nonce_index_spec(*address, old(self).spec_height() as nat);
                let cur = chunk_low8(old(self).chunk_of(k));
                &&& r is Ok <==> old(self).covers(k) && cur + 1 <= u64::MAX
                &&& r is Ok ==> r->Ok_0 == cur + 1 && final(self).entries() == entries_with(
                    old(self).entries(),
                    k,
                    field_chunk_spec((cur + 1) as u64),
                )
                &&& !old(self).covers(k) ==> r == Err::<u64, Error>(Error::IndexNotCovered)
                    && *final(self) == *old(self)
                &&& old(self).covers(k) && cur == u64::MAX ==> r == Err::<u64, Error>(
                    Error::Overflow,
                ) && *final(self) == *old(self)
            }),
    {
        let index = calc_nonce_index(address, self.height);
        let chunk = match self.get(&index) {
            Ok(c) => c,
            Err(e) => {
                return Err(e);
            },
        };
        let cur = crate::encoding::chunk_value(&chunk);
        let next = match cur.checked_add(1) {
            Some(v) => v,
            None => {
                return Err(Error::Overflow);
            },
        };
        let buf = field_chunk(next);
        let _ = self.update(&index, buf);
        Ok(next)
    }
}

} // verus!
