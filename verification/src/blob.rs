//! Blob assembly and decoding: a transition payload is the serialized
//! transactions followed by the compressed witness, and the witness section
//! is `offsets ++ values`, one 8-byte little-endian offset per proof index
//! followed by the 32-byte values in the same order; the index count is the
//! section length divided by the 40-byte entry footprint. The transaction
//! bytes themselves are opaque here: decoding and executing transactions
//! belongs to an external collaborator, which hands this layer the field
//! operations to apply.
use crate::encoding::{chunk_low8, field_chunk_spec, le_val, lemma_u64_le_seq_val, push_u64_le, read_chunk32, u64_from_le_slice, u64_le_seq};
use crate::error::Error;
use crate::offsets::{compress, decode_offsets, decompress, depth, index_vals, offset_vals, valid_indices};
use crate::state::{
    chunk_in, covers_in, entries_with, idx_in, nonce_index_spec, spec_root, value_index_spec, Address,
    PartialTree,
};
use crate::u264::U264;
use vstd::prelude::*;

verus! {

/// A transition payload: opaque serialized transactions and the compressed
/// witness section.
#[derive(Clone)]
pub struct Blob {
    pub transactions: Vec<u8>,
    pub proof: Vec<u8>,
}

impl Blob {
    /// The full wire form: transactions first, then the witness section.
    pub fn to_bytes(&self) -> (r: Vec<u8>)
        ensures
            r@ == self.transactions@ + self.proof@,
    {
        let mut ret: Vec<u8> = Vec::new();
        ret.extend_from_slice(self.transactions.as_slice());
        ret.extend_from_slice(self.proof.as_slice());
        proof {
            assert(ret@ =~= self.transactions@ + self.proof@);
        }
        ret
    }
}

/// The serialized offset list: each offset as 8 little-endian bytes.
pub open spec fn offsets_wire(ds: Seq<u64>) -> Seq<u8>
    decreases ds.len(),
{
    if ds.len() == 0 {
        Seq::<u8>::empty()
    } else {
        u64_le_seq(ds[0]) + offsets_wire(ds.skip(1))
    }
}

/// The serialized value list: the 32-byte chunks in order.
pub open spec fn chunks_wire(cs: Seq<Seq<u8>>) -> Seq<u8>
    decreases cs.len(),
{
    if cs.len() == 0 {
        Seq::<u8>::empty()
    } else {
        cs[0] + chunks_wire(cs.skip(1))
    }
}

/// The witness section: the offsets, then the values.
pub open spec fn proof_wire(ds: Seq<u64>, cs: Seq<Seq<u8>>) -> Seq<u8> {
    offsets_wire(ds) + chunks_wire(cs)
}

/// The index count a witness section carries: its length over the 40-byte
/// footprint of an entry (8 offset bytes and a 32-byte value).
pub open spec fn wire_count(b: Seq<u8>) -> nat {
    b.len() / 40
}

/// Whether a witness section is a whole number of entries.
pub open spec fn wire_ok(b: Seq<u8>) -> bool {
    b.len() % 40 == 0
}

/// The offset values stored in a witness section with `n` entries.
pub open spec fn wire_offsets(b: Seq<u8>, n: nat) -> Seq<nat> {
    Seq::new(n, |i: int| le_val(b.subrange(8 * i, 8 * i + 8)))
}

/// The value chunks stored in a witness section with `n` entries.
pub open spec fn wire_chunks(b: Seq<u8>, n: nat) -> Seq<Seq<u8>> {
    Seq::new(n, |i: int| b.subrange(8 * n + 32 * i, 8 * n + 32 * i + 32))
}

/// Assembles a blob from opaque transaction bytes and the witness an
/// external proof generator produced: the index list is compressed and laid
/// out with the values in matching order. Fails exactly when the index list
/// is no legitimate proof list or the value count does not match.
pub fn generate(transactions: Vec<u8>, indices: &Vec<U264>, values: &Vec<[u8; 32]>) -> (r: Option<
    Blob,
>)
    ensures
        r is Some <==> valid_indices(index_vals(indices@)) && indices@.len() == values@.len(),
        r is Some ==> ({
            let b = r->0;
            &&& b.transactions@ == transactions@
            &&& b.proof@ == proof_wire(
                index_vals(indices@).map_values(|v: nat| depth(v)).map_values(|d: nat| d as u64),
                values@.map_values(|c: [u8; 32]| c@),
            )
        }),
{
    if indices.len() != values.len() {
        return None;
    }
    let offs = match compress(indices) {
        Some(o) => o,
        None => {
            return None;
        },
    };
    let ghost ds = offs@;
    let ghost cs = values@.map_values(|c: [u8; 32]| c@);
    proof {
        assert(ds =~= index_vals(indices@).map_values(|v: nat| depth(v)).map_values(
            |d: nat| d as u64,
        )) by {
            assert(forall|i: int|
                0 <= i < ds.len() ==> ds[i] == index_vals(indices@).map_values(
                    |v: nat| depth(v),
                )[i]);
        }
    }
    let mut proof_bytes: Vec<u8> = Vec::new();
    let n = offs.len();
    proof {
        assert(proof_bytes@ =~= offsets_wire(ds.take(0)));
    }
    let mut i: usize = 0;
    while i < n
        invariant
            n == offs@.len(),
            i <= n,
            ds == offs@,
            proof_bytes@ == offsets_wire(ds.take(i as int)),
        decreases n - i,
    {
        push_u64_le(&mut proof_bytes, offs[i]);
        proof {
            lemma_offsets_wire_snoc(ds, i as int);
            assert(proof_bytes@ =~= offsets_wire(ds.take(i + 1)));
        }
        i = i + 1;
    }
    proof {
        assert(ds.take(n as int) =~= ds);
    }
    let mut k: usize = 0;
    while k < n
        invariant
            n == offs@.len() == values@.len(),
            k <= n,
            ds == offs@,
            cs == values@.map_values(|c: [u8; 32]| c@),
            proof_bytes@ == offsets_wire(ds) + chunks_wire(cs.take(k as int)),
        decreases n - k,
    {
        proof_bytes.extend_from_slice(values[k].as_slice());
        proof {
            lemma_chunks_wire_snoc(cs, k as int);
            assert(proof_bytes@ =~= offsets_wire(ds) + chunks_wire(cs.take(k + 1)));
        }
        k = k + 1;
    }
    proof {
        assert(cs.take(n as int) =~= cs);
    }
    Some(Blob { transactions, proof: proof_bytes })
}

/// Appending one more offset extends the serialized offset list at the end.
proof fn lemma_offsets_wire_snoc(ds: Seq<u64>, i: int)
    requires
        0 <= i < ds.len(),
    ensures
        offsets_wire(ds.take(i + 1)) == offsets_wire(ds.take(i)) + u64_le_seq(ds[i]),
    decreases i,
{
    if i == 0 {
        assert(ds.take(1) =~= seq![ds[0]]);
        assert(seq![ds[0]].skip(1) =~= Seq::<u64>::empty());
        assert(offsets_wire(seq![ds[0]]) == u64_le_seq(ds[0]) + offsets_wire(
            Seq::<u64>::empty(),
        ));
        assert(ds.take(0) =~= Seq::<u64>::empty());
        assert(u64_le_seq(ds[0]) + Seq::<u8>::empty() =~= u64_le_seq(ds[0]));
        assert(Seq::<u8>::empty() + u64_le_seq(ds[0]) =~= u64_le_seq(ds[0]));
    } else {
        lemma_offsets_wire_snoc(ds.skip(1), i - 1);
        assert(ds.skip(1).take(i) =~= ds.take(i + 1).skip(1));
        assert(ds.skip(1).take(i - 1) =~= ds.take(i).skip(1));
        assert(ds.skip(1)[i - 1] == ds[i]);
        assert(ds.take(i + 1)[0] == ds[0]);
        assert(ds.take(i)[0] == ds[0]);
        assert(offsets_wire(ds.take(i + 1)) == u64_le_seq(ds[0]) + offsets_wire(
            ds.take(i + 1).skip(1),
        ));
        assert(offsets_wire(ds.take(i)) == u64_le_seq(ds[0]) + offsets_wire(ds.take(i).skip(1)));
        assert(u64_le_seq(ds[0]) + (offsets_wire(ds.skip(1).take(i - 1)) + u64_le_seq(ds[i]))
            =~= (u64_le_seq(ds[0]) + offsets_wire(ds.skip(1).take(i - 1))) + u64_le_seq(ds[i]));
    }
}

/// Appending one more chunk extends the serialized value list at the end.
proof fn lemma_chunks_wire_snoc(cs: Seq<Seq<u8>>, i: int)
    requires
        0 <= i < cs.len(),
    ensures
        chunks_wire(cs.take(i + 1)) == chunks_wire(cs.take(i)) + cs[i],
    decreases i,
{
    if i == 0 {
        assert(cs.take(1) =~= seq![cs[0]]);
        assert(seq![cs[0]].skip(1) =~= Seq::<Seq<u8>>::empty());
        assert(cs.take(0) =~= Seq::<Seq<u8>>::empty());
        assert(cs[0] + Seq::<u8>::empty() =~= cs[0]);
        assert(Seq::<u8>::empty() + cs[0] =~= cs[0]);
    } else {
        lemma_chunks_wire_snoc(cs.skip(1), i - 1);
        assert(cs.skip(1).take(i) =~= cs.take(i + 1).skip(1));
        assert(cs.skip(1).take(i - 1) =~= cs.take(i).skip(1));
        assert(cs.skip(1)[i - 1] == cs[i]);
        assert(chunks_wire(cs.take(i + 1)) == cs[0] + chunks_wire(cs.take(i + 1).skip(1)));
        assert(chunks_wire(cs.take(i)) == cs[0] + chunks_wire(cs.take(i).skip(1)));
        assert(cs[0] + (chunks_wire(cs.skip(1).take(i - 1)) + cs[i]) =~= (cs[0] + chunks_wire(
            cs.skip(1).take(i - 1),
        )) + cs[i]);
    }
}

/// The serialized offset list is 8 bytes per offset.
proof fn lemma_offsets_wire_len(ds: Seq<u64>)
    ensures
        offsets_wire(ds).len() == 8 * ds.len(),
    decreases ds.len(),
{
    if ds.len() > 0 {
        lemma_offsets_wire_len(ds.skip(1));
    }
}

/// The serialized value list is 32 bytes per chunk.
proof fn lemma_chunks_wire_len(cs: Seq<Seq<u8>>)
    requires
        forall|i: int| 0 <= i < cs.len() ==> (#[trigger] cs[i]).len() == 32,
    ensures
        chunks_wire(cs).len() == 32 * cs.len(),
    decreases cs.len(),
{
    if cs.len() > 0 {
        assert(forall|i: int|
            0 <= i < cs.skip(1).len() ==> (#[trigger] cs.skip(1)[i]).len() == 32);
        lemma_chunks_wire_len(cs.skip(1));
    }
}

/// The `i`-th 8-byte group of the serialized offset list is the `i`-th
/// offset.
proof fn lemma_offsets_wire_extract(ds: Seq<u64>, i: int)
    requires
        0 <= i < ds.len(),
    ensures
        offsets_wire(ds).subrange(8 * i, 8 * i + 8) == u64_le_seq(ds[i]),
    decreases i,
{
    lemma_offsets_wire_len(ds);
    lemma_offsets_wire_len(ds.skip(1));
    if i == 0 {
        assert(offsets_wire(ds).subrange(0, 8) =~= u64_le_seq(ds[0]));
    } else {
        lemma_offsets_wire_extract(ds.skip(1), i - 1);
        assert(offsets_wire(ds).subrange(8 * i, 8 * i + 8) =~= offsets_wire(ds.skip(1)).subrange(
            8 * (i - 1),
            8 * (i - 1) + 8,
        ));
    }
}

/// The `i`-th 32-byte group of the serialized value list is the `i`-th
/// chunk.
proof fn lemma_chunks_wire_extract(cs: Seq<Seq<u8>>, i: int)
    requires
        forall|j: int| 0 <= j < cs.len() ==> (#[trigger] cs[j]).len() == 32,
        0 <= i < cs.len(),
    ensures
        chunks_wire(cs).subrange(32 * i, 32 * i + 32) == cs[i],
    decreases i,
{
    lemma_chunks_wire_len(cs);
    assert(forall|j: int| 0 <= j < cs.skip(1).len() ==> (#[trigger] cs.skip(1)[j]).len() == 32);
    lemma_chunks_wire_len(cs.skip(1));
    if i == 0 {
        assert(chunks_wire(cs).subrange(0, 32) =~= cs[0]);
    } else {
        lemma_chunks_wire_extract(cs.skip(1), i - 1);
        assert(chunks_wire(cs).subrange(32 * i, 32 * i + 32) =~= chunks_wire(cs.skip(1)).subrange(
            32 * (i - 1),
            32 * (i - 1) + 32,
        ));
    }
}

/// Wire round-trip: parsing a freshly assembled witness section yields back
/// exactly the count, the offsets and the values it was assembled from, in
/// matching order.
pub proof fn lemma_wire_round_trip(ds: Seq<u64>, cs: Seq<Seq<u8>>)
    requires
        ds.len() == cs.len(),
        forall|i: int| 0 <= i < cs.len() ==> (#[trigger] cs[i]).len() == 32,
    ensures
        wire_ok(proof_wire(ds, cs)),
        wire_count(proof_wire(ds, cs)) == ds.len(),
        wire_offsets(proof_wire(ds, cs), ds.len() as nat) == offset_vals(ds),
        wire_chunks(proof_wire(ds, cs), ds.len() as nat) == cs,
{
    let b = proof_wire(ds, cs);
    let n = ds.len() as int;
    lemma_offsets_wire_len(ds);
    lemma_chunks_wire_len(cs);
    assert(b.len() == 40 * n);
    vstd::arithmetic::div_mod::lemma_div_multiples_vanish(n, 40);
    vstd::arithmetic::div_mod::lemma_mod_multiples_basic(n, 40);
    assert(wire_count(b) == ds.len());
    assert(wire_ok(b));
    assert forall|i: int| 0 <= i < n implies wire_offsets(b, ds.len() as nat)[i] == offset_vals(
        ds,
    )[i] by {
        lemma_offsets_wire_extract(ds, i);
        assert(b.subrange(8 * i, 8 * i + 8) =~= offsets_wire(ds).subrange(8 * i, 8 * i + 8));
        lemma_u64_le_seq_val(ds[i]);
    }
    assert(wire_offsets(b, ds.len() as nat) =~= offset_vals(ds));
    assert forall|i: int| 0 <= i < n implies wire_chunks(b, ds.len() as nat)[i] == cs[i] by {
        lemma_chunks_wire_extract(cs, i);
        assert(b.subrange(8 * n + 32 * i, 8 * n + 32 * i + 32) =~= chunks_wire(cs).subrange(
            32 * i,
            32 * i + 32,
        ));
    }
    assert(wire_chunks(b, ds.len() as nat) =~= cs);
}

/// Compression round-trip at the payload level: for any legitimate proof
/// index list, the witness section assembled from its compressed offsets and
/// its values hands back, on decoding, exactly the original index list, and
/// the values survive untouched in matching order.
pub proof fn lemma_blob_round_trip(ixs: Seq<nat>, cs: Seq<Seq<u8>>)
    requires
        valid_indices(ixs),
        ixs.len() == cs.len(),
        forall|i: int| 0 <= i < cs.len() ==> (#[trigger] cs[i]).len() == 32,
    ensures
        ({
            let ds = ixs.map_values(|v: nat| depth(v)).map_values(|d: nat| d as u64);
            let b = proof_wire(ds, cs);
            &&& wire_ok(b)
            &&& wire_count(b) == ixs.len()
            &&& decode_offsets(wire_offsets(b, wire_count(b))) == Some(ixs)
            &&& wire_chunks(b, wire_count(b)) == cs
        }),
{
    let ds = ixs.map_values(|v: nat| depth(v)).map_values(|d: nat| d as u64);
    let b = proof_wire(ds, cs);
    lemma_wire_round_trip(ds, cs);
    crate::offsets::lemma_compress_round_trip(ixs);
    assert(offset_vals(ds) =~= ixs.map_values(|v: nat| depth(v))) by {
        assert(forall|i: int|
            0 <= i < ixs.len() ==> 1 <= #[trigger] ixs[i] && depth(ixs[i]) <= 263);
        assert forall|i: int| 0 <= i < ds.len() implies offset_vals(ds)[i] == ixs.map_values(
            |v: nat| depth(v),
        )[i] by {
            assert(depth(ixs[i]) <= 263);
        }
    }
}

/// Rebuilds a partial tree from a witness section: derives the entry count
/// from the section length, reads the offsets and the values, replays the
/// offset walk back into indices, and stores the nodes. Fails exactly when
/// the section is no whole number of entries, the walk replay fails, or the
/// recovered indices collide.
pub fn reconstruct(bytes: &Vec<u8>, height: u64) -> (r: Option<PartialTree>)
    requires
        1 <= height <= 256,
    ensures
        r is Some <==> wire_ok(bytes@) && decode_offsets(wire_offsets(bytes@, wire_count(bytes@)))
            is Some && ({
            let ids = decode_offsets(wire_offsets(bytes@, wire_count(bytes@)))->0;
            forall|i: int, j: int| 0 <= i < j < ids.len() ==> ids[i] != ids[j]
        }),
        r is Some ==> (r->0).wf() && (r->0).spec_height() == height && (r->0).entries().len()
            == wire_count(bytes@),
        r is Some ==> forall|i: int|
            0 <= i < wire_count(bytes@) ==> (#[trigger] (r->0).entries()[i]).0@ == decode_offsets(
                wire_offsets(bytes@, wire_count(bytes@)),
            )->0[i] && (r->0).entries()[i].1 == wire_chunks(bytes@, wire_count(bytes@))[i],
{
    let n = bytes.len() / 40;
    if bytes.len() != n * 40 {
        proof {
            assert(!wire_ok(bytes@));
        }
        return None;
    }
    proof {
        assert(wire_count(bytes@) == n as nat);
        assert(40 * (n as int) <= usize::MAX as int);
    }
    let mut offsets: Vec<u64> = Vec::new();
    let mut i: usize = 0;
    while i < n
        invariant
            bytes@.len() == 40 * (n as int),
            40 * (n as int) <= usize::MAX as int,
            offsets@.len() == i,
            i <= n,
            forall|j: int|
                0 <= j < i ==> offsets@[j] == le_val(bytes@.subrange(8 * j, 8 * j + 8)),
        decreases n - i,
    {
        let o = u64_from_le_slice(bytes.as_slice(), 8 * i);
        offsets.push(o);
        i = i + 1;
    }
    proof {
        assert(offset_vals(offsets@) =~= wire_offsets(bytes@, n as nat));
    }
    let indices = match decompress(&offsets) {
        Some(ix) => ix,
        None => {
            return None;
        },
    };
    let mut chunks: Vec<[u8; 32]> = Vec::new();
    let mut k: usize = 0;
    while k < n
        invariant
            bytes@.len() == 40 * (n as int),
            40 * (n as int) <= usize::MAX as int,
            chunks@.len() == k,
            k <= n,
            forall|j: int|
                0 <= j < k ==> chunks@[j]@ == bytes@.subrange(
                    8 * (n as int) + 32 * j,
                    8 * (n as int) + 32 * j + 32,
                ),
        decreases n - k,
    {
        let c = read_chunk32(bytes.as_slice(), 8 * n + 32 * k);
        chunks.push(c);
        k = k + 1;
    }
    proof {
        assert forall|j: int| 0 <= j < n implies chunks@[j]@ == wire_chunks(bytes@, n as nat)[j] by {
            assert(wire_chunks(bytes@, n as nat)[j] == bytes@.subrange(
                8 * (n as int) + 32 * j,
                8 * (n as int) + 32 * j + 32,
            ));
        }
        assert(indices@.len() == offsets@.len());
    }
    let t = match PartialTree::from_nodes(height, &indices, &chunks) {
        Some(t) => t,
        None => {
            proof {
                let ids = decode_offsets(wire_offsets(bytes@, wire_count(bytes@)))->0;
                assert(index_vals(indices@) == ids);
                assert(forall|i: int|
                    0 <= i < indices@.len() ==> ids[i] == #[trigger] indices@[i]@);
                assert(!(forall|i: int, j: int| 0 <= i < j < ids.len() ==> ids[i] != ids[j])) by {
                    if forall|i: int, j: int| 0 <= i < j < ids.len() ==> ids[i] != ids[j] {
                        assert forall|i: int, j: int|
                            0 <= i < j < indices@.len() implies indices@[i]@ != indices@[j]@ by {
                            assert(ids[i] != ids[j]);
                        }
                    }
                }
            }
            return None;
        },
    };
    proof {
        let ids = decode_offsets(wire_offsets(bytes@, wire_count(bytes@)))->0;
        assert(index_vals(indices@) == ids);
        assert(forall|i: int| 0 <= i < indices@.len() ==> ids[i] == #[trigger] indices@[i]@);
        assert forall|i: int, j: int| 0 <= i < j < ids.len() implies ids[i] != ids[j] by {
            assert(indices@[i]@ != indices@[j]@);
        }
        assert(t.entries().len() == wire_count(bytes@));
        assert(t.wf());
        assert(t.spec_height() == height);
        assert(wire_ok(bytes@));
        assert(decode_offsets(wire_offsets(bytes@, wire_count(bytes@))) is Some);
        let rr: Option<PartialTree> = Some(t);
        assert forall|i: int| 0 <= i < wire_count(bytes@) implies (#[trigger] (rr->0).entries()[i]).0@
            == decode_offsets(wire_offsets(bytes@, wire_count(bytes@)))->0[i]
            && (rr->0).entries()[i].1 == wire_chunks(bytes@, wire_count(bytes@))[i] by {
            assert((rr->0) == t);
            assert(t.entries()[i].0 == indices@[i]);
            assert(t.entries()[i].1 == chunks@[i]@);
            assert(t.entries()[i].0@ == ids[i]);
        }
    }
    Some(t)
}

/// One account-field mutation handed down by the external transaction
/// executor.
#[derive(Clone, Copy, Debug)]
pub enum Op {
    /// Add the amount to the balance of the address.
    AddValue(Address, u64),
    /// Subtract the amount from the balance of the address.
    SubValue(Address, u64),
    /// Increment the nonce of the address.
    IncNonce(Address),
}

/// The effect of one operation on a node list: the new node list, or the
/// failure the accessor layer reports.
pub open spec fn apply_op(es: Seq<(U264, Seq<u8>)>, h: nat, op: Op) -> Result<
    Seq<(U264, Seq<u8>)>,
    Error,
> {
    match op {
        Op::AddValue(a, amount) => {
            let k = value_index_spec(a, h);
            if !covers_in(es, k) {
                Err(Error::IndexNotCovered)
            } else if chunk_low8(chunk_in(es, k)) + amount > u64::MAX {
                Err(Error::Overflow)
            } else {
                Ok(
                    entries_with(
                        es,
                        k,
                        field_chunk_spec((chunk_low8(chunk_in(es, k)) + amount) as u64),
                    ),
                )
            }
        },
        Op::SubValue(a, amount) => {
            let k = value_index_spec(a, h);
            if !covers_in(es, k) {
                Err(Error::IndexNotCovered)
            } else if chunk_low8(chunk_in(es, k)) < amount {
                Err(Error::Overflow)
            } else {
                Ok(
                    entries_with(
                        es,
                        k,
                        field_chunk_spec((chunk_low8(chunk_in(es, k)) - amount) as u64),
                    ),
                )
            }
        },
        Op::IncNonce(a) => {
            let k = nonce_index_spec(a, h);
            if !covers_in(es, k) {
                Err(Error::IndexNotCovered)
            } else if chunk_low8(chunk_in(es, k)) + 1 > u64::MAX {
                Err(Error::Overflow)
            } else {
                Ok(entries_with(es, k, field_chunk_spec((chunk_low8(chunk_in(es, k)) + 1) as u64)))
            }
        },
    }
}

/// Runs operations in order, stopping at the first failure: the final node
/// list together with the outcome.
pub open spec fn exec_ops(es: Seq<(U264, Seq<u8>)>, h: nat, ops: Seq<Op>) -> (
    Seq<(U264, Seq<u8>)>,
    Result<(), Error>,
)
    decreases ops.len(),
{
    if ops.len() == 0 {
        (es, Ok(()))
    } else {
        match apply_op(es, h, ops[0]) {
            Ok(es2) => exec_ops(es2, h, ops.skip(1)),
            Err(e) => (es, Err(e)),
        }
    }
}

/// Applies one operation through the accessor layer; its result is exactly
/// what the operation's specification demands.
#[verifier::rlimit(60)]
fn apply_one(tree: &mut PartialTree, op: Op) -> (r: Result<u64, Error>)
    requires
        old(tree).wf(),
    ensures
        final(tree).wf(),
        final(tree).spec_height() == old(tree).spec_height(),
        ({
            let ap = apply_op(old(tree).entries(), old(tree).spec_height() as nat, op);
            &&& r is Ok ==> ap == Ok::<Seq<(U264, Seq<u8>)>, Error>(final(tree).entries())
            &&& r is Err ==> ap == Err::<Seq<(U264, Seq<u8>)>, Error>(r->Err_0) && *final(tree)
                == *old(tree)
        }),
{
    match op {
        Op::AddValue(a, amount) => {
            proof {
                lemma_covered_chunk_bound(
                    old(tree).entries(),
                    value_index_spec(a, old(tree).spec_height() as nat),
                );
            }
            tree.add_value(&a, amount)
        },
        Op::SubValue(a, amount) => {
            proof {
                lemma_covered_chunk_bound(
                    old(tree).entries(),
                    value_index_spec(a, old(tree).spec_height() as nat),
                );
            }
            tree.sub_value(&a, amount)
        },
        Op::IncNonce(a) => {
            proof {
                lemma_covered_chunk_bound(
                    old(tree).entries(),
                    nonce_index_spec(a, old(tree).spec_height() as nat),
                );
            }
            tree.inc_nonce(&a)
        },
    }
}

/// A covered leaf stores a scalar that fits in 64 bits.
proof fn lemma_covered_chunk_bound(es: Seq<(U264, Seq<u8>)>, k: nat)
    requires
        forall|i: int| 0 <= i < es.len() ==> (#[trigger] es[i].1).len() == 32,
    ensures
        covers_in(es, k) ==> chunk_low8(chunk_in(es, k)) <= u64::MAX,
{
    if covers_in(es, k) {
        let i = idx_in(es, k);
        assert(0 <= i < es.len() && es[i].0@ == k);
        lemma_chunk_low8_bound(es[i].1);
    }
}

/// The scalar read from a 32-byte leaf fits in 64 bits.
proof fn lemma_chunk_low8_bound(s: Seq<u8>)
    requires
        s.len() == 32,
    ensures
        chunk_low8(s) <= u64::MAX,
{
    crate::encoding::lemma_le_val_bound(s.take(8));
    crate::u264::lemma_pow2_constants();
    assert(s.take(8).len() == 8);
}

/// Applies the operations to the store strictly in order, stopping at the
/// first failure, which is reported unchanged.
pub fn process(tree: &mut PartialTree, ops: &Vec<Op>) -> (r: Result<(), Error>)
    requires
        old(tree).wf(),
    ensures
        final(tree).wf(),
        final(tree).spec_height() == old(tree).spec_height(),
        (final(tree).entries(), r) == exec_ops(
            old(tree).entries(),
            old(tree).spec_height() as nat,
            ops@,
        ),
{
    let ghost h = tree.spec_height() as nat;
    let ghost es0 = tree.entries();
    let n = ops.len();
    let mut i: usize = 0;
    proof {
        assert(ops@.skip(0) =~= ops@);
    }
    while i < n
        invariant
            n == ops@.len(),
            i <= n,
            tree.wf(),
            tree.spec_height() == old(tree).spec_height(),
            h == old(tree).spec_height() as nat,
            es0 == old(tree).entries(),
            exec_ops(es0, h, ops@) == exec_ops(tree.entries(), h, ops@.skip(i as int)),
        decreases n - i,
    {
        let ghost tail = ops@.skip(i as int);
        proof {
            assert(tail[0] == ops@[i as int]);
            assert(tail.skip(1) =~= ops@.skip(i + 1));
        }
        match apply_one(tree, ops[i]) {
            Ok(_) => {},
            Err(e) => {
                proof {
                    assert(exec_ops(tree.entries(), h, tail) == (tree.entries(), Err::<(), Error>(
                        e,
                    )));
                }
                return Err(e);
            },
        }
        i = i + 1;
    }
    proof {
        assert(ops@.skip(n as int) =~= Seq::<Op>::empty());
    }
    Ok(())
}

/// The node list a witness carries: each index paired with its value.
pub open spec fn witness_entries(indices: Seq<U264>, values: Seq<[u8; 32]>) -> Seq<
    (U264, Seq<u8>),
> {
    Seq::new(indices.len(), |i: int| (indices[i], values[i]@))
}

/// Builds a blob and the pre- and post-transition roots it should produce:
/// the witness is compressed into the blob, a store is rebuilt from the
/// blob's own witness section, and the operations the external executor
/// derives from the transactions are applied between the two root reads.
/// Succeeds exactly when the blob can be built and every operation applies —
/// a failing operation here is a generator bug, not a runtime condition.
pub fn generate_with_roots(
    transactions: Vec<u8>,
    indices: &Vec<U264>,
    values: &Vec<[u8; 32]>,
    ops: &Vec<Op>,
    tree_height: u64,
) -> (r: Option<(Blob, [u8; 32], [u8; 32])>)
    requires
        1 <= tree_height <= 256,
    ensures
        r is Some <==> valid_indices(index_vals(indices@)) && indices@.len() == values@.len()
            && exec_ops(witness_entries(indices@, values@), tree_height as nat, ops@).1 is Ok,
        r is Some ==> ({
            let b = (r->0).0;
            let pre = (r->0).1;
            let post = (r->0).2;
            &&& b.transactions@ == transactions@
            &&& b.proof@ == proof_wire(
                index_vals(indices@).map_values(|v: nat| depth(v)).map_values(|d: nat| d as u64),
                values@.map_values(|c: [u8; 32]| c@),
            )
            &&& pre@ == spec_root(witness_entries(indices@, values@))
            &&& post@ == spec_root(
                exec_ops(witness_entries(indices@, values@), tree_height as nat, ops@).0,
            )
        }),
{
    let ghost ixs = index_vals(indices@);
    let ghost cs = values@.map_values(|c: [u8; 32]| c@);
    let ghost wes = witness_entries(indices@, values@);
    let blob = match generate(transactions, indices, values) {
        Some(b) => b,
        None => {
            return None;
        },
    };
    proof {
        assert(forall|i: int| 0 <= i < cs.len() ==> (#[trigger] cs[i]).len() == 32);
        lemma_blob_round_trip(ixs, cs);
        crate::offsets::lemma_valid_indices_distinct(ixs);
    }
    let mut tree = match reconstruct(&blob.proof, tree_height) {
        Some(t) => t,
        None => {
            // the round-trip lemmas rule this branch out for a witness that
            // `generate` accepted
            proof {
                let ids = decode_offsets(wire_offsets(blob.proof@, wire_count(blob.proof@)))->0;
                assert(ids == ixs);
                assert(forall|i: int, j: int|
                    0 <= i < j < ids.len() ==> ids[i] != ids[j]);
                assert(false);
            }
            return None;
        },
    };
    proof {
        let ids = decode_offsets(wire_offsets(blob.proof@, wire_count(blob.proof@)))->0;
        assert(ids == ixs);
        assert forall|i: int| 0 <= i < wes.len() implies tree.entries()[i] == wes[i] by {
            assert(tree.entries()[i].0@ == ids[i]);
            assert(ids[i] == indices@[i]@);
            crate::u264::lemma_view_injective(tree.entries()[i].0, indices@[i]);
            assert(tree.entries()[i].1 == wire_chunks(blob.proof@, wire_count(blob.proof@))[i]);
            assert(wire_chunks(blob.proof@, wire_count(blob.proof@))[i] == cs[i]);
        }
        assert(tree.entries() =~= wes);
        assert(tree.spec_height() == tree_height);
    }
    let pre = tree.root();
    match process(&mut tree, ops) {
        Ok(_) => {},
        Err(_) => {
            return None;
        },
    }
    let post = tree.root();
    Some((blob, pre, post))
}

/// Pre/post root oracle: two stores rebuilt from the same witness hold the
/// same nodes, so replaying the same operations from the same pre-state
/// reaches the same post-root; the roots a blob ships are reproducible.
pub proof fn lemma_replay_oracle(
    es1: Seq<(U264, Seq<u8>)>,
    es2: Seq<(U264, Seq<u8>)>,
    h: nat,
    ops: Seq<Op>,
)
    requires
        es1.len() == es2.len(),
        forall|i: int| 0 <= i < es1.len() ==> es1[i].0@ == es2[i].0@ && es1[i].1 == es2[i].1,
    ensures
        spec_root(es1) == spec_root(es2),
        exec_ops(es1, h, ops) == exec_ops(es2, h, ops),
{
    assert forall|i: int| 0 <= i < es1.len() implies es1[i] == es2[i] by {
        crate::u264::lemma_view_injective(es1[i].0, es2[i].0);
    }
    assert(es1 =~= es2);
}

} // verus!
