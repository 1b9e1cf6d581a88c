use sheth::blob::{generate, generate_with_roots, process, reconstruct, Op};
use sheth::state::Address;
use sheth::u264::U264;

fn chunk(v: u64) -> [u8; 32] {
    let mut c = [0u8; 32];
    c[..8].copy_from_slice(&v.to_le_bytes());
    c
}

fn addr(n: u8) -> Address {
    let mut a = [0u8; 32];
    a[0] = n;
    Address(a)
}

#[test]
fn generate_wire_layout() {
    let blob = generate(vec![9, 9, 9], &vec![U264::one()], &vec![chunk(7)]).unwrap();
    // one offset of depth 0, then one 32-byte value
    let mut expected = vec![0u8; 8];
    expected.extend(&chunk(7));
    assert_eq!(blob.proof, expected);
    let mut wire = vec![9u8, 9, 9];
    wire.extend(&expected);
    assert_eq!(blob.to_bytes(), wire);
}

#[test]
fn generate_rejects_bad_witnesses() {
    // value count does not match the index count
    assert!(generate(vec![], &vec![U264::one()], &vec![]).is_none());
    // an index list that is no legitimate proof list
    assert!(generate(vec![], &vec![U264::from_u8(5)], &vec![chunk(0)]).is_none());
}

#[test]
fn reconstruct_round_trip() {
    // account 0 at height 1: balance leaf 2, nonce leaf 3
    let indices = vec![U264::from_u8(2), U264::from_u8(3)];
    let values = vec![chunk(5), chunk(1)];
    let blob = generate(vec![], &indices, &values).unwrap();
    let tree = reconstruct(&blob.proof, 1).unwrap();
    assert_eq!(tree.get(&U264::from_u8(2)), Ok(chunk(5)));
    assert_eq!(tree.get(&U264::from_u8(3)), Ok(chunk(1)));
    assert_eq!(tree.value(&addr(0)), Ok(5));
    assert_eq!(tree.nonce(&addr(0)), Ok(1));
}

#[test]
fn reconstruct_rejects_malformed_sections() {
    // no whole number of entries
    assert!(reconstruct(&vec![1, 2, 3], 1).is_none());
    // one whole entry whose offset is no tree depth
    let mut bad = vec![44u8, 1, 0, 0, 0, 0, 0, 0];
    bad.extend(&[0u8; 32]);
    assert!(reconstruct(&bad, 1).is_none());
}

#[test]
fn process_applies_in_order() {
    let indices = vec![U264::from_u8(2), U264::from_u8(3)];
    let values = vec![chunk(5), chunk(1)];
    let blob = generate(vec![], &indices, &values).unwrap();
    let mut tree = reconstruct(&blob.proof, 1).unwrap();
    let ops = vec![Op::AddValue(addr(0), 3), Op::SubValue(addr(0), 2), Op::IncNonce(addr(0))];
    assert_eq!(process(&mut tree, &ops), Ok(()));
    assert_eq!(tree.value(&addr(0)), Ok(6));
    assert_eq!(tree.nonce(&addr(0)), Ok(2));
}

#[test]
fn process_stops_at_first_failure() {
    let indices = vec![U264::from_u8(2), U264::from_u8(3)];
    let values = vec![chunk(5), chunk(1)];
    let blob = generate(vec![], &indices, &values).unwrap();
    let mut tree = reconstruct(&blob.proof, 1).unwrap();
    let ops = vec![Op::AddValue(addr(0), 3), Op::SubValue(addr(0), 100), Op::IncNonce(addr(0))];
    assert_eq!(process(&mut tree, &ops), Err(sheth::error::Error::Overflow));
    // the first operation landed, the failing one and its successors did not
    assert_eq!(tree.value(&addr(0)), Ok(8));
    assert_eq!(tree.nonce(&addr(0)), Ok(1));
}

#[test]
fn pre_post_root_oracle() {
    let indices = vec![U264::from_u8(2), U264::from_u8(3)];
    let values = vec![chunk(5), chunk(1)];
    let ops = vec![Op::AddValue(addr(0), 3), Op::IncNonce(addr(0))];
    let (blob, pre, post) = generate_with_roots(vec![], &indices, &values, &ops, 1).unwrap();
    // replay independently against a store rebuilt from the same blob
    let mut replay = reconstruct(&blob.proof, 1).unwrap();
    assert_eq!(replay.root(), pre);
    assert_eq!(process(&mut replay, &ops), Ok(()));
    assert_eq!(replay.root(), post);
    assert!(pre != post);
}

#[test]
fn generate_with_roots_rejects_failing_operations() {
    let indices = vec![U264::from_u8(2), U264::from_u8(3)];
    let values = vec![chunk(5), chunk(1)];
    let ops = vec![Op::SubValue(addr(0), 100)];
    assert!(generate_with_roots(vec![], &indices, &values, &ops, 1).is_none());
}
