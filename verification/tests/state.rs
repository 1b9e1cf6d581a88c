use sheth::error::Error;
use sheth::state::{calc_nonce_index, calc_value_index, Address, PartialTree};
use sheth::u264::U264;

fn chunk(v: u64) -> [u8; 32] {
    let mut c = [0u8; 32];
    c[..8].copy_from_slice(&v.to_le_bytes());
    c
}

fn addr(n: u8) -> Address {
    let mut a = [0u8; 32];
    a[0] = n;
    Address(a)
}

/// A store of height 4 holding the balance and nonce leaves of address 0,
/// both set to 1, plus filler nodes as a witness would carry them.
fn small_tree() -> PartialTree {
    // account 0 at height 4: balance leaf 16, nonce leaf 17
    let indices = vec![
        U264::from_u8(16),
        U264::from_u8(17),
        U264::from_u8(9),
        U264::from_u8(10),
        U264::from_u8(11),
        U264::from_u8(3),
    ];
    let chunks = vec![chunk(1), chunk(1), chunk(0), chunk(0), chunk(0), chunk(0)];
    PartialTree::from_nodes(4, &indices, &chunks).unwrap()
}

#[test]
fn add_value() {
    let mut mem = small_tree();
    assert_eq!(mem.add_value(&addr(0), 1), Ok(2));
    let idx = calc_value_index(&addr(0), 4);
    assert_eq!(mem.get(&idx), Ok(chunk(2)));
}

#[test]
fn sub_value() {
    let mut mem = small_tree();
    assert_eq!(mem.sub_value(&addr(0), 1), Ok(0));
    let idx = calc_value_index(&addr(0), 4);
    assert_eq!(mem.get(&idx), Ok(chunk(0)));
}

#[test]
fn inc_nonce() {
    let mut mem = small_tree();
    assert_eq!(mem.inc_nonce(&addr(0)), Ok(2));
    let idx = calc_nonce_index(&addr(0), 4);
    assert_eq!(mem.get(&idx), Ok(chunk(2)));
}

#[test]
fn add_value_overflow_leaves_leaf_unchanged() {
    let indices = vec![U264::from_u8(16), U264::from_u8(17)];
    let chunks = vec![chunk(u64::MAX), chunk(0)];
    let mut mem = PartialTree::from_nodes(4, &indices, &chunks).unwrap();
    assert_eq!(mem.add_value(&addr(0), 1), Err(Error::Overflow));
    assert_eq!(mem.value(&addr(0)), Ok(u64::MAX));
    assert_eq!(mem.get(&U264::from_u8(16)), Ok(chunk(u64::MAX)));
}

#[test]
fn sub_value_underflow_leaves_leaf_unchanged() {
    let indices = vec![U264::from_u8(16)];
    let chunks = vec![chunk(0)];
    let mut mem = PartialTree::from_nodes(4, &indices, &chunks).unwrap();
    assert_eq!(mem.sub_value(&addr(0), 5), Err(Error::Overflow));
    assert_eq!(mem.value(&addr(0)), Ok(0));
}

#[test]
fn inc_nonce_overflow() {
    let indices = vec![U264::from_u8(17)];
    let chunks = vec![chunk(u64::MAX)];
    let mut mem = PartialTree::from_nodes(4, &indices, &chunks).unwrap();
    assert_eq!(mem.inc_nonce(&addr(0)), Err(Error::Overflow));
    assert_eq!(mem.nonce(&addr(0)), Ok(u64::MAX));
}

#[test]
fn uncovered_index_is_reported() {
    let mut mem = small_tree();
    // address 5 has no leaves in this witness
    assert_eq!(mem.value(&addr(5)), Err(Error::IndexNotCovered));
    assert_eq!(mem.add_value(&addr(5), 1), Err(Error::IndexNotCovered));
    assert_eq!(mem.get(&U264::from_u8(200)), Err(Error::IndexNotCovered));
}

#[test]
fn leaf_encoding_after_mutation() {
    let mut mem = small_tree();
    let got = mem.add_value(&addr(0), 41).unwrap();
    assert_eq!(got, 42);
    // reading back yields exactly the returned value
    assert_eq!(mem.value(&addr(0)), Ok(42));
    // and the 24 high bytes of the leaf are zero
    let leaf = mem.get(&calc_value_index(&addr(0), 4)).unwrap();
    assert_eq!(leaf[..8], 42u64.to_le_bytes());
    assert!(leaf[8..].iter().all(|b| *b == 0));
}

#[test]
fn from_nodes_rejects_duplicates() {
    let indices = vec![U264::from_u8(16), U264::from_u8(16)];
    let chunks = vec![chunk(1), chunk(2)];
    assert!(PartialTree::from_nodes(4, &indices, &chunks).is_none());
    let indices = vec![U264::from_u8(16)];
    assert!(PartialTree::from_nodes(4, &indices, &vec![]).is_none());
}

#[test]
fn root_is_deterministic_and_tracks_updates() {
    let a = small_tree();
    let b = small_tree();
    assert_eq!(a.root(), b.root());
    let mut c = small_tree();
    c.add_value(&addr(0), 7).unwrap();
    let mut d = small_tree();
    d.add_value(&addr(0), 7).unwrap();
    assert_eq!(c.root(), d.root());
}

#[test]
fn index_mapping_is_injective_on_small_addresses() {
    let v0 = calc_value_index(&addr(0), 4);
    let n0 = calc_nonce_index(&addr(0), 4);
    let v1 = calc_value_index(&addr(1), 4);
    let n1 = calc_nonce_index(&addr(1), 4);
    assert_eq!(v0, U264::from_u8(16));
    assert_eq!(n0, U264::from_u8(17));
    assert_eq!(v1, U264::from_u8(18));
    assert_eq!(n1, U264::from_u8(19));
    assert!(v0 != n0 && v0 != v1 && n0 != n1 && v1 != n1);
}
