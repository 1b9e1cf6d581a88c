use sheth::offsets::{compress, decompress};
use sheth::u264::U264;

fn ix(ns: &[u8]) -> Vec<U264> {
    ns.iter().map(|n| U264::from_u8(*n)).collect()
}

#[test]
fn compress_frontier() {
    // the frontier 16,17,9,10,11,3 tiles the root span in walk order
    let indices = ix(&[16, 17, 9, 10, 11, 3]);
    let offsets = compress(&indices).unwrap();
    assert_eq!(offsets, vec![4, 4, 3, 3, 3, 1]);
}

#[test]
fn round_trip() {
    let indices = ix(&[16, 17, 9, 10, 11, 3]);
    let offsets = compress(&indices).unwrap();
    let back = decompress(&offsets).unwrap();
    assert_eq!(back, indices);
}

#[test]
fn round_trip_root_only() {
    let indices = ix(&[1]);
    let offsets = compress(&indices).unwrap();
    assert_eq!(offsets, vec![0]);
    assert_eq!(decompress(&offsets).unwrap(), indices);
}

#[test]
fn compress_rejects_illegitimate_lists() {
    // a right child out of walk order
    assert!(compress(&ix(&[5])).is_none());
    // an incomplete tiling
    assert!(compress(&ix(&[2])).is_none());
    // the zero index is no tree node
    assert!(compress(&ix(&[0])).is_none());
    // an empty list covers nothing
    assert!(compress(&ix(&[])).is_none());
}

#[test]
fn decompress_rejects_bad_offsets() {
    // a depth beyond the deepest slot
    assert!(decompress(&vec![300]).is_none());
    // a walk that ends short of the root span
    assert!(decompress(&vec![1]).is_none());
    // a walk past the end
    assert!(decompress(&vec![0, 0]).is_none());
}
