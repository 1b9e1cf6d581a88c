use sheth::u264::U264;

fn max_value() -> U264 {
    U264::from_le_bytes(&[255u8; 33])
}

#[test]
fn add() {
    let x = U264::zero();
    let y = U264::one();
    assert_eq!(x.add(y), U264::one());
}

#[test]
fn overflowing_add() {
    let x = U264::one();
    let y = max_value();
    assert_eq!(x.overflowing_add(U264::zero()), (x, false));
    assert_eq!(x.overflowing_add(y), (U264::zero(), true));
}

#[test]
fn overflowing_sub_underflow() {
    let (r, borrow) = U264::zero().overflowing_sub(U264::one());
    assert!(borrow);
    assert_eq!(r, max_value());
}

#[test]
fn sub_self_is_zero() {
    let x = U264::from_u8(77);
    assert_eq!(x.sub(x), U264::zero());
}

#[test]
fn shift_right_zero() {
    let x = U264::zero();
    let y = x.shr(10);
    assert_eq!(x, y);
}

#[test]
fn shift_right() {
    let x = U264::one();
    assert_eq!(x.shr(1), U264::zero());
}

#[test]
fn shift_left_zero() {
    let x = U264::zero();
    let y = x.shl(10);
    assert_eq!(x, y);
}

#[test]
fn shift_left() {
    let x = U264::one();
    assert_eq!(x.shl(1), U264::from_u8(2));
}

#[test]
fn shift_round_trip() {
    let x = U264::from_u8(0xa5);
    assert_eq!(x.shl(100).shr(100), x);
    assert_eq!(x.shl(0), x);
    assert_eq!(x.shr(0), x);
    // shifting everything out gives zero
    assert_eq!(x.shl(264), U264::zero());
    assert_eq!(x.shr(264), U264::zero());
}

#[test]
fn byte_round_trip() {
    let mut b = [0u8; 33];
    b[0] = 0xde;
    b[8] = 0x01;
    b[32] = 0x80;
    let x = U264::from_le_bytes(&b);
    assert_eq!(x.as_le_bytes(), b);
    assert_eq!(U264::from_le_bytes(&x.as_le_bytes()), x);
}

#[test]
fn ordering_consistent() {
    let a = U264::from_u8(3);
    let b = U264::from_u8(200);
    assert!(a < b);
    assert!(b > a);
    assert!(a == a);
    assert_eq!(a.partial_cmp(&a), Some(std::cmp::Ordering::Equal));
    // a difference only in the trailing byte still orders numerically
    let mut hi = [0u8; 33];
    hi[32] = 1;
    let h = U264::from_le_bytes(&hi);
    assert!(b < h);
}

#[test]
fn low_u32_truncates() {
    let mut b = [0u8; 33];
    b[0] = 0x78;
    b[1] = 0x56;
    b[2] = 0x34;
    b[3] = 0x12;
    b[4] = 0xff;
    let x = U264::from_le_bytes(&b);
    assert_eq!(x.low_u32(), 0x12345678);
}

#[test]
fn bitand_and_not() {
    let a = U264::from_u8(0b1100);
    let b = U264::from_u8(0b1010);
    assert_eq!(a.bitand(b), U264::from_u8(0b1000));
    // complement of zero is the maximum value
    assert_eq!(U264::zero().not(), max_value());
    assert_eq!(max_value().not(), U264::zero());
}

#[test]
fn from_u256_reads_little_endian() {
    let n = bigint::U256::from(0x0102030405060708u64);
    let x = U264::from_u256(&n);
    let b = x.as_le_bytes();
    assert_eq!(b[0], 0x08);
    assert_eq!(b[7], 0x01);
    assert_eq!(b[8], 0);
    assert_eq!(b[32], 0);
}
