use bulk_gcd::big::Big;

#[test]
fn from_bytes_trims_leading_zeros() {
    let padded = Big::from_bytes(&vec![0, 0, 5]);
    assert_eq!(padded, Big::from_u64(5));
    assert_eq!(padded.bytes(), &vec![5]);
}

#[test]
fn zero_is_the_single_zero_digit() {
    let zero = Big::from_u64(0);
    assert_eq!(zero.bytes(), &vec![0]);
    assert_eq!(Big::from_bytes(&vec![]), zero);
    assert_eq!(Big::from_bytes(&vec![0, 0]), zero);
}

#[test]
fn from_u64_builds_big_endian_digits() {
    assert_eq!(Big::from_u64(1).bytes(), &vec![1]);
    assert_eq!(Big::from_u64(256).bytes(), &vec![1, 0]);
    assert_eq!(Big::from_u64(0x0102_0304).bytes(), &vec![1, 2, 3, 4]);
    assert_eq!(
        Big::from_u64(u64::MAX).bytes(),
        &vec![255, 255, 255, 255, 255, 255, 255, 255]
    );
}

#[test]
fn equality_is_by_value() {
    assert_eq!(Big::from_u64(300), Big::from_bytes(&vec![0, 1, 44]));
    assert_ne!(Big::from_u64(300), Big::from_u64(301));
    assert_eq!(Big::from_u64(77).clone(), Big::from_u64(77));
}
