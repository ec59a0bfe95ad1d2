use cairo_rs::integer::Integer;

#[test]
fn from_i64_and_bytes() {
    assert_eq!(Integer::from_i64(0x0102), Integer::from_bytes_be(&[0, 0, 1, 2]));
    assert_eq!(Integer::from_i64(0), Integer::from_bytes_be(&[]));
    assert_eq!(Integer::from_i64(0), Integer::from_sign_magnitude(true, &[0, 0]));
    assert_eq!(Integer::from_i64(-5), Integer::from_sign_magnitude(true, &[0, 5]));
}

#[test]
fn to_bytes_be_is_shortest() {
    assert_eq!(Integer::from_i64(0).to_bytes_be(), (false, vec![0]));
    assert_eq!(Integer::from_i64(1125).to_bytes_be(), (false, vec![4, 101]));
    assert_eq!(Integer::from_i64(-1125).to_bytes_be(), (true, vec![4, 101]));
    assert_eq!(Integer::from_i64(i64::MIN).to_bytes_be(), (true, vec![128, 0, 0, 0, 0, 0, 0, 0]));
}

#[test]
fn sub_one_crosses_zero() {
    assert_eq!(Integer::from_i64(5).sub_one(), Integer::from_i64(4));
    assert_eq!(Integer::from_i64(1).sub_one(), Integer::from_i64(0));
    assert_eq!(Integer::from_i64(0).sub_one(), Integer::from_i64(-1));
    assert_eq!(Integer::from_i64(256).sub_one(), Integer::from_i64(255));
    assert_eq!(Integer::from_i64(i64::MIN).sub_one(), Integer::from_sign_magnitude(true, &[128, 0, 0, 0, 0, 0, 0, 1]));
}

#[test]
fn signs() {
    assert!(Integer::from_i64(3).is_positive());
    assert!(!Integer::from_i64(0).is_positive());
    assert!(!Integer::from_i64(0).is_negative());
    assert!(Integer::from_i64(-3).is_negative());
}

#[test]
fn fits_in_bytes_matches_range() {
    assert!(Integer::from_i64(255).fits_in_bytes(1));
    assert!(!Integer::from_i64(256).fits_in_bytes(1));
    assert!(Integer::from_i64(256).fits_in_bytes(2));
    assert!(Integer::from_i64(0).fits_in_bytes(0));
    assert!(!Integer::from_i64(1).fits_in_bytes(0));
    assert!(!Integer::from_i64(-1).fits_in_bytes(8));
}

#[test]
fn to_u64_range() {
    assert_eq!(Integer::from_i64(7).to_u64(), Some(7));
    assert_eq!(Integer::from_i64(-7).to_u64(), None);
    assert_eq!(Integer::from_bytes_be(&[0xff; 8]).to_u64(), Some(u64::MAX));
    assert_eq!(Integer::from_bytes_be(&[1, 0, 0, 0, 0, 0, 0, 0, 0]).to_u64(), None);
}

#[test]
fn comparisons() {
    assert!(Integer::from_i64(3).is_greater_than(&Integer::from_i64(2)));
    assert!(!Integer::from_i64(2).is_greater_than(&Integer::from_i64(2)));
    assert!(Integer::from_i64(-2).is_greater_than(&Integer::from_i64(-3)));
    assert!(Integer::from_i64(2).equals(&Integer::from_bytes_be(&[0, 2])));
    assert!(!Integer::from_i64(2).equals(&Integer::from_i64(-2)));
    assert_eq!(Integer::from_i64(-9).clone(), Integer::from_i64(-9));
}

#[test]
fn bytes_round_trip() {
    for v in [0i64, 1, 255, 256, 65535, 1 << 40, -77] {
        let x = Integer::from_i64(v);
        let (negative, bytes) = x.to_bytes_be();
        assert_eq!(Integer::from_sign_magnitude(negative, &bytes), x);
    }
}
