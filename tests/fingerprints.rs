use image_fingerprint::ihash::IHash;

#[test]
fn distance_test() {
    assert_eq!(
        29,
        IHash::comp(
            &IHash::from_str("217020655954766639").unwrap(),
            &IHash::from_str("3472328230754595056").unwrap()
        )
    );
    assert_eq!(1, IHash::comp(&IHash::from_str("9").unwrap(), &IHash::from_str("8").unwrap()));
    assert_eq!(4, IHash::comp(&IHash::from_str("7").unwrap(), &IHash::from_str("8").unwrap()));
}

#[test]
fn plain_distance_regression_values() {
    let nine = IHash::from_str("9").unwrap();
    let eight = IHash::from_str("8").unwrap();
    let seven = IHash::from_str("7").unwrap();
    assert_eq!(nine.dist(&eight), 1);
    assert_eq!(seven.dist(&eight), 4);
}

#[test]
fn plain_distance_counts_differing_bits() {
    let a = IHash::from_str("217020655954766639").unwrap();
    let b = IHash::from_str("3472328230754595056").unwrap();
    assert_eq!(a.dist(&b), 35);
    assert_eq!(IHash::new(0).dist(&IHash::new(u64::MAX)), 64);
    assert_eq!(IHash::comp(&IHash::new(0), &IHash::new(u64::MAX)), 0);
}

#[test]
fn distance_to_self_is_zero() {
    for v in [0u64, 1, 9, 12345, u64::MAX, 1 << 63] {
        let h = IHash::new(v);
        assert_eq!(h.dist(&h), 0);
    }
}

#[test]
fn distance_is_symmetric_and_bounded() {
    let values = [0u64, 7, 8, 255, 0xdead_beef, u64::MAX, 217020655954766639];
    for &a in values.iter() {
        for &b in values.iter() {
            let (x, y) = (IHash::new(a), IHash::new(b));
            assert_eq!(x.dist(&y), y.dist(&x));
            assert!(x.dist(&y) <= 64);
        }
    }
}

#[test]
fn mirror_distance_never_exceeds_distance() {
    let values = [0u64, 7, 8, 255, 0xdead_beef, u64::MAX, 3472328230754595056];
    for &a in values.iter() {
        for &b in values.iter() {
            let (x, y) = (IHash::new(a), IHash::new(b));
            assert!(IHash::comp(&x, &y) <= x.dist(&y));
        }
    }
}

#[test]
fn parse_rejects_malformed_text() {
    assert!(IHash::from_str("").is_err());
    assert!(IHash::from_str("12a").is_err());
    assert!(IHash::from_str("-1").is_err());
    assert!(IHash::from_str(" 1").is_err());
    assert!(IHash::from_str("18446744073709551616").is_err());
    assert!(IHash::from_str("99999999999999999999999").is_err());
}

#[test]
fn parse_accepts_the_full_range() {
    assert_eq!(IHash::from_str("0").unwrap().value, 0);
    assert_eq!(IHash::from_str("0042").unwrap().value, 42);
    assert_eq!(IHash::from_str("18446744073709551615").unwrap().value, u64::MAX);
}

#[test]
fn decimal_text_round_trips() {
    for v in [0u64, 9, 10, 1234, u64::MAX] {
        let h = IHash::new(v);
        let text = h.to_str();
        assert_eq!(text, v.to_string());
        assert_eq!(IHash::from_str(&text).unwrap(), h);
    }
    assert_eq!(IHash::new(1234).to_str(), "1234");
}
