use dep_resolution::version::{max_version, min_version, Version};

#[test]
fn versions_are_ordered_by_their_numbers() {
    assert!(Version::new(1, 2, 3) < Version::new(1, 10, 0));
    assert!(Version::new(2, 0, 0) > Version::new(1, 99, 99));
    assert!(Version::new(0, 0, 1) < Version::new(0, 0, 2));
    assert!(Version::new(3, 1, 4) <= Version::new(3, 1, 4));
    let mut v = vec![Version::new(1, 0, 0), Version::new(0, 9, 0), Version::new(0, 10, 0)];
    v.sort();
    assert_eq!(v, vec![Version::new(0, 9, 0), Version::new(0, 10, 0), Version::new(1, 0, 0)]);
}

#[test]
fn greatest_and_lesser_versions() {
    let v = vec![Version::new(0, 9, 0), Version::new(0, 10, 0), Version::new(0, 1, 7)];
    assert_eq!(max_version(&v), Some(Version::new(0, 10, 0)));
    assert_eq!(max_version(&[]), None);
    assert_eq!(min_version(v[0], v[1]), v[0]);
    assert_eq!(min_version(v[1], v[2]), v[2]);
}

#[test]
fn versions_are_written() {
    let v = Version::new(2, 10, 305);
    assert_eq!(v.to_string2(), "2.10.305");
    assert_eq!(v.to_string(), "2.10.305");
    assert_eq!(v.to_string_med(), "2.10");
    assert_eq!(v.to_string_short(), "2");
    assert_eq!(Version::new(0, 0, u32::MAX).to_string2(), "0.0.4294967295");
}

#[test]
fn versions_are_read() {
    assert_eq!(Version::from_str("2.10.305").unwrap(), Version::new(2, 10, 305));
    assert_eq!(Version::from_str("2.10").unwrap(), Version::new(2, 10, 0));
    assert_eq!(Version::from_str("7").unwrap(), Version::new(7, 0, 0));
    assert_eq!(Version::from_str("007.01").unwrap(), Version::new(7, 1, 0));
    assert_eq!(Version::from_str("4294967295").unwrap(), Version::new(u32::MAX, 0, 0));
}

#[test]
fn unreadable_versions_are_refused() {
    for s in ["", ".", "1.", "1..2", "1.2.3.4", "1.0rc1", " 1.0", "-1", "+1", "4294967296", "\u{663}"] {
        let e = Version::from_str(s).unwrap_err();
        assert_eq!(e.details, format!("Problem parsing version: {}", s));
    }
}

#[test]
fn written_versions_are_read_back() {
    for v in [Version::new(0, 0, 0), Version::new(12, 0, 340), Version::new(1, u32::MAX, 9)] {
        assert_eq!(Version::from_str(&v.to_string2()).unwrap(), v);
    }
    let v = Version::new(4, 2, 0);
    assert_eq!(Version::from_str(&v.to_string_med()).unwrap(), v);
    let v = Version::new(10, 0, 0);
    assert_eq!(Version::from_str(&v.to_string_short()).unwrap(), v);
}
