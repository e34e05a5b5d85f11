use std::cmp::Ordering;

use eclean::{Version, VersionError};

#[test]
fn test_parse_version() {
    let version = Version::parse("1.2.3").expect("error pasing 1.2.3");
    assert_eq!(Version::new(1, 2, 3, None), version);
    assert_eq!("1.2.3", &version.to_string());

    let version = Version::parse("1.2.3.20210115").expect("error pasing 1.2.3.20210115");
    assert_eq!(Version::new(1, 2, 3, Some("20210115")), version);
    assert_eq!("1.2.3.20210115", &version.to_string());
}

#[test]
fn parse_reads_each_field() {
    let v = Version::parse("10.20.30").unwrap();
    assert_eq!(v.major, 10);
    assert_eq!(v.minor, 20);
    assert_eq!(v.patch, 30);
    assert!(v.build.is_none());
}

#[test]
fn parse_keeps_dots_in_build() {
    let v = Version::parse("1.2.3.a.b.c").unwrap();
    assert_eq!(v.build.as_deref(), Some("a.b.c"));
    assert_eq!(v.to_string(), "1.2.3.a.b.c");
}

#[test]
fn parse_empty_build() {
    let v = Version::parse("1.2.3.").unwrap();
    assert_eq!(v.build.as_deref(), Some(""));
}

#[test]
fn parse_missing_fields_are_zero() {
    let v = Version::parse("7").unwrap();
    assert_eq!((v.major, v.minor, v.patch), (7, 0, 0));
    let v = Version::parse("7.8").unwrap();
    assert_eq!((v.major, v.minor, v.patch), (7, 8, 0));
    assert!(v.build.is_none());
}

#[test]
fn parse_accepts_plus_sign() {
    let v = Version::parse("+1.2.3").unwrap();
    assert_eq!(v.major, 1);
}

#[test]
fn parse_largest_number() {
    let text = format!("{}.0.0", usize::MAX);
    let v = Version::parse(&text).unwrap();
    assert_eq!(v.major, usize::MAX);
    assert_eq!(v.to_string(), text);
}

#[test]
fn parse_rejects_overflow() {
    let token = format!("{}0", usize::MAX);
    let text = format!("1.{}.0", token);
    match Version::parse(&text) {
        Err(VersionError::InvalidVersionFormat(t)) => assert_eq!(t, token),
        other => panic!("unexpected {:?}", other),
    }
}

#[test]
fn parse_rejects_first_bad_token() {
    match Version::parse("1.x.y") {
        Err(VersionError::InvalidVersionFormat(t)) => assert_eq!(t, "x"),
        other => panic!("unexpected {:?}", other),
    }
    match Version::parse("") {
        Err(VersionError::InvalidVersionFormat(t)) => assert_eq!(t, ""),
        other => panic!("unexpected {:?}", other),
    }
    match Version::parse("1.2.3x.4") {
        Err(VersionError::InvalidVersionFormat(t)) => assert_eq!(t, "3x"),
        other => panic!("unexpected {:?}", other),
    }
    assert!(Version::parse("+.1.1").is_err());
    assert!(Version::parse("1..2").is_err());
}

#[test]
fn round_trip_three_fields() {
    for text in ["0.0.0", "1.2.3", "12.345.6789"] {
        assert_eq!(Version::parse(text).unwrap().to_string(), text);
    }
}

#[test]
fn round_trip_with_build() {
    for text in ["1.2.3.b", "3.0.0.draft20060413_v201105210656", "1.13.0.v20200108-0001"] {
        assert_eq!(Version::parse(text).unwrap().to_string(), text);
    }
}

#[test]
fn compare_ignores_patch() {
    let a = Version::new(1, 2, 3, None);
    let b = Version::new(1, 2, 9, None);
    assert_eq!(a.cmp(&b), Ordering::Equal);
    assert_eq!(a, b);
    let c = Version::new(1, 2, 3, Some("x"));
    let d = Version::new(1, 2, 4, Some("x"));
    assert_eq!(c.cmp(&d), Ordering::Equal);
}

#[test]
fn compare_orders_fields() {
    let v = |a, b, c, d: Option<&str>| Version::new(a, b, c, d);
    assert_eq!(v(1, 0, 0, None).cmp(&v(2, 0, 0, None)), Ordering::Less);
    assert_eq!(v(2, 0, 0, None).cmp(&v(1, 9, 9, None)), Ordering::Greater);
    assert_eq!(v(1, 1, 0, None).cmp(&v(1, 2, 0, None)), Ordering::Less);
    assert_eq!(v(1, 0, 0, None).cmp(&v(1, 0, 0, Some(""))), Ordering::Less);
    assert_eq!(v(1, 0, 0, Some("b")).cmp(&v(1, 0, 0, None)), Ordering::Greater);
    assert_eq!(v(1, 0, 0, Some("a")).cmp(&v(1, 0, 0, Some("b"))), Ordering::Less);
    assert_eq!(v(1, 0, 0, Some("ab")).cmp(&v(1, 0, 0, Some("a"))), Ordering::Greater);
    assert_eq!(v(1, 0, 0, Some("v2")).cmp(&v(1, 0, 0, Some("v10"))), Ordering::Greater);
    assert_ne!(v(1, 0, 0, Some("a")), v(1, 0, 0, Some("b")));
}

#[test]
fn compare_is_antisymmetric_and_transitive() {
    let vs = [
        Version::new(1, 0, 0, None),
        Version::new(1, 0, 5, Some("a")),
        Version::new(1, 0, 0, Some("b")),
        Version::new(1, 3, 0, None),
        Version::new(2, 0, 0, None),
    ];
    for a in &vs {
        assert_eq!(a.cmp(a), Ordering::Equal);
        for b in &vs {
            assert_eq!(a.cmp(b), b.cmp(a).reverse());
            for c in &vs {
                if a.cmp(b) != Ordering::Greater && b.cmp(c) != Ordering::Greater {
                    assert_ne!(a.cmp(c), Ordering::Greater);
                }
            }
        }
    }
}

#[test]
fn new_keeps_fields() {
    let v = Version::new(4, 5, 6, Some("rc1"));
    assert_eq!((v.major, v.minor, v.patch), (4, 5, 6));
    assert_eq!(v.build.as_deref(), Some("rc1"));
    assert_eq!(v.to_string(), "4.5.6.rc1");
}

#[test]
fn partial_order_follows_cmp() {
    assert!(Version::new(1, 0, 0, None) < Version::new(1, 1, 0, None));
    assert!(Version::new(1, 0, 9, None) <= Version::new(1, 0, 0, None));
    assert!(Version::new(1, 0, 0, Some("b")) > Version::new(1, 0, 0, Some("a")));
    assert_eq!(Version::new(3, 0, 0, None).partial_cmp(&Version::new(2, 0, 0, None)), Some(Ordering::Greater));
}
