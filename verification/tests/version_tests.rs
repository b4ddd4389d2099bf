use cargo_outdated::version::{parse_version, serialize_version, version_eq, Version, VersionOrder};
use cargo_outdated::error::OutdatedError;

fn v(s: &str) -> Version {
    parse_version(&s.as_bytes().to_vec()).expect("version should parse")
}

fn cmp(a: &str, b: &str) -> VersionOrder {
    Version::compare(&v(a), &v(b))
}

#[test]
fn parses_plain_triple() {
    let p = v("1.2.3");
    assert_eq!(p.major, 1);
    assert_eq!(p.minor, 2);
    assert_eq!(p.patch, 3);
    assert!(p.pre.is_none());
    assert!(p.build.is_none());
}

#[test]
fn parses_pre_and_build() {
    let p = v("1.0.0-alpha.1+build.5");
    assert_eq!(p.major, 1);
    assert_eq!(p.pre.as_deref(), Some(b"alpha.1".as_slice()));
    assert_eq!(p.build.as_deref(), Some(b"build.5".as_slice()));
    let q = v("2.0.0+only.build");
    assert!(q.pre.is_none());
    assert_eq!(q.build.as_deref(), Some(b"only.build".as_slice()));
}

#[test]
fn rejects_malformed_versions() {
    for bad in [
        "", "1", "1.2", "1.2.", "1.2.x", "a.b.c", "1..3", "1.2.3-", "1.2.3+", "1.2.3-+b",
        "1.2.3-pre+", "1.2.3 ", " 1.2.3", "1.2.3-pr e",
    ] {
        let r = parse_version(&bad.as_bytes().to_vec());
        assert!(matches!(r, Err(OutdatedError::InvalidVersion)), "accepted {:?}", bad);
    }
}

#[test]
fn rejects_numbers_too_large_for_a_word() {
    let r = parse_version(&b"99999999999999999999.0.0".to_vec());
    assert!(matches!(r, Err(OutdatedError::InvalidVersion)));
    // the largest value that still fits parses
    let p = v("18446744073709551615.0.0");
    assert_eq!(p.major, u64::MAX);
}

#[test]
fn total_order_on_triples() {
    assert!(matches!(cmp("1.2.3", "1.2.10"), VersionOrder::Less));
    assert!(matches!(cmp("1.10.0", "1.9.9"), VersionOrder::Greater));
    assert!(matches!(cmp("2.0.0", "10.0.0"), VersionOrder::Less));
    assert!(matches!(cmp("1.2.3", "1.2.3"), VersionOrder::Equal));
}

#[test]
fn pre_release_sorts_below_release() {
    assert!(matches!(cmp("1.0.0-alpha", "1.0.0"), VersionOrder::Less));
    assert!(matches!(cmp("1.0.0", "1.0.0-rc.1"), VersionOrder::Greater));
    assert!(matches!(cmp("1.0.0-alpha", "1.0.0-beta"), VersionOrder::Less));
}

#[test]
fn build_metadata_is_ignored_in_comparison() {
    assert!(matches!(cmp("1.2.3+a", "1.2.3+b"), VersionOrder::Equal));
    assert!(matches!(cmp("1.2.3+zzz", "1.2.4"), VersionOrder::Less));
}

#[test]
fn compatibility_is_reflexive() {
    for s in ["0.0.1", "0.3.1", "1.2.3", "10.0.0", "1.0.0-alpha"] {
        assert!(Version::is_compatible(&v(s), &v(s)), "not reflexive on {:?}", s);
    }
}

#[test]
fn compatibility_follows_the_breaking_boundary() {
    assert!(Version::is_compatible(&v("1.9.0"), &v("1.2.0")));
    assert!(!Version::is_compatible(&v("2.0.0"), &v("1.2.0")));
    assert!(Version::is_compatible(&v("0.3.2"), &v("0.3.1")));
    assert!(!Version::is_compatible(&v("0.4.0"), &v("0.3.1")));
    assert!(!Version::is_compatible(&v("1.0.0"), &v("0.3.1")));
}

#[test]
fn serialize_renders_the_canonical_form() {
    assert_eq!(serialize_version(&v("1.2.3")), b"1.2.3".to_vec());
    assert_eq!(serialize_version(&v("0.10.0-rc.2+build7")), b"0.10.0-rc.2+build7".to_vec());
}

#[test]
fn parse_then_serialize_round_trips() {
    for s in ["0.0.0", "1.2.3", "1.0.0-alpha.1", "2.5.9+meta", "3.1.4-rc.1+sha.abc"] {
        let first = v(s);
        let rendered = serialize_version(&first);
        let again = parse_version(&rendered).expect("round trip should parse");
        assert!(version_eq(&first, &again), "round trip changed {:?}", s);
        assert!(matches!(Version::compare(&first, &again), VersionOrder::Equal));
    }
    // leading zeros are normalized to the numeric meaning
    let canon = v("01.002.0003");
    assert!(matches!(Version::compare(&canon, &v("1.2.3")), VersionOrder::Equal));
}
