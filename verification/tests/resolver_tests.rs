use cargo_outdated::resolver::resolve;
use cargo_outdated::version::{parse_version, serialize_version, Version};

fn v(s: &str) -> Version {
    parse_version(&s.as_bytes().to_vec()).expect("version should parse")
}

fn vs(list: &[&str]) -> Vec<Version> {
    list.iter().map(|s| v(s)).collect()
}

fn render(o: &Option<Version>) -> Option<String> {
    o.as_ref().map(|w| String::from_utf8(serialize_version(w)).unwrap())
}

#[test]
fn semver_update_spans_minors_above_major_one() {
    let rec = resolve(
        &b"dep".to_vec(),
        &v("1.2.0"),
        &vs(&["1.2.0", "1.2.5", "1.3.0", "2.0.0"]),
    )
    .expect("an update exists");
    assert_eq!(render(&rec.semver_ver).as_deref(), Some("1.3.0"));
    assert_eq!(render(&rec.latest_ver).as_deref(), Some("2.0.0"));
    assert_eq!(rec.name, b"dep".to_vec());
}

#[test]
fn zero_major_requires_matching_minor() {
    let rec = resolve(&b"dep".to_vec(), &v("0.3.1"), &vs(&["0.3.2", "0.4.0"]))
        .expect("an update exists");
    assert_eq!(render(&rec.semver_ver).as_deref(), Some("0.3.2"));
    assert_eq!(render(&rec.latest_ver).as_deref(), Some("0.4.0"));
}

#[test]
fn pinned_at_the_maximum_yields_no_record() {
    let r = resolve(&b"dep".to_vec(), &v("2.0.0"), &vs(&["1.0.0", "1.9.9", "2.0.0"]));
    assert!(r.is_none());
    let r2 = resolve(&b"dep".to_vec(), &v("3.0.0"), &vs(&[]));
    assert!(r2.is_none());
}

#[test]
fn breaking_update_alone_leaves_semver_absent() {
    let rec = resolve(&b"dep".to_vec(), &v("1.2.0"), &vs(&["2.0.0"]))
        .expect("an update exists");
    assert!(rec.semver_ver.is_none());
    assert_eq!(render(&rec.latest_ver).as_deref(), Some("2.0.0"));
}

#[test]
fn pre_releases_are_not_offered_to_stable_projects() {
    let r = resolve(&b"dep".to_vec(), &v("1.0.0"), &vs(&["1.1.0-rc.1", "2.0.0-alpha"]));
    assert!(r.is_none());
    let rec = resolve(&b"dep".to_vec(), &v("1.0.0"), &vs(&["1.1.0-rc.1", "1.1.0"]))
        .expect("the stable update still counts");
    assert_eq!(render(&rec.latest_ver).as_deref(), Some("1.1.0"));
}

#[test]
fn pre_release_projects_may_take_pre_release_updates() {
    let rec = resolve(&b"dep".to_vec(), &v("1.0.0-alpha"), &vs(&["1.0.0-beta", "1.0.0-alpha"]))
        .expect("a newer pre-release exists");
    assert_eq!(render(&rec.latest_ver).as_deref(), Some("1.0.0-beta"));
}
