use cargo_outdated::error::OutdatedError;
use cargo_outdated::lockfile::parse_lockfile;
use cargo_outdated::version::serialize_version;

fn parse(text: &str) -> Result<Vec<cargo_outdated::graph::Entry>, OutdatedError> {
    parse_lockfile(&text.as_bytes().to_vec())
}

const GOOD: &str = "[root]\nname = \"app\"\nversion = \"0.1.0\"\ndependencies = [\n \"alpha 1.2.0 (registry+https://example)\",\n \"beta 0.3.1\",\n]\n\n[[package]]\nname = \"alpha\"\nversion = \"1.2.0\"\ndependencies = [\n \"beta 0.3.1\",\n]\n\n[[package]]\nname = \"beta\"\nversion = \"0.3.1\"\n";

#[test]
fn parses_a_complete_lockfile() {
    let entries = parse(GOOD).expect("lockfile should parse");
    assert_eq!(entries.len(), 3);
    assert_eq!(entries[0].name, b"app".to_vec());
    assert_eq!(serialize_version(&entries[0].version), b"0.1.0".to_vec());
    assert_eq!(entries[0].deps.len(), 2);
    assert_eq!(entries[0].deps[0].name, b"alpha".to_vec());
    assert_eq!(serialize_version(&entries[0].deps[0].version), b"1.2.0".to_vec());
    assert_eq!(entries[0].deps[1].name, b"beta".to_vec());
    assert_eq!(entries[1].name, b"alpha".to_vec());
    assert_eq!(entries[1].deps.len(), 1);
    assert_eq!(entries[2].name, b"beta".to_vec());
    assert!(entries[2].deps.is_empty());
}

#[test]
fn parses_empty_dependency_list_and_missing_list() {
    let entries = parse(
        "[[package]]\nname = \"solo\"\nversion = \"1.0.0\"\ndependencies = []\n\n[[package]]\nname = \"other\"\nversion = \"2.0.0\"\n",
    )
    .expect("lockfile should parse");
    assert_eq!(entries.len(), 2);
    assert!(entries[0].deps.is_empty());
    assert!(entries[1].deps.is_empty());
}

#[test]
fn empty_input_yields_no_entries() {
    assert!(parse("").expect("blank lockfile parses").is_empty());
    assert!(parse("\n\n").expect("blank lines parse").is_empty());
}

#[test]
fn malformed_structure_is_a_parse_error() {
    for bad in [
        "name = \"orphan\"\n",
        "[[package]]\nversion = \"1.0.0\"\n",
        "[[package]]\nname = \"x\"\n\n",
        "[[package]]\nname = \"x\"\nversion = \"1.0.0\"\ndependencies = [\n \"broken\",\n]\n",
        "[[package]]\nname = \"x\"\nversion = \"1.0.0\"\ndependencies = [\n",
        "not a header\n",
    ] {
        let r = parse(bad);
        assert!(matches!(r, Err(OutdatedError::LockfileParse)), "accepted {:?}", bad);
    }
}

#[test]
fn unparsable_pinned_version_is_an_invalid_version_error() {
    let r = parse("[[package]]\nname = \"x\"\nversion = \"not.a.version\"\n");
    assert!(matches!(r, Err(OutdatedError::InvalidVersion)));
    let r2 = parse(
        "[[package]]\nname = \"x\"\nversion = \"1.0.0\"\ndependencies = [\n \"y zero\",\n]\n",
    );
    assert!(matches!(r2, Err(OutdatedError::InvalidVersion)));
}
