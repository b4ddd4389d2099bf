use cargo_outdated::deps::{check_outdated, prepare_targets, RegistryAnswer};
use cargo_outdated::util::is_file;
use cargo_outdated::version::serialize_version;

#[test]
fn end_to_end_reports_the_outdated_dependency() {
    let lock = "[root]\nname = \"app\"\nversion = \"1.0.0\"\ndependencies = [\n \"lib 1.0.0\",\n]\n\n[[package]]\nname = \"lib\"\nversion = \"1.0.0\"\n";
    let targets = prepare_targets(
        &lock.as_bytes().to_vec(),
        &vec![b"app".to_vec()],
        None,
    )
    .expect("pipeline should succeed");
    // the walk starts at app, so only lib is evaluated; app is not a
    // dependency of itself and stays out
    assert_eq!(targets.len(), 1);
    assert_eq!(targets[0].name, b"lib".to_vec());
    let answers = vec![RegistryAnswer {
        versions: Some(vec![b"1.0.0".to_vec(), b"1.1.0".to_vec(), b"2.0.0".to_vec()]),
    }];
    let report = check_outdated(&targets, &answers);
    assert!(report.failures.is_empty());
    assert_eq!(report.records.len(), 1);
    let rec = &report.records[0];
    assert_eq!(rec.name, b"lib".to_vec());
    assert_eq!(serialize_version(&rec.project_ver), b"1.0.0".to_vec());
    assert_eq!(serialize_version(rec.semver_ver.as_ref().unwrap()), b"1.1.0".to_vec());
    assert_eq!(serialize_version(rec.latest_ver.as_ref().unwrap()), b"2.0.0".to_vec());
}

#[test]
fn up_to_date_packages_are_omitted_entirely() {
    let lock = "[root]\nname = \"app\"\nversion = \"1.0.0\"\ndependencies = [\n \"lib 2.0.0\",\n]\n\n[[package]]\nname = \"lib\"\nversion = \"2.0.0\"\n";
    let targets =
        prepare_targets(&lock.as_bytes().to_vec(), &vec![b"app".to_vec()], None).unwrap();
    let answers = vec![RegistryAnswer {
        versions: Some(vec![b"1.0.0".to_vec(), b"2.0.0".to_vec()]),
    }];
    let report = check_outdated(&targets, &answers);
    assert!(report.records.is_empty());
    assert!(report.failures.is_empty());
}

#[test]
fn failed_queries_are_collected_without_discarding_results() {
    let lock = "[root]\nname = \"app\"\nversion = \"1.0.0\"\ndependencies = [\n \"one 1.0.0\",\n \"two 1.0.0\",\n]\n\n[[package]]\nname = \"one\"\nversion = \"1.0.0\"\n\n[[package]]\nname = \"two\"\nversion = \"1.0.0\"\n";
    let targets =
        prepare_targets(&lock.as_bytes().to_vec(), &vec![b"app".to_vec()], Some(1)).unwrap();
    assert_eq!(targets.len(), 2);
    let answers: Vec<RegistryAnswer> = targets
        .iter()
        .map(|t| {
            if t.name == b"one".to_vec() {
                RegistryAnswer { versions: Some(vec![b"1.5.0".to_vec()]) }
            } else {
                RegistryAnswer { versions: None }
            }
        })
        .collect();
    let report = check_outdated(&targets, &answers);
    assert_eq!(report.records.len(), 1);
    assert_eq!(report.records[0].name, b"one".to_vec());
    assert_eq!(report.failures, vec![b"two".to_vec()]);
}

#[test]
fn unparsable_published_candidates_are_skipped() {
    let lock = "[[package]]\nname = \"app\"\nversion = \"1.0.0\"\ndependencies = [\n \"lib 1.0.0\",\n]\n\n[[package]]\nname = \"lib\"\nversion = \"1.0.0\"\n";
    let targets =
        prepare_targets(&lock.as_bytes().to_vec(), &vec![b"app".to_vec()], None).unwrap();
    let answers = vec![RegistryAnswer {
        versions: Some(vec![b"garbage".to_vec(), b"1.2.0".to_vec(), b"also bad".to_vec()]),
    }];
    let report = check_outdated(&targets, &answers);
    assert_eq!(report.records.len(), 1);
    assert_eq!(
        serialize_version(report.records[0].latest_ver.as_ref().unwrap()),
        b"1.2.0".to_vec()
    );
}

#[test]
fn path_arguments_must_name_a_file() {
    assert!(is_file(String::from("Cargo.lock")).is_ok());
    assert!(is_file(String::from("some/dir/Cargo.toml")).is_ok());
    assert!(is_file(String::from("trailing/slash/")).is_ok());
    assert!(is_file(String::from("a/b/.")).is_ok());
    assert_eq!(is_file(String::from("")), Err(String::from("")));
    assert!(is_file(String::from("/")).is_err());
    assert!(is_file(String::from("..")).is_err());
    assert!(is_file(String::from("a/..")).is_err());
    assert!(is_file(String::from(".")).is_err());
}
