use cargo_outdated::error::OutdatedError;
use cargo_outdated::graph::{build_graph, select_roots, walk, Entry, Graph, Pkg};
use cargo_outdated::version::{parse_version, Version};

fn v(s: &str) -> Version {
    parse_version(&s.as_bytes().to_vec()).expect("version should parse")
}

fn pkg(name: &str, ver: &str) -> Pkg {
    Pkg { name: name.as_bytes().to_vec(), version: v(ver) }
}

fn entry(name: &str, ver: &str, deps: &[(&str, &str)]) -> Entry {
    Entry {
        name: name.as_bytes().to_vec(),
        version: v(ver),
        deps: deps.iter().map(|(n, w)| pkg(n, w)).collect(),
    }
}

fn diamond() -> Graph {
    // a depends on b and c; both depend on d; d depends on a (a cycle)
    build_graph(vec![
        entry("a", "1.0.0", &[("b", "1.0.0"), ("c", "1.0.0")]),
        entry("b", "1.0.0", &[("d", "1.0.0")]),
        entry("c", "1.0.0", &[("d", "1.0.0")]),
        entry("d", "1.0.0", &[("a", "1.0.0")]),
    ])
    .expect("graph should build")
}

fn names(graph: &Graph, idxs: &[usize]) -> Vec<String> {
    let mut out: Vec<String> = idxs
        .iter()
        .map(|&i| String::from_utf8(graph.entries[i].name.clone()).unwrap())
        .collect();
    out.sort();
    out
}

#[test]
fn duplicate_identity_is_rejected() {
    let r = build_graph(vec![
        entry("a", "1.0.0", &[]),
        entry("a", "1.0.0", &[]),
    ]);
    assert!(matches!(r, Err(OutdatedError::LockfileParse)));
    // the same name at two versions is fine: multi-version resolution
    assert!(build_graph(vec![entry("a", "1.0.0", &[]), entry("a", "2.0.0", &[])]).is_ok());
}

#[test]
fn dangling_edge_is_rejected() {
    let r = build_graph(vec![entry("a", "1.0.0", &[("ghostly", "1.0.0")])]);
    match r {
        Err(OutdatedError::DanglingDependency { name }) => {
            assert_eq!(name, b"ghostly".to_vec());
        },
        _ => panic!("expected a dangling-dependency error"),
    }
    // an edge to a recorded name at an unrecorded version dangles too
    let r2 = build_graph(vec![
        entry("a", "1.0.0", &[("b", "2.0.0")]),
        entry("b", "1.0.0", &[]),
    ]);
    assert!(matches!(r2, Err(OutdatedError::DanglingDependency { .. })));
}

#[test]
fn unknown_root_is_reported() {
    let g = diamond();
    let r = select_roots(&g, &vec![b"nope".to_vec()]);
    match r {
        Err(OutdatedError::UnknownPackage { name }) => assert_eq!(name, b"nope".to_vec()),
        _ => panic!("expected an unknown-package error"),
    }
}

#[test]
fn depth_zero_returns_exactly_the_roots() {
    let g = diamond();
    let roots = select_roots(&g, &vec![b"a".to_vec()]).unwrap();
    let out = walk(&g, &roots, Some(0));
    assert_eq!(out, roots);
    assert_eq!(names(&g, &out), vec!["a"]);
}

#[test]
fn depth_one_returns_exactly_the_direct_dependencies() {
    let g = diamond();
    let roots = select_roots(&g, &vec![b"a".to_vec()]).unwrap();
    let out = walk(&g, &roots, Some(1));
    assert_eq!(names(&g, &out), vec!["b", "c"]);
}

#[test]
fn each_identity_is_visited_once_despite_diamond_and_cycle() {
    let g = diamond();
    let roots = select_roots(&g, &vec![b"a".to_vec()]).unwrap();
    let out = walk(&g, &roots, None);
    // d is reachable through b and through c, and the cycle returns to a:
    // every index appears at most once, and the root is not in the output
    let mut seen = out.clone();
    seen.sort();
    seen.dedup();
    assert_eq!(seen.len(), out.len());
    assert_eq!(names(&g, &out), vec!["b", "c", "d"]);
}

#[test]
fn depth_bounds_the_walk_by_shortest_distance() {
    let g = build_graph(vec![
        entry("top", "1.0.0", &[("mid", "1.0.0")]),
        entry("mid", "1.0.0", &[("leaf", "1.0.0")]),
        entry("leaf", "1.0.0", &[]),
    ])
    .unwrap();
    let roots = select_roots(&g, &vec![b"top".to_vec()]).unwrap();
    assert_eq!(names(&g, &walk(&g, &roots, Some(1))), vec!["mid"]);
    assert_eq!(names(&g, &walk(&g, &roots, Some(2))), vec!["leaf", "mid"]);
    assert_eq!(names(&g, &walk(&g, &roots, Some(9))), vec!["leaf", "mid"]);
    assert_eq!(names(&g, &walk(&g, &roots, None)), vec!["leaf", "mid"]);
}
