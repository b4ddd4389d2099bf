//! Orchestration: from lockfile text and configuration to the ordered set
//! of packages to evaluate, and from the registry's answers to the final
//! report of outdated packages.

use vstd::prelude::*;
use crate::error::OutdatedError;
use crate::graph::{
    Pkg, PkgModel, EntryModel, pkgs_view, names_view, graph_wf, no_dup, no_dangling,
    edge, root_name_match, name_found, contains_idx, rw, reachable, build_graph, select_roots,
    walk,
};
use crate::lockfile::{parse_lockfile, parse_lockfile_model, LockParse};
use crate::resolver::{
    OutdatedRecord, RecordModel, records_view, versions_view, best_any, best_compat, resolve,
};
use crate::version::{Version, VersionModel, parse_version_model, parse_version, dup_bytes, dup_version};

verus! {

broadcast use vstd::seq_lib::group_seq_properties;

// ---------------------------------------------------------------------------
// Registry answers and the report.
// ---------------------------------------------------------------------------

/// The registry's answer for one queried package: the published version
/// strings, or nothing when the query could not be completed.
pub struct RegistryAnswer {
    pub versions: Option<Vec<Vec<u8>>>,
}

impl View for RegistryAnswer {
    type V = Option<Seq<Seq<u8>>>;

    open spec fn view(&self) -> Option<Seq<Seq<u8>>> {
        match self.versions {
            Some(v) => Some(names_view(v@)),
            None => None,
        }
    }
}

pub open spec fn answers_view(s: Seq<RegistryAnswer>) -> Seq<Option<Seq<Seq<u8>>>> {
    s.map_values(|a: RegistryAnswer| a@)
}

/// The versions parsed out of the registry's raw strings; a string that is
/// no version is skipped, and comparison proceeds with the remainder.
pub open spec fn parse_ok_versions(raws: Seq<Seq<u8>>) -> Seq<VersionModel>
    decreases raws.len(),
{
    if raws.len() == 0 {
        Seq::empty()
    } else {
        parse_ok_versions(raws.drop_last()) + (match parse_version_model(raws.last()) {
            Some(m) => seq![m],
            None => Seq::<VersionModel>::empty(),
        })
    }
}

/// The records of the report, in target order: one per target whose answer
/// arrived and holds a candidate update.
pub open spec fn spec_records(ts: Seq<PkgModel>, ans: Seq<Option<Seq<Seq<u8>>>>) -> Seq<
    RecordModel,
>
    decreases ts.len(),
{
    if ts.len() == 0 {
        Seq::empty()
    } else {
        let rest = spec_records(ts.drop_last(), ans.drop_last());
        match ans.last() {
            None => rest,
            Some(raws) => {
                let vs = parse_ok_versions(raws);
                let p = ts.last().ver;
                match best_any(vs, p) {
                    None => rest,
                    Some(b) => rest + seq![
                        RecordModel {
                            name: ts.last().name,
                            project: p,
                            semver: best_compat(vs, p),
                            latest: best_any(vs, p),
                        },
                    ],
                }
            },
        }
    }
}

/// The packages whose registry query failed, in target order.
pub open spec fn spec_failures(ts: Seq<PkgModel>, ans: Seq<Option<Seq<Seq<u8>>>>) -> Seq<Seq<u8>>
    decreases ts.len(),
{
    if ts.len() == 0 {
        Seq::empty()
    } else {
        let rest = spec_failures(ts.drop_last(), ans.drop_last());
        match ans.last() {
            None => rest + seq![ts.last().name],
            Some(raws) => rest,
        }
    }
}

/// Outcome of a run: the outdated records in discovery order, and the
/// packages that could not be checked — partial results are kept, never
/// discarded because one query failed.
pub struct Report {
    pub records: Vec<OutdatedRecord>,
    pub failures: Vec<Vec<u8>>,
}

fn parse_published(raws: &Vec<Vec<u8>>) -> (r: Vec<Version>)
    ensures
        versions_view(r@) == parse_ok_versions(names_view(raws@)),
{
    let ghost rv = names_view(raws@);
    let mut out: Vec<Version> = Vec::new();
    let mut i: usize = 0;
    proof {
        assert(versions_view(out@) =~= parse_ok_versions(rv.take(0)));
    }
    while i < raws.len()
        invariant
            i <= raws.len(),
            rv == names_view(raws@),
            versions_view(out@) == parse_ok_versions(rv.take(i as int)),
        decreases raws.len() - i,
    {
        proof {
            assert(rv.take(i + 1).drop_last() =~= rv.take(i as int));
            assert(rv.take(i + 1).last() == rv[i as int]);
            assert(rv[i as int] == raws@[i as int]@);
        }
        match parse_version(&raws[i]) {
            Ok(v) => {
                let ghost pre = out@;
                out.push(v);
                proof {
                    assert(versions_view(out@) =~= versions_view(pre).push(v@));
                    assert(versions_view(pre).push(v@) =~= parse_ok_versions(rv.take(i + 1)));
                }
            },
            Err(_) => {
                proof {
                    assert(parse_ok_versions(rv.take(i + 1)) =~= parse_ok_versions(
                        rv.take(i as int),
                    ));
                }
            },
        }
        i = i + 1;
    }
    proof {
        assert(rv.take(rv.len() as int) =~= rv);
    }
    out
}

/// Evaluates every target against its registry answer: per-package failures
/// are collected, and a record is produced exactly for the targets with a
/// candidate update among the parsable published versions.
pub fn check_outdated(targets: &Vec<Pkg>, answers: &Vec<RegistryAnswer>) -> (r: Report)
    requires
        targets@.len() == answers@.len(),
    ensures
        records_view(r.records@) == spec_records(pkgs_view(targets@), answers_view(answers@)),
        names_view(r.failures@) == spec_failures(pkgs_view(targets@), answers_view(answers@)),
{
    let ghost ts = pkgs_view(targets@);
    let ghost ans = answers_view(answers@);
    let mut records: Vec<OutdatedRecord> = Vec::new();
    let mut failures: Vec<Vec<u8>> = Vec::new();
    let mut i: usize = 0;
    proof {
        assert(records_view(records@) =~= spec_records(ts.take(0), ans.take(0)));
        assert(names_view(failures@) =~= spec_failures(ts.take(0), ans.take(0)));
    }
    while i < targets.len()
        invariant
            i <= targets@.len(),
            targets@.len() == answers@.len(),
            ts == pkgs_view(targets@),
            ans == answers_view(answers@),
            records_view(records@) == spec_records(ts.take(i as int), ans.take(i as int)),
            names_view(failures@) == spec_failures(ts.take(i as int), ans.take(i as int)),
        decreases targets@.len() - i,
    {
        proof {
            assert(ts.take(i + 1).drop_last() =~= ts.take(i as int));
            assert(ans.take(i + 1).drop_last() =~= ans.take(i as int));
            assert(ts.take(i + 1).last() == ts[i as int]);
            assert(ans.take(i + 1).last() == ans[i as int]);
            assert(ts[i as int] == targets@[i as int]@);
            assert(ans[i as int] == answers@[i as int]@);
        }
        match &answers[i].versions {
            None => {
                let ghost pre = failures@;
                failures.push(dup_bytes(&targets[i].name));
                proof {
                    assert(names_view(failures@) =~= names_view(pre).push(ts[i as int].name));
                    assert(names_view(pre).push(ts[i as int].name) =~= spec_failures(
                        ts.take(i + 1),
                        ans.take(i + 1),
                    ));
                    assert(spec_records(ts.take(i + 1), ans.take(i + 1)) =~= spec_records(
                        ts.take(i as int),
                        ans.take(i as int),
                    ));
                }
            },
            Some(raws) => {
                let published = parse_published(raws);
                match resolve(&targets[i].name, &targets[i].version, &published) {
                    Some(rec) => {
                        let ghost pre = records@;
                        proof {
                            assert(rec@ == spec_records(ts.take(i + 1), ans.take(i + 1)).last());
                        }
                        records.push(rec);
                        proof {
                            assert(records_view(records@) =~= records_view(pre).push(
                                records@[records@.len() - 1]@,
                            ));
                            assert(records_view(records@) =~= spec_records(
                                ts.take(i + 1),
                                ans.take(i + 1),
                            ));
                        }
                    },
                    None => {
                        proof {
                            assert(spec_records(ts.take(i + 1), ans.take(i + 1)) =~= spec_records(
                                ts.take(i as int),
                                ans.take(i as int),
                            ));
                        }
                    },
                }
                proof {
                    assert(spec_failures(ts.take(i + 1), ans.take(i + 1)) =~= spec_failures(
                        ts.take(i as int),
                        ans.take(i as int),
                    ));
                }
            },
        }
        i = i + 1;
    }
    proof {
        assert(ts.take(ts.len() as int) =~= ts);
        assert(ans.take(ans.len() as int) =~= ans);
    }
    Report { records, failures }
}

// ---------------------------------------------------------------------------
// Selecting the targets: lockfile text to package set.
// ---------------------------------------------------------------------------

/// Reachability phrased over root names instead of root indices: depth 0 is
/// every entry carrying a requested name, and each further depth follows one
/// dependency edge.
pub open spec fn nreach(es: Seq<EntryModel>, names: Seq<Seq<u8>>, k: nat, i: int) -> bool
    decreases k,
{
    if k == 0 {
        root_name_match(es, names, i)
    } else {
        nreach(es, names, (k - 1) as nat, i) || exists|j: int|
            nreach(es, names, (k - 1) as nat, j) && #[trigger] edge(es, j, i)
    }
}

proof fn lemma_rw_is_nreach(
    es: Seq<EntryModel>,
    roots: Seq<usize>,
    names: Seq<Seq<u8>>,
    k: nat,
)
    requires
        forall|i: int| #[trigger] contains_idx(roots, i) <==> root_name_match(es, names, i),
    ensures
        forall|i: int| #[trigger] rw(es, roots, k, i) <==> nreach(es, names, k, i),
    decreases k,
{
    if k == 0 {
    } else {
        lemma_rw_is_nreach(es, roots, names, (k - 1) as nat);
        assert forall|i: int| #[trigger] rw(es, roots, k, i) <==> nreach(es, names, k, i) by {
            if rw(es, roots, (k - 1) as nat, i) {
                assert(nreach(es, names, (k - 1) as nat, i));
                assert(nreach(es, names, k, i));
            }
            if nreach(es, names, (k - 1) as nat, i) {
                assert(rw(es, roots, (k - 1) as nat, i));
                assert(rw(es, roots, k, i));
            }
            if rw(es, roots, k, i) && !rw(es, roots, (k - 1) as nat, i) {
                let j = choose|j: int|
                    rw(es, roots, (k - 1) as nat, j) && #[trigger] edge(es, j, i);
                assert(nreach(es, names, (k - 1) as nat, j) && edge(es, j, i));
                assert(nreach(es, names, k, i));
            }
            if nreach(es, names, k, i) && !nreach(es, names, (k - 1) as nat, i) {
                let j = choose|j: int|
                    nreach(es, names, (k - 1) as nat, j) && #[trigger] edge(es, j, i);
                assert(rw(es, roots, (k - 1) as nat, j) && edge(es, j, i));
                assert(rw(es, roots, k, i));
            }
        }
    }
}

/// Whether entry `i` belongs to the set the walker selects for the given
/// root names and depth: at depth 0 the roots themselves, otherwise every
/// entry within `depth` edges of a root other than the roots.
pub open spec fn selected(
    es: Seq<EntryModel>,
    names: Seq<Seq<u8>>,
    depth: Option<u64>,
    i: int,
) -> bool {
    match depth {
        Some(d) => if d == 0 {
            root_name_match(es, names, i)
        } else {
            nreach(es, names, d as nat, i) && !root_name_match(es, names, i)
        },
        None => (exists|k: nat| nreach(es, names, k, i)) && !root_name_match(es, names, i),
    }
}

/// The target list holds this package identity.
pub open spec fn pkg_in(ts: Seq<PkgModel>, nm: Seq<u8>, v: VersionModel) -> bool {
    exists|q: int| 0 <= q < ts.len() && (#[trigger] ts[q]).name == nm && ts[q].ver == v
}

/// The whole front half of a run: parses the lockfile, builds and checks the
/// graph, selects the requested roots, and walks the graph to the requested
/// depth. The result holds exactly the package identities of the selected
/// entries, each once; every failure of the pipeline surfaces as the
/// corresponding error.
#[verifier::loop_isolation(false)]
#[verifier::rlimit(100)]
pub fn prepare_targets(text: &Vec<u8>, root_names: &Vec<Vec<u8>>, depth: Option<u64>) -> (r:
    Result<Vec<Pkg>, OutdatedError>)
    ensures
        match r {
            Ok(ts) => {
                &&& parse_lockfile_model(text@) matches LockParse::Entries(es)
                &&& graph_wf(es)
                &&& forall|t: int|
                    0 <= t < root_names@.len() ==> name_found(
                        es,
                        #[trigger] names_view(root_names@)[t],
                    )
                &&& forall|i: int|
                    0 <= i < es.len() ==> (pkg_in(
                        pkgs_view(ts@),
                        (#[trigger] es[i]).name,
                        es[i].ver,
                    ) <==> selected(es, names_view(root_names@), depth, i))
                &&& forall|q: int|
                    0 <= q < ts@.len() ==> exists|i: int|
                        0 <= i < es.len() && (#[trigger] pkgs_view(ts@)[q]).name == es[i].name
                            && pkgs_view(ts@)[q].ver == es[i].ver
                &&& forall|q1: int, q2: int|
                    0 <= q1 < q2 < ts@.len() ==> !((#[trigger] pkgs_view(ts@)[q1]).name
                        == (#[trigger] pkgs_view(ts@)[q2]).name && pkgs_view(ts@)[q1].ver
                        == pkgs_view(ts@)[q2].ver)
            },
            Err(e) => {
                ||| (e == OutdatedError::LockfileParse && (parse_lockfile_model(text@)
                    is BadSyntax || (parse_lockfile_model(text@) matches LockParse::Entries(es)
                    && !no_dup(es))))
                ||| (e == OutdatedError::InvalidVersion && parse_lockfile_model(text@)
                    is BadVersion)
                ||| (e matches OutdatedError::DanglingDependency { name } && parse_lockfile_model(
                    text@,
                ) matches LockParse::Entries(es) && no_dup(es) && !no_dangling(es))
                ||| (e matches OutdatedError::UnknownPackage { name } && parse_lockfile_model(
                    text@,
                ) matches LockParse::Entries(es) && graph_wf(es) && !name_found(es, name@)
                    && exists|t: int|
                    0 <= t < root_names@.len() && #[trigger] names_view(root_names@)[t] == name@)
            },
        },
{
    let entries = match parse_lockfile(text) {
        Ok(es) => es,
        Err(e) => {
            return Err(e);
        },
    };
    let graph = match build_graph(entries) {
        Ok(g) => g,
        Err(e) => {
            return Err(e);
        },
    };
    let ghost es = graph@;
    let ghost nv = names_view(root_names@);
    let roots = match select_roots(&graph, root_names) {
        Ok(idxs) => idxs,
        Err(e) => {
            return Err(e);
        },
    };
    let out = walk(&graph, &roots, depth);
    let n = graph.entries.len();
    let mut ts: Vec<Pkg> = Vec::new();
    let mut q: usize = 0;
    while q < out.len()
        invariant
            q <= out@.len(),
            ts@.len() == q,
            forall|q2: int|
                0 <= q2 < q ==> (#[trigger] pkgs_view(ts@)[q2]).name == es[out@[q2] as int].name
                    && pkgs_view(ts@)[q2].ver == es[out@[q2] as int].ver,
        decreases out@.len() - q,
    {
        let idx = out[q];
        proof {
            assert(es[idx as int] == graph.entries@[idx as int]@);
        }
        let ghost pre = ts@;
        ts.push(
            Pkg {
                name: dup_bytes(&graph.entries[idx].name),
                version: dup_version(&graph.entries[idx].version),
            },
        );
        proof {
            assert forall|q2: int|
                0 <= q2 < q + 1 implies (#[trigger] pkgs_view(ts@)[q2]).name == es[out@[q2] as int].name
                && pkgs_view(ts@)[q2].ver == es[out@[q2] as int].ver by {
                if q2 < q {
                    assert(ts@[q2] == pre[q2]);
                    assert(pkgs_view(ts@)[q2] == pkgs_view(pre)[q2]);
                }
            }
        }
        q = q + 1;
    }
    proof {
        let tv = pkgs_view(ts@);
        // membership in the target list mirrors membership in the walk output
        assert forall|i: int| 0 <= i < es.len() implies (pkg_in(
            tv,
            (#[trigger] es[i]).name,
            es[i].ver,
        ) <==> contains_idx(out@, i)) by {
            if pkg_in(tv, es[i].name, es[i].ver) {
                let q2 = choose|q2: int|
                    0 <= q2 < tv.len() && (#[trigger] tv[q2]).name == es[i].name && tv[q2].ver
                        == es[i].ver;
                let j = out@[q2] as int;
                assert(es[j].name == es[i].name && es[j].ver == es[i].ver);
                if i != j {
                    assert(!no_dup(es) || i == j) by {
                        if i < j {
                            assert(es[i].name == es[j].name && es[i].ver == es[j].ver);
                        } else {
                            assert(es[j].name == es[i].name && es[j].ver == es[i].ver);
                        }
                    }
                    assert(false);
                }
                assert(contains_idx(out@, i));
            }
            if contains_idx(out@, i) {
                let t = choose|t: int| 0 <= t < out@.len() && (#[trigger] out@[t]) as int == i;
                assert(tv[t].name == es[i].name && tv[t].ver == es[i].ver);
                assert(pkg_in(tv, es[i].name, es[i].ver));
            }
        }
        // rewrite index-based reachability into name-based reachability
        assert forall|k: nat, i: int| #[trigger] rw(es, roots@, k, i) <==> nreach(es, nv, k, i) by {
            lemma_rw_is_nreach(es, roots@, nv, k);
        }
        match depth {
            Some(d) => {
                if d == 0 {
                    assert forall|i: int| 0 <= i < es.len() implies (#[trigger] contains_idx(
                        out@,
                        i,
                    ) <==> selected(es, nv, depth, i)) by {
                        assert(out@ == roots@);
                    }
                } else {
                    assert forall|i: int| 0 <= i < es.len() implies (#[trigger] contains_idx(
                        out@,
                        i,
                    ) <==> selected(es, nv, depth, i)) by {
                        assert(contains_idx(out@, i) <==> rw(es, roots@, d as nat, i)
                            && !contains_idx(roots@, i));
                    }
                }
            },
            None => {
                assert forall|i: int| 0 <= i < es.len() implies (#[trigger] contains_idx(out@, i)
                    <==> selected(es, nv, depth, i)) by {
                    if reachable(es, roots@, i) {
                        let k = choose|k: nat| rw(es, roots@, k, i);
                        assert(nreach(es, nv, k, i));
                    }
                    if exists|k: nat| nreach(es, nv, k, i) {
                        let k = choose|k: nat| nreach(es, nv, k, i);
                        assert(rw(es, roots@, k, i));
                        assert(reachable(es, roots@, i));
                    }
                }
            },
        }
        // distinctness of the produced identities
        assert forall|q1: int, q2: int|
            0 <= q1 < q2 < ts@.len() implies !((#[trigger] pkgs_view(ts@)[q1]).name
            == (#[trigger] pkgs_view(ts@)[q2]).name && pkgs_view(ts@)[q1].ver == pkgs_view(
            ts@,
        )[q2].ver) by {
            let i1 = out@[q1] as int;
            let i2 = out@[q2] as int;
            if pkgs_view(ts@)[q1].name == pkgs_view(ts@)[q2].name && pkgs_view(ts@)[q1].ver
                == pkgs_view(ts@)[q2].ver {
                if i1 < i2 {
                    assert(es[i1].name == es[i2].name && es[i1].ver == es[i2].ver);
                } else if i2 < i1 {
                    assert(es[i2].name == es[i1].name && es[i2].ver == es[i1].ver);
                }
                assert(i1 == i2);
                assert(out@[q1] != out@[q2]);
                assert(false);
            }
        }
        assert forall|q2: int| 0 <= q2 < ts@.len() implies exists|i: int|
            0 <= i < es.len() && (#[trigger] pkgs_view(ts@)[q2]).name == es[i].name && pkgs_view(
            ts@,
        )[q2].ver == es[i].ver by {
            let i = out@[q2] as int;
            assert(0 <= i < es.len() && pkgs_view(ts@)[q2].name == es[i].name && pkgs_view(
                ts@,
            )[q2].ver == es[i].ver);
        }
    }
    Ok(ts)
}

} // verus!
