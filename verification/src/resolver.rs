//! Outdated resolver: combines a package's pinned version with the
//! registry's published versions and decides which updates exist, plus the
//! aggregation of per-package outcomes into a report.

use vstd::prelude::*;
use crate::graph::{Pkg, PkgModel, pkgs_view, names_view};
use crate::version::{
    Version, VersionModel, VersionOrder, lt_model, eq_model, compat_model, parse_version_model,
    parse_version, dup_bytes, dup_version,
};

verus! {

broadcast use vstd::seq_lib::group_seq_properties;

/// One report line: a package for which at least one newer published
/// version exists. `latest` is the newest published version overall,
/// `semver` the newest one compatible with the pinned version; either is
/// absent when no such strictly newer version exists.
pub struct OutdatedRecord {
    pub name: Vec<u8>,
    pub project_ver: Version,
    pub semver_ver: Option<Version>,
    pub latest_ver: Option<Version>,
}

/// Mathematical model of an `OutdatedRecord`.
#[verifier::ext_equal]
pub ghost struct RecordModel {
    pub name: Seq<u8>,
    pub project: VersionModel,
    pub semver: Option<VersionModel>,
    pub latest: Option<VersionModel>,
}

pub open spec fn opt_version_view(o: Option<Version>) -> Option<VersionModel> {
    match o {
        Some(v) => Some(v@),
        None => None,
    }
}

impl View for OutdatedRecord {
    type V = RecordModel;

    open spec fn view(&self) -> RecordModel {
        RecordModel {
            name: self.name@,
            project: self.project_ver@,
            semver: opt_version_view(self.semver_ver),
            latest: opt_version_view(self.latest_ver),
        }
    }
}

pub open spec fn versions_view(s: Seq<Version>) -> Seq<VersionModel> {
    s.map_values(|v: Version| v@)
}

pub open spec fn records_view(s: Seq<OutdatedRecord>) -> Seq<RecordModel> {
    s.map_values(|r: OutdatedRecord| r@)
}

/// A published version is a candidate update for pinned version `p`:
/// strictly newer under the version order, and not a pre-release unless the
/// project itself is pinned to a pre-release.
pub open spec fn candidate_ok(c: VersionModel, p: VersionModel) -> bool {
    lt_model(p, c) && (c.pre is Some ==> p.pre is Some)
}

/// The update the resolver reports among all candidates: scanning the
/// published list left to right, keep the first candidate and replace it
/// whenever a strictly greater candidate appears.
pub open spec fn best_any(vs: Seq<VersionModel>, p: VersionModel) -> Option<VersionModel>
    decreases vs.len(),
{
    if vs.len() == 0 {
        None
    } else {
        let rest = best_any(vs.drop_last(), p);
        let c = vs.last();
        if candidate_ok(c, p) {
            match rest {
                None => Some(c),
                Some(b) => if lt_model(b, c) {
                    Some(c)
                } else {
                    Some(b)
                },
            }
        } else {
            rest
        }
    }
}

/// As `best_any`, restricted to candidates semver-compatible with `p`.
pub open spec fn best_compat(vs: Seq<VersionModel>, p: VersionModel) -> Option<VersionModel>
    decreases vs.len(),
{
    if vs.len() == 0 {
        None
    } else {
        let rest = best_compat(vs.drop_last(), p);
        let c = vs.last();
        if candidate_ok(c, p) && compat_model(c, p) {
            match rest {
                None => Some(c),
                Some(b) => if lt_model(b, c) {
                    Some(c)
                } else {
                    Some(b)
                },
            }
        } else {
            rest
        }
    }
}

/// Decides the update status of one package: the record is produced exactly
/// when some published version is a candidate update, and then carries the
/// newest candidate overall and the newest semver-compatible candidate.
pub fn resolve(name: &Vec<u8>, project_ver: &Version, published: &Vec<Version>) -> (r: Option<
    OutdatedRecord,
>)
    ensures
        match r {
            Some(rec) => {
                &&& rec@.name == name@
                &&& rec@.project == project_ver@
                &&& rec@.latest == best_any(versions_view(published@), project_ver@)
                &&& rec@.semver == best_compat(versions_view(published@), project_ver@)
                &&& best_any(versions_view(published@), project_ver@) is Some
            },
            None => best_any(versions_view(published@), project_ver@) is None,
        },
{
    let ghost vs = versions_view(published@);
    let ghost p = project_ver@;
    let mut best: Option<Version> = None;
    let mut bestc: Option<Version> = None;
    let mut i: usize = 0;
    while i < published.len()
        invariant
            i <= published.len(),
            vs == versions_view(published@),
            p == project_ver@,
            opt_version_view(best) == best_any(vs.take(i as int), p),
            opt_version_view(bestc) == best_compat(vs.take(i as int), p),
        decreases published.len() - i,
    {
        let c = &published[i];
        proof {
            assert(vs[i as int] == published@[i as int]@);
            assert(vs.take(i + 1).drop_last() =~= vs.take(i as int));
            assert(vs.take(i + 1).last() == vs[i as int]);
        }
        let newer = Version::compare(project_ver, c);
        let pre_ok = match (&c.pre, &project_ver.pre) {
            (Some(_), None) => false,
            _ => true,
        };
        proof {
            if eq_model(p, c@) && lt_model(p, c@) {
                crate::version::lemma_eq_not_lt(p, c@);
            }
        }
        if matches!(newer, VersionOrder::Less) && pre_ok {
            proof {
                assert(candidate_ok(c@, p));
            }
            match &best {
                None => {
                    best = Some(dup_version(c));
                },
                Some(b) => {
                    proof {
                        if eq_model(b@, c@) && lt_model(b@, c@) {
                            crate::version::lemma_eq_not_lt(b@, c@);
                        }
                    }
                    if matches!(Version::compare(b, c), VersionOrder::Less) {
                        best = Some(dup_version(c));
                    }
                },
            }
            let compat = Version::is_compatible(c, project_ver);
            if compat {
                match &bestc {
                    None => {
                        bestc = Some(dup_version(c));
                    },
                    Some(b) => {
                        proof {
                            if eq_model(b@, c@) && lt_model(b@, c@) {
                                crate::version::lemma_eq_not_lt(b@, c@);
                            }
                        }
                        if matches!(Version::compare(b, c), VersionOrder::Less) {
                            bestc = Some(dup_version(c));
                        }
                    },
                }
            }
        } else {
            proof {
                assert(!candidate_ok(c@, p));
            }
        }
        i = i + 1;
    }
    proof {
        assert(vs.take(vs.len() as int) =~= vs);
    }
    match best {
        None => None,
        Some(b) => Some(
            OutdatedRecord {
                name: dup_bytes(name),
                project_ver: dup_version(project_ver),
                semver_ver: bestc,
                latest_ver: Some(b),
            },
        ),
    }
}

/// What `best_any` reports is sound and complete: a reported update is a
/// candidate no other candidate strictly exceeds, and no report at all means
/// no candidate exists.
pub proof fn lemma_best_any_props(vs: Seq<VersionModel>, p: VersionModel)
    ensures
        match best_any(vs, p) {
            Some(b) => {
                &&& exists|i: int| 0 <= i < vs.len() && vs[i] == b
                &&& candidate_ok(b, p)
                &&& forall|i: int|
                    0 <= i < vs.len() && candidate_ok(#[trigger] vs[i], p) ==> !lt_model(b, vs[i])
            },
            None => forall|i: int| 0 <= i < vs.len() ==> !candidate_ok(#[trigger] vs[i], p),
        },
    decreases vs.len(),
{
    if vs.len() > 0 {
        lemma_best_any_props(vs.drop_last(), p);
        let rest = best_any(vs.drop_last(), p);
        let c = vs.last();
        assert forall|i: int| 0 <= i < vs.len() - 1 implies vs.drop_last()[i] == vs[i] by {}
        match best_any(vs, p) {
            Some(b) => {
                assert forall|i: int|
                    0 <= i < vs.len() && candidate_ok(#[trigger] vs[i], p) implies !lt_model(
                    b,
                    vs[i],
                ) by {
                    if i < vs.len() - 1 {
                        match rest {
                            Some(b0) => {
                                if lt_model(b, vs[i]) {
                                    if b != b0 {
                                        assert(b == c && lt_model(b0, c));
                                        crate::version::lemma_lt_trans(b0, b, vs[i]);
                                    }
                                    assert(lt_model(b0, vs[i]));
                                    assert(false);
                                }
                            },
                            None => {
                                assert(!candidate_ok(vs[i], p));
                            },
                        }
                    } else {
                        if lt_model(b, c) {
                            match rest {
                                Some(b0) => {
                                    if b != c {
                                        assert(b == b0 && !lt_model(b0, c));
                                        assert(false);
                                    }
                                    crate::version::lemma_lt_irrefl(c);
                                },
                                None => {
                                    crate::version::lemma_lt_irrefl(c);
                                },
                            }
                        }
                    }
                }
            },
            None => {},
        }
    }
}

/// The same soundness and completeness for the semver-compatible choice.
pub proof fn lemma_best_compat_props(vs: Seq<VersionModel>, p: VersionModel)
    ensures
        match best_compat(vs, p) {
            Some(b) => {
                &&& exists|i: int| 0 <= i < vs.len() && vs[i] == b
                &&& candidate_ok(b, p) && compat_model(b, p)
                &&& forall|i: int|
                    0 <= i < vs.len() && candidate_ok(#[trigger] vs[i], p) && compat_model(
                        vs[i],
                        p,
                    ) ==> !lt_model(b, vs[i])
            },
            None => forall|i: int|
                0 <= i < vs.len() ==> !(candidate_ok(#[trigger] vs[i], p) && compat_model(
                    vs[i],
                    p,
                )),
        },
    decreases vs.len(),
{
    if vs.len() > 0 {
        lemma_best_compat_props(vs.drop_last(), p);
        let rest = best_compat(vs.drop_last(), p);
        let c = vs.last();
        assert forall|i: int| 0 <= i < vs.len() - 1 implies vs.drop_last()[i] == vs[i] by {}
        match best_compat(vs, p) {
            Some(b) => {
                assert forall|i: int|
                    0 <= i < vs.len() && candidate_ok(#[trigger] vs[i], p) && compat_model(
                        vs[i],
                        p,
                    ) implies !lt_model(b, vs[i]) by {
                    if i < vs.len() - 1 {
                        match rest {
                            Some(b0) => {
                                if lt_model(b, vs[i]) {
                                    if b != b0 {
                                        assert(b == c && lt_model(b0, c));
                                        crate::version::lemma_lt_trans(b0, b, vs[i]);
                                    }
                                    assert(lt_model(b0, vs[i]));
                                    assert(false);
                                }
                            },
                            None => {},
                        }
                    } else {
                        if lt_model(b, c) {
                            match rest {
                                Some(b0) => {
                                    if b != c {
                                        assert(b == b0 && !lt_model(b0, c));
                                        assert(false);
                                    }
                                    crate::version::lemma_lt_irrefl(c);
                                },
                                None => {
                                    crate::version::lemma_lt_irrefl(c);
                                },
                            }
                        }
                    }
                }
            },
            None => {},
        }
    }
}

/// Law: a package pinned at (or above) every published version is never
/// reported as outdated — the resolver emits no record for it.
pub proof fn lemma_no_update_when_max(vs: Seq<VersionModel>, p: VersionModel)
    requires
        forall|i: int| 0 <= i < vs.len() ==> !lt_model(p, #[trigger] vs[i]),
    ensures
        best_any(vs, p) is None,
        best_compat(vs, p) is None,
{
    lemma_best_any_props(vs, p);
    lemma_best_compat_props(vs, p);
    match best_any(vs, p) {
        Some(b) => {
            let i = choose|i: int| 0 <= i < vs.len() && vs[i] == b;
            assert(!lt_model(p, vs[i]));
            assert(false);
        },
        None => {},
    }
    match best_compat(vs, p) {
        Some(b) => {
            let i = choose|i: int| 0 <= i < vs.len() && vs[i] == b;
            assert(!lt_model(p, vs[i]));
            assert(false);
        },
        None => {},
    }
}

} // verus!
