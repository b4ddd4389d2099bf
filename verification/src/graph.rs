//! Dependency-graph model: lockfile entries with their dependency edges, the
//! structural checks performed when the graph is built, and the depth-limited
//! breadth-first walker.

use vstd::prelude::*;
use crate::error::OutdatedError;
use crate::version::{Version, VersionModel, bytes_eq, version_eq};

verus! {

broadcast use vstd::seq_lib::group_seq_properties;

/// One resolved package identity: a name pinned at an exact version.
pub struct Pkg {
    pub name: Vec<u8>,
    pub version: Version,
}

/// Mathematical model of a `Pkg`.
#[verifier::ext_equal]
pub ghost struct PkgModel {
    pub name: Seq<u8>,
    pub ver: VersionModel,
}

impl View for Pkg {
    type V = PkgModel;

    open spec fn view(&self) -> PkgModel {
        PkgModel { name: self.name@, ver: self.version@ }
    }
}

/// One lockfile entry: a package identity plus its dependency edges, each
/// naming the exact resolved version of one dependency.
pub struct Entry {
    pub name: Vec<u8>,
    pub version: Version,
    pub deps: Vec<Pkg>,
}

/// Mathematical model of an `Entry`.
#[verifier::ext_equal]
pub ghost struct EntryModel {
    pub name: Seq<u8>,
    pub ver: VersionModel,
    pub deps: Seq<PkgModel>,
}

pub open spec fn pkgs_view(s: Seq<Pkg>) -> Seq<PkgModel> {
    s.map_values(|p: Pkg| p@)
}

impl View for Entry {
    type V = EntryModel;

    open spec fn view(&self) -> EntryModel {
        EntryModel { name: self.name@, ver: self.version@, deps: pkgs_view(self.deps@) }
    }
}

pub open spec fn entries_view(s: Seq<Entry>) -> Seq<EntryModel> {
    s.map_values(|e: Entry| e@)
}

/// The dependency graph: the lockfile's entry set, read-only once built.
pub struct Graph {
    pub entries: Vec<Entry>,
}

impl View for Graph {
    type V = Seq<EntryModel>;

    open spec fn view(&self) -> Seq<EntryModel> {
        entries_view(self.entries@)
    }
}

// ---------------------------------------------------------------------------
// Structural well-formedness.
// ---------------------------------------------------------------------------

/// No two entries record the same package name at the same version.
pub open spec fn no_dup(es: Seq<EntryModel>) -> bool {
    forall|i: int, j: int|
        0 <= i < j < es.len() ==> !((#[trigger] es[i]).name == (#[trigger] es[j]).name && es[i].ver
            == es[j].ver)
}

/// Some entry carries exactly this package name and version.
pub open spec fn has_entry(es: Seq<EntryModel>, name: Seq<u8>, ver: VersionModel) -> bool {
    exists|i: int| 0 <= i < es.len() && (#[trigger] es[i]).name == name && es[i].ver == ver
}

/// Every dependency edge points at an entry of the set itself.
pub open spec fn no_dangling(es: Seq<EntryModel>) -> bool {
    forall|i: int, j: int|
        0 <= i < es.len() && 0 <= j < es[i].deps.len() ==> has_entry(
            es,
            (#[trigger] es[i].deps[j]).name,
            es[i].deps[j].ver,
        )
}

pub open spec fn graph_wf(es: Seq<EntryModel>) -> bool {
    no_dup(es) && no_dangling(es)
}

fn entry_key_eq(a: &Entry, b: &Entry) -> (r: bool)
    ensures
        r == (a@.name == b@.name && a@.ver == b@.ver),
{
    bytes_eq(&a.name, &b.name) && version_eq(&a.version, &b.version)
}

/// Index of the entry with this name and version, if one exists.
fn find_entry(entries: &Vec<Entry>, name: &Vec<u8>, ver: &Version) -> (r: Option<usize>)
    ensures
        match r {
            Some(i) => i < entries.len() && entries_view(entries@)[i as int].name == name@
                && entries_view(entries@)[i as int].ver == ver@,
            None => !has_entry(entries_view(entries@), name@, ver@),
        },
{
    let ghost es = entries_view(entries@);
    let mut i: usize = 0;
    while i < entries.len()
        invariant
            i <= entries.len(),
            es == entries_view(entries@),
            forall|k: int| 0 <= k < i ==> !((#[trigger] es[k]).name == name@ && es[k].ver == ver@),
        decreases entries.len() - i,
    {
        let e = &entries[i];
        if bytes_eq(&e.name, name) && version_eq(&e.version, ver) {
            proof {
                assert(es[i as int] == entries@[i as int]@);
            }
            return Some(i);
        }
        proof {
            assert(es[i as int] == entries@[i as int]@);
        }
        i = i + 1;
    }
    None
}

/// Builds the dependency graph from parsed lockfile entries, rejecting a
/// duplicate package identity (`LockfileParse`) and any dependency edge that
/// names a package identity absent from the entry set
/// (`DanglingDependency`, carrying the offending package name).
pub fn build_graph(entries: Vec<Entry>) -> (r: Result<Graph, OutdatedError>)
    ensures
        match r {
            Ok(g) => g@ == entries_view(entries@) && graph_wf(g@),
            Err(e) => {
                ||| (e == OutdatedError::LockfileParse && !no_dup(entries_view(entries@)))
                ||| {
                    &&& e matches OutdatedError::DanglingDependency { name }
                    &&& no_dup(entries_view(entries@))
                    &&& !no_dangling(entries_view(entries@))
                    &&& exists|i: int, j: int|
                        0 <= i < entries_view(entries@).len() && 0 <= j < entries_view(
                            entries@,
                        )[i].deps.len() && (#[trigger] entries_view(entries@)[i].deps[j]).name
                            == name@ && !has_entry(
                            entries_view(entries@),
                            entries_view(entries@)[i].deps[j].name,
                            entries_view(entries@)[i].deps[j].ver,
                        )
                }
            },
        },
{
    let ghost es = entries_view(entries@);
    let n = entries.len();
    // Duplicate package identities.
    let mut i: usize = 0;
    while i < n
        invariant
            i <= n,
            n == entries.len(),
            es == entries_view(entries@),
            forall|p: int, q: int|
                0 <= p < q < i ==> !((#[trigger] es[p]).name == (#[trigger] es[q]).name && es[p].ver
                    == es[q].ver),
        decreases n - i,
    {
        let mut j: usize = 0;
        while j < i
            invariant
                j <= i < n,
                n == entries.len(),
                es == entries_view(entries@),
                forall|p: int|
                    0 <= p < j ==> !((#[trigger] es[p]).name == es[i as int].name && es[p].ver
                        == es[i as int].ver),
            decreases i - j,
        {
            if entry_key_eq(&entries[j], &entries[i]) {
                proof {
                    assert(es[j as int] == entries@[j as int]@);
                    assert(es[i as int] == entries@[i as int]@);
                    assert(!no_dup(es));
                }
                return Err(OutdatedError::LockfileParse);
            }
            proof {
                assert(es[j as int] == entries@[j as int]@);
                assert(es[i as int] == entries@[i as int]@);
            }
            j = j + 1;
        }
        i = i + 1;
    }
    // Dangling dependency edges.
    let mut i2: usize = 0;
    while i2 < n
        invariant
            i2 <= n,
            n == entries.len(),
            es == entries_view(entries@),
            no_dup(es),
            forall|p: int, q: int|
                0 <= p < i2 && 0 <= q < es[p].deps.len() ==> has_entry(
                    es,
                    (#[trigger] es[p].deps[q]).name,
                    es[p].deps[q].ver,
                ),
        decreases n - i2,
    {
        let ndeps = entries[i2].deps.len();
        let mut j: usize = 0;
        while j < ndeps
            invariant
                j <= ndeps,
                i2 < n,
                n == entries.len(),
                ndeps == entries@[i2 as int].deps.len(),
                es == entries_view(entries@),
                no_dup(es),
                forall|q: int|
                    0 <= q < j ==> has_entry(
                        es,
                        (#[trigger] es[i2 as int].deps[q]).name,
                        es[i2 as int].deps[q].ver,
                    ),
            decreases ndeps - j,
        {
            proof {
                assert(es[i2 as int] == entries@[i2 as int]@);
                assert(es[i2 as int].deps[j as int] == entries@[i2 as int].deps@[j as int]@);
            }
            let dep_name = &entries[i2].deps[j].name;
            let dep_ver = &entries[i2].deps[j].version;
            match find_entry(&entries, dep_name, dep_ver) {
                Some(_) => {},
                None => {
                    proof {
                        let gj = j as int;
                        assert(!has_entry(es, es[i2 as int].deps[gj].name, es[i2 as int].deps[gj].ver));
                        assert(!no_dangling(es));
                    }
                    let missing = crate::version::bytes_range(
                        &entries[i2].deps[j].name,
                        0,
                        entries[i2].deps[j].name.len(),
                    );
                    proof {
                        assert(missing@ =~= es[i2 as int].deps[j as int].name);
                    }
                    return Err(OutdatedError::DanglingDependency { name: missing });
                },
            }
            j = j + 1;
        }
        i2 = i2 + 1;
    }
    Ok(Graph { entries })
}

// ---------------------------------------------------------------------------
// Reachability.
// ---------------------------------------------------------------------------

/// `v` holds the index `i`.
pub open spec fn contains_idx(v: Seq<usize>, i: int) -> bool {
    exists|t: int| 0 <= t < v.len() && (#[trigger] v[t]) as int == i
}

/// Dependency `p` of entry `j` names exactly the package identity of entry
/// `i`.
pub open spec fn dep_match(es: Seq<EntryModel>, j: int, p: int, i: int) -> bool {
    0 <= i < es.len() && es[j].deps[p].name == es[i].name && es[j].deps[p].ver == es[i].ver
}

/// The graph has an edge from entry `j` to entry `i`.
pub open spec fn edge(es: Seq<EntryModel>, j: int, i: int) -> bool {
    0 <= j < es.len() && 0 <= i < es.len() && exists|p: int|
        0 <= p < es[j].deps.len() && #[trigger] dep_match(es, j, p, i)
}

/// Entry `i` lies within `k` dependency edges of some root index: the roots
/// themselves are at depth 0, and following one edge adds one to the depth.
pub open spec fn rw(es: Seq<EntryModel>, roots: Seq<usize>, k: nat, i: int) -> bool
    decreases k,
{
    if k == 0 {
        contains_idx(roots, i)
    } else {
        rw(es, roots, (k - 1) as nat, i) || exists|j: int|
            rw(es, roots, (k - 1) as nat, j) && #[trigger] edge(es, j, i)
    }
}

/// Entry `i` is reachable from the roots by any number of edges.
pub open spec fn reachable(es: Seq<EntryModel>, roots: Seq<usize>, i: int) -> bool {
    exists|k: nat| rw(es, roots, k, i)
}

/// Entry `i` first appears at depth `k`: within `k` edges but not fewer.
pub open spec fn new_at(es: Seq<EntryModel>, roots: Seq<usize>, k: nat, i: int) -> bool {
    if k == 0 {
        rw(es, roots, 0, i)
    } else {
        rw(es, roots, k, i) && !rw(es, roots, (k - 1) as nat, i)
    }
}

spec fn edge_idx(es: Seq<EntryModel>, fr: Seq<usize>, t2: int, i: int) -> bool {
    edge(es, fr[t2] as int, i)
}

spec fn succ_from(es: Seq<EntryModel>, fr: Seq<usize>, t: int, i: int) -> bool {
    exists|t2: int| 0 <= t2 < t && #[trigger] edge_idx(es, fr, t2, i)
}

spec fn deps_upto(es: Seq<EntryModel>, j: int, p: int, i: int) -> bool {
    exists|p2: int| 0 <= p2 < p && #[trigger] dep_match(es, j, p2, i)
}

proof fn lemma_rw_mono_le(es: Seq<EntryModel>, roots: Seq<usize>, k: nat, m: nat)
    requires
        k <= m,
    ensures
        forall|i: int| rw(es, roots, k, i) ==> #[trigger] rw(es, roots, m, i),
    decreases m,
{
    if m > k {
        lemma_rw_mono_le(es, roots, k, (m - 1) as nat);
        assert forall|i: int| rw(es, roots, k, i) implies #[trigger] rw(es, roots, m, i) by {
            assert(rw(es, roots, (m - 1) as nat, i));
        }
    }
}

proof fn lemma_rw_in_range(es: Seq<EntryModel>, roots: Seq<usize>, k: nat)
    requires
        forall|t: int| 0 <= t < roots.len() ==> (#[trigger] roots[t]) < es.len(),
    ensures
        forall|i: int| #[trigger] rw(es, roots, k, i) ==> 0 <= i < es.len(),
    decreases k,
{
    if k > 0 {
        lemma_rw_in_range(es, roots, (k - 1) as nat);
        assert forall|i: int| #[trigger] rw(es, roots, k, i) implies 0 <= i < es.len() by {
            if rw(es, roots, (k - 1) as nat, i) {
            } else {
                let j = choose|j: int| rw(es, roots, (k - 1) as nat, j) && edge(es, j, i);
                assert(edge(es, j, i));
            }
        }
    }
}

/// One layer of breadth-first expansion: the set within `k + 1` edges is the
/// set within `k` edges plus everything one edge away from the depth-`k`
/// frontier.
proof fn lemma_rw_step(es: Seq<EntryModel>, roots: Seq<usize>, fr: Seq<usize>, k: nat)
    requires
        forall|i: int| contains_idx(fr, i) <==> new_at(es, roots, k, i),
    ensures
        forall|i: int|
            #[trigger] rw(es, roots, (k + 1) as nat, i) <==> rw(es, roots, k, i) || succ_from(
                es,
                fr,
                fr.len() as int,
                i,
            ),
{
    assert forall|i: int|
        #[trigger] rw(es, roots, (k + 1) as nat, i) <==> rw(es, roots, k, i) || succ_from(
            es,
            fr,
            fr.len() as int,
            i,
        ) by {
        assert(((k + 1) as nat - 1) as nat == k);
        if rw(es, roots, (k + 1) as nat, i) {
            if !rw(es, roots, k, i) {
                let j = choose|j: int| rw(es, roots, k, j) && edge(es, j, i);
                assert(rw(es, roots, k, j) && edge(es, j, i));
                if new_at(es, roots, k, j) {
                    assert(contains_idx(fr, j));
                    let t2 = choose|t2: int| 0 <= t2 < fr.len() && (#[trigger] fr[t2]) as int == j;
                    assert(edge_idx(es, fr, t2, i));
                    assert(succ_from(es, fr, fr.len() as int, i));
                } else {
                    assert(k >= 1 && rw(es, roots, (k - 1) as nat, j));
                    assert(exists|j2: int|
                        #[trigger] rw(es, roots, (k - 1) as nat, j2) && edge(es, j2, i));
                    assert(rw(es, roots, k, i));
                }
            }
        }
        if rw(es, roots, k, i) {
            assert(rw(es, roots, (k + 1) as nat, i));
        }
        if succ_from(es, fr, fr.len() as int, i) {
            let t2 = choose|t2: int| 0 <= t2 < fr.len() && #[trigger] edge_idx(es, fr, t2, i);
            let j = fr[t2] as int;
            assert(contains_idx(fr, j));
            assert(new_at(es, roots, k, j));
            assert(rw(es, roots, k, j) && edge(es, j, i));
            assert(rw(es, roots, (k + 1) as nat, i));
        }
    }
}

/// Once one layer adds nothing new, no later layer adds anything either.
proof fn lemma_rw_stable(es: Seq<EntryModel>, roots: Seq<usize>, k: nat, m: nat)
    requires
        forall|i: int| #[trigger] rw(es, roots, (k + 1) as nat, i) ==> rw(es, roots, k, i),
    ensures
        forall|i: int| #[trigger] rw(es, roots, m, i) ==> rw(es, roots, k, i),
    decreases m,
{
    if m <= k {
        lemma_rw_mono_le(es, roots, m, k);
    } else if m == k + 1 {
    } else {
        lemma_rw_stable(es, roots, k, (m - 1) as nat);
        assert forall|i: int| #[trigger] rw(es, roots, m, i) implies rw(es, roots, k, i) by {
            assert(((k + 1) as nat - 1) as nat == k);
            assert((m - 1) as nat >= 1);
            if !rw(es, roots, (m - 1) as nat, i) {
                let j = choose|j: int| rw(es, roots, (m - 1) as nat, j) && edge(es, j, i);
                assert(rw(es, roots, (m - 1) as nat, j) && edge(es, j, i));
                assert(rw(es, roots, k, j));
                assert(exists|j2: int| #[trigger] rw(es, roots, k, j2) && edge(es, j2, i));
                assert(rw(es, roots, (k + 1) as nat, i));
                assert(rw(es, roots, k, i));
            }
        }
    }
}

spec fn count_true(v: Seq<bool>) -> int
    decreases v.len(),
{
    if v.len() == 0 {
        0
    } else {
        count_true(v.drop_last()) + if v.last() {
            1int
        } else {
            0int
        }
    }
}

proof fn lemma_count_true_bounds(v: Seq<bool>)
    ensures
        0 <= count_true(v) <= v.len(),
    decreases v.len(),
{
    if v.len() > 0 {
        lemma_count_true_bounds(v.drop_last());
    }
}

proof fn lemma_count_true_update(v: Seq<bool>, i: int)
    requires
        0 <= i < v.len(),
        !v[i],
    ensures
        count_true(v.update(i, true)) == count_true(v) + 1,
    decreases v.len(),
{
    let w = v.update(i, true);
    if i == v.len() - 1 {
        assert(w.drop_last() =~= v.drop_last());
        assert(w.last());
        assert(!v.last());
    } else {
        assert(w.drop_last() =~= v.drop_last().update(i, true));
        assert(w.last() == v.last());
        lemma_count_true_update(v.drop_last(), i);
    }
}

fn copy_indices(v: &Vec<usize>) -> (r: Vec<usize>)
    ensures
        r@ == v@,
{
    let mut r: Vec<usize> = Vec::new();
    let mut i: usize = 0;
    while i < v.len()
        invariant
            i <= v.len(),
            r@ == v@.take(i as int),
        decreases v.len() - i,
    {
        r.push(v[i]);
        proof {
            assert(v@.take(i + 1) =~= v@.take(i as int).push(v@[i as int]));
        }
        i = i + 1;
    }
    proof {
        assert(v@.take(v@.len() as int) =~= v@);
    }
    r
}

/// Breadth-first traversal from the root indices, bounded by `depth`
/// (`None` = unbounded). Depth 0 yields exactly the roots. For a positive or
/// unbounded depth the result holds every entry whose least distance from a
/// root is between one and `depth` edges — the roots themselves are left
/// out — each exactly once even when many paths reach it.
#[verifier::loop_isolation(false)]
#[verifier::rlimit(100)]
pub fn walk(g: &Graph, roots: &Vec<usize>, depth: Option<u64>) -> (r: Vec<usize>)
    requires
        graph_wf(g@),
        forall|t: int| 0 <= t < roots@.len() ==> (#[trigger] roots@[t]) < g@.len(),
        forall|t1: int, t2: int| 0 <= t1 < t2 < roots@.len() ==> roots@[t1] != roots@[t2],
    ensures
        forall|t1: int, t2: int| 0 <= t1 < t2 < r@.len() ==> r@[t1] != r@[t2],
        forall|t: int| 0 <= t < r@.len() ==> (#[trigger] r@[t]) < g@.len(),
        match depth {
            Some(d) => if d == 0 {
                r@ == roots@
            } else {
                forall|i: int|
                    #[trigger] contains_idx(r@, i) <==> rw(g@, roots@, d as nat, i)
                        && !contains_idx(roots@, i)
            },
            None => forall|i: int|
                #[trigger] contains_idx(r@, i) <==> reachable(g@, roots@, i) && !contains_idx(
                    roots@,
                    i,
                ),
        },
{
    let ghost es = g@;
    let n = g.entries.len();
    proof {
        assert(es.len() == n);
    }
    if let Some(d) = depth {
        if d == 0 {
            return copy_indices(roots);
        }
    }
    // Mark the roots as depth-0 layer.
    let mut visited: Vec<bool> = Vec::new();
    let mut t0: usize = 0;
    while t0 < n
        invariant
            t0 <= n,
            visited@.len() == t0,
            forall|i: int| 0 <= i < t0 ==> !(#[trigger] visited@[i]),
        decreases n - t0,
    {
        visited.push(false);
        t0 = t0 + 1;
    }
    let mut nvis: usize = 0;
    let mut frontier: Vec<usize> = Vec::new();
    let mut out: Vec<usize> = Vec::new();
    let mut ti: usize = 0;
    proof {
        assert(count_true(visited@) == 0) by {
            lemma_count_true_bounds(visited@);
            if count_true(visited@) > 0 {
                lemma_count_all_false(visited@);
            }
        }
    }
    while ti < roots.len()
        invariant
            ti <= roots.len(),
            visited@.len() == n,
            nvis <= ti,
            nvis == count_true(visited@),
            frontier@ == roots@.take(ti as int),
            forall|i: int|
                0 <= i < n ==> ((#[trigger] visited@[i]) <==> contains_idx(
                    roots@.take(ti as int),
                    i,
                )),
        decreases roots.len() - ti,
    {
        let idx = roots[ti];
        proof {
            if visited@[idx as int] {
                let t = choose|t: int|
                    0 <= t < ti && (#[trigger] roots@.take(ti as int)[t]) as int == idx as int;
                assert(roots@[t] == roots@[ti as int]);
                assert(false);
            }
        }
        let ghost pre0 = visited@;
        visited.set(idx, true);
        proof {
            lemma_count_true_update(pre0, idx as int);
        }
        nvis = nvis + 1;
        frontier.push(idx);
        proof {
            assert(roots@.take(ti + 1) =~= roots@.take(ti as int).push(roots@[ti as int]));
            assert forall|i: int| 0 <= i < n implies ((#[trigger] visited@[i]) <==> contains_idx(
                roots@.take(ti + 1),
                i,
            )) by {
                if visited@[i] {
                    if i == idx as int {
                        assert(roots@.take(ti + 1)[ti as int] as int == i);
                        assert(contains_idx(roots@.take(ti + 1), i));
                    } else {
                        let t = choose|t: int|
                            0 <= t < ti && (#[trigger] roots@.take(ti as int)[t]) as int == i;
                        assert(roots@.take(ti + 1)[t] as int == i);
                    }
                } else {
                    if contains_idx(roots@.take(ti + 1), i) {
                        let t = choose|t: int|
                            0 <= t < ti + 1 && (#[trigger] roots@.take(ti + 1)[t]) as int == i;
                        if t < ti {
                            assert(roots@.take(ti as int)[t] as int == i);
                        } else {
                            assert(i == idx as int);
                        }
                        assert(false);
                    }
                }
            }
        }
        ti = ti + 1;
    }
    let ghost mut gk: nat = 0;
    let mut layers: u64 = 0;
    proof {
        assert(roots@.take(roots@.len() as int) =~= roots@);
        assert forall|i: int| 0 <= i < n implies ((#[trigger] visited@[i]) <==> rw(
            es,
            roots@,
            0,
            i,
        )) by {}
        assert forall|i: int| contains_idx(frontier@, i) <==> new_at(es, roots@, 0, i) by {}
    }
    proof {
        lemma_count_true_bounds(visited@);
    }
    let mut go: bool = frontier.len() > 0 && match depth {
        Some(d) => layers < d,
        None => true,
    };
    while go
        invariant
            go == (frontier@.len() > 0 && match depth {
                Some(d) => layers < d,
                None => true,
            }),
            visited@.len() == n,
            nvis <= n,
            nvis == count_true(visited@),
            depth matches Some(d) ==> gk == layers as nat && gk <= d as nat && d >= 1,
            forall|i: int| 0 <= i < n ==> ((#[trigger] visited@[i]) <==> rw(es, roots@, gk, i)),
            forall|i: int| #[trigger] contains_idx(frontier@, i) <==> new_at(es, roots@, gk, i),
            forall|t: int| 0 <= t < frontier@.len() ==> (#[trigger] frontier@[t]) < n,
            forall|i: int|
                #[trigger] contains_idx(out@, i) <==> (0 <= i < n && visited@[i] && !contains_idx(
                    roots@,
                    i,
                )),
            forall|t1: int, t2: int| 0 <= t1 < t2 < out@.len() ==> out@[t1] != out@[t2],
            forall|t: int| 0 <= t < out@.len() ==> (#[trigger] out@[t]) < n,
        decreases n - nvis, frontier@.len(),
    {
        let ghost nvis0 = nvis as int;
        let mut next: Vec<usize> = Vec::new();
        let mut t: usize = 0;
        while t < frontier.len()
            invariant
                t <= frontier@.len(),
                visited@.len() == n,
                nvis <= n,
                nvis == count_true(visited@),
                nvis == nvis0 + next@.len(),
                forall|i: int|
                    0 <= i < n ==> ((#[trigger] visited@[i]) <==> rw(es, roots@, gk, i)
                        || succ_from(es, frontier@, t as int, i)),
                forall|i: int|
                    #[trigger] contains_idx(next@, i) <==> (0 <= i < n && visited@[i] && !rw(
                        es,
                        roots@,
                        gk,
                        i,
                    )),
                forall|tq: int| 0 <= tq < next@.len() ==> (#[trigger] next@[tq]) < n,
                forall|i: int|
                    #[trigger] contains_idx(out@, i) <==> (0 <= i < n && visited@[i]
                        && !contains_idx(roots@, i)),
                forall|t1: int, t2: int| 0 <= t1 < t2 < out@.len() ==> out@[t1] != out@[t2],
                forall|tq: int| 0 <= tq < out@.len() ==> (#[trigger] out@[tq]) < n,
            decreases frontier@.len() - t,
        {
            let jv = frontier[t];
            let ndeps = g.entries[jv].deps.len();
            proof {
                assert(es[jv as int] == g.entries@[jv as int]@);
            }
            let mut p: usize = 0;
            while p < ndeps
                invariant
                    p <= ndeps,
                    t < frontier@.len(),
                    jv == frontier@[t as int],
                    jv < n,
                    ndeps == es[jv as int].deps.len(),
                    visited@.len() == n,
                    nvis <= n,
                    nvis == count_true(visited@),
                    nvis == nvis0 + next@.len(),
                    forall|i: int|
                        0 <= i < n ==> ((#[trigger] visited@[i]) <==> rw(es, roots@, gk, i)
                            || succ_from(es, frontier@, t as int, i) || deps_upto(
                            es,
                            jv as int,
                            p as int,
                            i,
                        )),
                    forall|i: int|
                        #[trigger] contains_idx(next@, i) <==> (0 <= i < n && visited@[i] && !rw(
                            es,
                            roots@,
                            gk,
                            i,
                        )),
                    forall|tq: int| 0 <= tq < next@.len() ==> (#[trigger] next@[tq]) < n,
                    forall|i: int|
                        #[trigger] contains_idx(out@, i) <==> (0 <= i < n && visited@[i]
                            && !contains_idx(roots@, i)),
                    forall|t1: int, t2: int| 0 <= t1 < t2 < out@.len() ==> out@[t1] != out@[t2],
                    forall|tq: int| 0 <= tq < out@.len() ==> (#[trigger] out@[tq]) < n,
                decreases ndeps - p,
            {
                proof {
                    assert(es[jv as int].deps[p as int] == g.entries@[jv as int].deps@[p as int]@);
                }
                let dep_name = &g.entries[jv].deps[p].name;
                let dep_ver = &g.entries[jv].deps[p].version;
                match find_entry(&g.entries, dep_name, dep_ver) {
                    Some(idx) => {
                        proof {
                            assert(dep_match(es, jv as int, p as int, idx as int));
                        }
                        if !visited[idx] {
                            let ghost pre_vis = visited@;
                            let ghost pre_next = next@;
                            let ghost pre_out = out@;
                            visited.set(idx, true);
                            proof {
                                lemma_count_true_update(pre_vis, idx as int);
                                lemma_count_true_bounds(visited@);
                            }
                            nvis = nvis + 1;
                            next.push(idx);
                            out.push(idx);
                            proof {
                                lemma_step_invariants(
                                    es,
                                    pre_vis,
                                    visited@,
                                    jv as int,
                                    p as int,
                                    idx as int,
                                    n as int,
                                );
                                lemma_contains_push(pre_next, idx);
                                lemma_contains_push(pre_out, idx);
                                assert(!rw(es, roots@, gk, idx as int));
                                if contains_idx(roots@, idx as int) {
                                    lemma_rw_mono_le(es, roots@, 0, gk);
                                    assert(rw(es, roots@, gk, idx as int));
                                    assert(false);
                                }
                                assert(!contains_idx(pre_out, idx as int));
                                assert forall|t1: int, t2: int|
                                    0 <= t1 < t2 < out@.len() implies out@[t1] != out@[t2] by {
                                    if t2 == out@.len() - 1 {
                                        assert(out@[t1] == pre_out[t1]);
                                        if out@[t1] == out@[t2] {
                                            assert((pre_out[t1]) as int == idx as int);
                                            assert(contains_idx(pre_out, idx as int));
                                        }
                                    } else {
                                        assert(out@[t1] == pre_out[t1]);
                                        assert(out@[t2] == pre_out[t2]);
                                    }
                                }
                                assert forall|i: int|
                                    0 <= i < n implies ((#[trigger] visited@[i]) <==> rw(
                                    es,
                                    roots@,
                                    gk,
                                    i,
                                ) || succ_from(es, frontier@, t as int, i) || deps_upto(
                                    es,
                                    jv as int,
                                    p + 1,
                                    i,
                                )) by {
                                    if i != idx {
                                        assert(visited@[i] == pre_vis[i]);
                                    }
                                }
                            }
                        } else {
                            proof {
                                assert forall|i: int| 0 <= i < n implies ((#[trigger] visited@[i])
                                    <==> rw(es, roots@, gk, i) || succ_from(
                                    es,
                                    frontier@,
                                    t as int,
                                    i,
                                ) || deps_upto(es, jv as int, p + 1, i)) by {
                                    if deps_upto(es, jv as int, p + 1, i) && !deps_upto(
                                        es,
                                        jv as int,
                                        p as int,
                                        i,
                                    ) {
                                        lemma_dep_match_unique(es, jv as int, p as int, i, idx as int);
                                    }
                                }
                            }
                        }
                    },
                    None => {
                        proof {
                            assert(has_entry(
                                es,
                                es[jv as int].deps[p as int].name,
                                es[jv as int].deps[p as int].ver,
                            ));
                            assert(false);
                        }
                        vstd::pervasive::unreached::<()>()
                    },
                }
                p = p + 1;
            }
            proof {
                assert forall|i: int| 0 <= i < n implies ((#[trigger] visited@[i]) <==> rw(
                    es,
                    roots@,
                    gk,
                    i,
                ) || succ_from(es, frontier@, t + 1, i)) by {
                    assert(edge_idx(es, frontier@, t as int, i) == edge(es, jv as int, i));
                    if deps_upto(es, jv as int, ndeps as int, i) {
                        assert(edge(es, jv as int, i));
                        assert(succ_from(es, frontier@, t + 1, i));
                    }
                    if succ_from(es, frontier@, t + 1, i) && !succ_from(es, frontier@, t as int, i) {
                        let t2 = choose|t2: int|
                            0 <= t2 < t + 1 && #[trigger] edge_idx(es, frontier@, t2, i);
                        assert(t2 == t as int);
                        assert(edge(es, jv as int, i));
                        let pw = choose|pw: int|
                            0 <= pw < es[jv as int].deps.len() && #[trigger] dep_match(
                                es,
                                jv as int,
                                pw,
                                i,
                            );
                        assert(deps_upto(es, jv as int, ndeps as int, i));
                    }
                }
            }
            t = t + 1;
        }
        proof {
            lemma_rw_step(es, roots@, frontier@, gk);
            assert(((gk + 1) as nat - 1) as nat == gk);
            gk = gk + 1;
        }
        match depth {
            Some(_) => {
                layers = layers + 1;
            },
            None => {},
        }
        frontier = next;
        go = frontier.len() > 0 && match depth {
            Some(d) => layers < d,
            None => true,
        };
    }
    // The loop stopped either at the requested depth or at a fixed point.
    proof {
        match depth {
            Some(d) => {
                if gk < d as nat {
                    assert(frontier@.len() == 0);
                    lemma_empty_frontier_stable(es, roots@, frontier@, gk);
                    lemma_rw_stable(es, roots@, gk, d as nat);
                    lemma_rw_mono_le(es, roots@, gk, d as nat);
                }
                lemma_rw_in_range(es, roots@, d as nat);
                assert forall|i: int| #[trigger] contains_idx(out@, i) <==> rw(
                    es,
                    roots@,
                    d as nat,
                    i,
                ) && !contains_idx(roots@, i) by {}
            },
            None => {
                assert(frontier@.len() == 0);
                lemma_empty_frontier_stable(es, roots@, frontier@, gk);
                assert forall|i: int| #[trigger] contains_idx(out@, i) <==> reachable(
                    es,
                    roots@,
                    i,
                ) && !contains_idx(roots@, i) by {
                    if contains_idx(out@, i) {
                        assert(rw(es, roots@, gk, i));
                        assert(reachable(es, roots@, i));
                    }
                    if reachable(es, roots@, i) && !contains_idx(roots@, i) {
                        let k0 = choose|k0: nat| rw(es, roots@, k0, i);
                        lemma_rw_stable(es, roots@, gk, k0);
                        assert(rw(es, roots@, gk, i));
                        lemma_rw_in_range(es, roots@, gk);
                    }
                }
            },
        }
    }
    out
}

/// An empty depth-`k` frontier means depth `k` added nothing, so every later
/// depth adds nothing either.
proof fn lemma_empty_frontier_stable(
    es: Seq<EntryModel>,
    roots: Seq<usize>,
    fr: Seq<usize>,
    k: nat,
)
    requires
        fr.len() == 0,
        forall|i: int| #[trigger] contains_idx(fr, i) <==> new_at(es, roots, k, i),
    ensures
        forall|i: int| #[trigger] rw(es, roots, (k + 1) as nat, i) ==> rw(es, roots, k, i),
{
    assert forall|i: int| #[trigger] rw(es, roots, (k + 1) as nat, i) implies rw(
        es,
        roots,
        k,
        i,
    ) by {
        assert(((k + 1) as nat - 1) as nat == k);
        assert(!contains_idx(fr, i));
        assert(!new_at(es, roots, k, i));
        if k == 0 {
            assert(!rw(es, roots, 0, i));
            if !rw(es, roots, k, i) {
                let j = choose|j: int| rw(es, roots, 0, j) && edge(es, j, i);
                assert(!contains_idx(fr, j));
                assert(!new_at(es, roots, 0, j));
                assert(false);
            }
        } else {
            if !rw(es, roots, k, i) {
                let j = choose|j: int| rw(es, roots, k, j) && edge(es, j, i);
                assert(!contains_idx(fr, j));
                assert(!new_at(es, roots, k, j));
                assert(rw(es, roots, (k - 1) as nat, j));
                assert(exists|j2: int| rw(es, roots, (k - 1) as nat, j2) && #[trigger] edge(es, j2, i));
                assert(rw(es, roots, k, i));
                assert(false);
            }
        }
    }
}

/// Two entries matched by the same dependency record are the same entry.
proof fn lemma_dep_match_unique(es: Seq<EntryModel>, j: int, p: int, i1: int, i2: int)
    requires
        no_dup(es),
        dep_match(es, j, p, i1),
        dep_match(es, j, p, i2),
    ensures
        i1 == i2,
{
    if i1 < i2 {
        assert(es[i1].name == es[i2].name && es[i1].ver == es[i2].ver);
    } else if i2 < i1 {
        assert(es[i1].name == es[i2].name && es[i1].ver == es[i2].ver);
    }
}

/// What the newly discovered entry `idx`, matched by dependency `p` of
/// entry `j`, adds to the partially processed dependency list.
proof fn lemma_step_invariants(
    es: Seq<EntryModel>,
    pre: Seq<bool>,
    post: Seq<bool>,
    j: int,
    p: int,
    idx: int,
    n: int,
)
    requires
        no_dup(es),
        es.len() == n,
        pre.len() == n,
        0 <= idx < n,
        0 <= p,
        post == pre.update(idx, true),
        dep_match(es, j, p, idx),
    ensures
        forall|i: int| 0 <= i < n && i != idx ==> #[trigger] post[i] == pre[i],
        post[idx],
        deps_upto(es, j, p + 1, idx),
        forall|i: int| #[trigger] deps_upto(es, j, p + 1, i) ==> deps_upto(es, j, p, i) || i == idx,
        forall|i: int| #[trigger] deps_upto(es, j, p, i) ==> deps_upto(es, j, p + 1, i),
{
    assert(dep_match(es, j, p, idx));
    assert(deps_upto(es, j, p + 1, idx));
    assert forall|i: int| #[trigger] deps_upto(es, j, p + 1, i) implies deps_upto(es, j, p, i) || i
        == idx by {
        let p2 = choose|p2: int| 0 <= p2 < p + 1 && #[trigger] dep_match(es, j, p2, i);
        if p2 == p {
            lemma_dep_match_unique(es, j, p, i, idx);
        } else {
            assert(deps_upto(es, j, p, i));
        }
    }
}

/// Appending one index extends exactly the membership of that index.
proof fn lemma_contains_push(v: Seq<usize>, x: usize)
    ensures
        forall|i: int|
            #[trigger] contains_idx(v.push(x), i) <==> contains_idx(v, i) || i == x as int,
{
    assert forall|i: int|
        #[trigger] contains_idx(v.push(x), i) <==> contains_idx(v, i) || i == x as int by {
        if contains_idx(v.push(x), i) {
            let t = choose|t: int|
                0 <= t < v.push(x).len() && (#[trigger] v.push(x)[t]) as int == i;
            if t < v.len() {
                assert(v[t] as int == i);
                assert(contains_idx(v, i));
            } else {
                assert(i == x as int);
            }
        }
        if contains_idx(v, i) {
            let t = choose|t: int| 0 <= t < v.len() && (#[trigger] v[t]) as int == i;
            assert(v.push(x)[t] as int == i);
            assert(contains_idx(v.push(x), i));
        }
        if i == x as int {
            assert(v.push(x)[v.len() as int] as int == i);
            assert(contains_idx(v.push(x), i));
        }
    }
}

/// Law: the depth-one reachable set is exactly the roots together with their
/// direct dependencies. With the walker's exclusion of the roots, a depth-1
/// walk therefore returns exactly the direct dependencies of the roots.
pub proof fn lemma_depth_one_reach(es: Seq<EntryModel>, roots: Seq<usize>, i: int)
    ensures
        rw(es, roots, 1, i) <==> (contains_idx(roots, i) || exists|j: int|
            contains_idx(roots, j) && #[trigger] edge(es, j, i)),
{
    reveal_with_fuel(rw, 2);
    assert((1 as nat - 1) as nat == 0);
    if contains_idx(roots, i) {
        assert(rw(es, roots, 0, i));
        assert(rw(es, roots, 1, i));
    }
    if rw(es, roots, 1, i) && !contains_idx(roots, i) {
        assert(exists|j: int|
            rw(es, roots, (1 as nat - 1) as nat, j) && #[trigger] edge(es, j, i));
        let j = choose|j: int|
            rw(es, roots, (1 as nat - 1) as nat, j) && #[trigger] edge(es, j, i);
        assert(rw(es, roots, 0, j));
        assert(contains_idx(roots, j) && edge(es, j, i));
    }
    if exists|j: int| contains_idx(roots, j) && #[trigger] edge(es, j, i) {
        let j = choose|j: int| contains_idx(roots, j) && #[trigger] edge(es, j, i);
        assert(rw(es, roots, (1 as nat - 1) as nat, j) && edge(es, j, i));
        assert(rw(es, roots, 1, i));
    }
}

/// View of a list of package names.
pub open spec fn names_view(s: Seq<Vec<u8>>) -> Seq<Seq<u8>> {
    s.map_values(|v: Vec<u8>| v@)
}

/// Entry `i` carries one of the requested root names.
pub open spec fn root_name_match(es: Seq<EntryModel>, names: Seq<Seq<u8>>, i: int) -> bool {
    0 <= i < es.len() && exists|t: int| 0 <= t < names.len() && es[i].name == #[trigger] names[t]
}

/// Some entry carries this package name, at any version.
pub open spec fn name_found(es: Seq<EntryModel>, nm: Seq<u8>) -> bool {
    exists|i: int| 0 <= i < es.len() && (#[trigger] es[i]).name == nm
}

fn idx_member(v: &Vec<usize>, x: usize) -> (r: bool)
    ensures
        r == contains_idx(v@, x as int),
{
    let mut i: usize = 0;
    while i < v.len()
        invariant
            i <= v.len(),
            forall|t: int| 0 <= t < i ==> (#[trigger] v@[t]) != x,
        decreases v.len() - i,
    {
        if v[i] == x {
            return true;
        }
        i = i + 1;
    }
    proof {
        if contains_idx(v@, x as int) {
            let t = choose|t: int| 0 <= t < v@.len() && (#[trigger] v@[t]) as int == x as int;
            assert(v@[t] != x);
            assert(false);
        }
    }
    false
}

/// Selects the traversal roots: every entry whose name occurs in `names`,
/// each index once, or `UnknownPackage` naming the first requested name that
/// matches no entry at all.
#[verifier::loop_isolation(false)]
pub fn select_roots(g: &Graph, names: &Vec<Vec<u8>>) -> (r: Result<Vec<usize>, OutdatedError>)
    ensures
        match r {
            Ok(idxs) => {
                &&& forall|t1: int, t2: int|
                    0 <= t1 < t2 < idxs@.len() ==> idxs@[t1] != idxs@[t2]
                &&& forall|t: int| 0 <= t < idxs@.len() ==> (#[trigger] idxs@[t]) < g@.len()
                &&& forall|i: int|
                    #[trigger] contains_idx(idxs@, i) <==> root_name_match(
                        g@,
                        names_view(names@),
                        i,
                    )
                &&& forall|t: int|
                    0 <= t < names@.len() ==> name_found(g@, #[trigger] names_view(names@)[t])
            },
            Err(e) => {
                &&& e matches OutdatedError::UnknownPackage { name }
                &&& exists|t: int|
                    0 <= t < names@.len() && #[trigger] names_view(names@)[t] == name@
                &&& !name_found(g@, name@)
            },
        },
{
    let ghost es = g@;
    let ghost nv = names_view(names@);
    let n = g.entries.len();
    let mut idxs: Vec<usize> = Vec::new();
    let mut t: usize = 0;
    while t < names.len()
        invariant
            t <= names@.len(),
            forall|t1: int, t2: int| 0 <= t1 < t2 < idxs@.len() ==> idxs@[t1] != idxs@[t2],
            forall|q: int| 0 <= q < idxs@.len() ==> (#[trigger] idxs@[q]) < n,
            forall|i: int|
                #[trigger] contains_idx(idxs@, i) <==> (0 <= i < n && exists|t2: int|
                    0 <= t2 < t && es[i].name == #[trigger] nv[t2]),
            forall|t2: int| 0 <= t2 < t ==> name_found(es, #[trigger] nv[t2]),
        decreases names@.len() - t,
    {
        let nm = &names[t];
        proof {
            assert(nv[t as int] == nm@);
        }
        let mut found: bool = false;
        let mut e: usize = 0;
        while e < n
            invariant
                e <= n,
                t < names@.len(),
                nm@ == nv[t as int],
                found == (exists|i: int| 0 <= i < e && (#[trigger] es[i]).name == nm@),
                forall|t1: int, t2: int| 0 <= t1 < t2 < idxs@.len() ==> idxs@[t1] != idxs@[t2],
                forall|q: int| 0 <= q < idxs@.len() ==> (#[trigger] idxs@[q]) < n,
                forall|i: int|
                    #[trigger] contains_idx(idxs@, i) <==> (0 <= i < n && ((exists|t2: int|
                        0 <= t2 < t && es[i].name == #[trigger] nv[t2]) || (i < e && es[i].name
                        == nm@))),
            decreases n - e,
        {
            proof {
                assert(es[e as int] == g.entries@[e as int]@);
            }
            if bytes_eq(&g.entries[e].name, nm) {
                found = true;
                if !idx_member(&idxs, e) {
                    let ghost pre = idxs@;
                    idxs.push(e);
                    proof {
                        lemma_contains_push(pre, e);
                        assert forall|t1: int, t2: int|
                            0 <= t1 < t2 < idxs@.len() implies idxs@[t1] != idxs@[t2] by {
                            if t2 == idxs@.len() - 1 {
                                if idxs@[t1] == idxs@[t2] {
                                    assert(pre[t1] == e);
                                    assert(contains_idx(pre, e as int));
                                }
                            } else {
                                assert(idxs@[t1] == pre[t1]);
                                assert(idxs@[t2] == pre[t2]);
                            }
                        }
                    }
                }
            }
            e = e + 1;
        }
        if !found {
            let missing = crate::version::bytes_range(&names[t], 0, names[t].len());
            proof {
                assert(missing@ =~= nv[t as int]);
                if name_found(es, missing@) {
                    let i = choose|i: int| 0 <= i < es.len() && (#[trigger] es[i]).name == nm@;
                    assert(false);
                }
            }
            return Err(OutdatedError::UnknownPackage { name: missing });
        }
        t = t + 1;
    }
    proof {
        assert forall|i: int| #[trigger] contains_idx(idxs@, i) <==> root_name_match(es, nv, i) by {}
    }
    Ok(idxs)
}

/// A vector of `false` values has no `true` entries to count.
proof fn lemma_count_all_false(v: Seq<bool>)
    requires
        forall|i: int| 0 <= i < v.len() ==> !(#[trigger] v[i]),
    ensures
        count_true(v) == 0,
    decreases v.len(),
{
    if v.len() > 0 {
        lemma_count_all_false(v.drop_last());
    }
}

} // verus!
