//! Lockfile model: parses the lockfile's serialized dependency records —
//! line-oriented blocks of `name`/`version` key-value pairs with an optional
//! dependency list — into the entry set of the dependency graph.

use vstd::prelude::*;
use crate::error::OutdatedError;
use crate::graph::{Pkg, PkgModel, Entry, EntryModel, pkgs_view, entries_view};
use crate::version::{
    Version, VersionModel, parse_version_model, parse_version, bytes_eq, bytes_range,
};

verus! {

broadcast use vstd::seq_lib::group_seq_properties;

// ---------------------------------------------------------------------------
// Lines and whitespace.
// ---------------------------------------------------------------------------

/// Horizontal whitespace and the carriage return: space, tab, CR.
pub open spec fn is_ws(b: u8) -> bool {
    b == 0x20 || b == 0x09 || b == 0x0d
}

/// Length of the longest prefix free of the newline byte.
pub open spec fn no_nl_prefix_len(s: Seq<u8>) -> int
    decreases s.len(),
{
    if s.len() == 0 {
        0
    } else if s[0] == 0x0a {
        0
    } else {
        1 + no_nl_prefix_len(s.skip(1))
    }
}

/// Length of the longest prefix free of the space byte.
pub open spec fn no_space_prefix_len(s: Seq<u8>) -> int
    decreases s.len(),
{
    if s.len() == 0 {
        0
    } else if s[0] == 0x20 {
        0
    } else {
        1 + no_space_prefix_len(s.skip(1))
    }
}

/// The text split at newline bytes; a trailing newline yields a final empty
/// line.
pub open spec fn split_lines(s: Seq<u8>) -> Seq<Seq<u8>>
    decreases s.len(),
{
    let k = no_nl_prefix_len(s);
    if k < 0 || k >= s.len() {
        seq![s]
    } else {
        seq![s.take(k)] + split_lines(s.skip(k + 1))
    }
}

pub open spec fn trim_start(s: Seq<u8>) -> Seq<u8>
    decreases s.len(),
{
    if s.len() > 0 && is_ws(s[0]) {
        trim_start(s.skip(1))
    } else {
        s
    }
}

pub open spec fn trim_end(s: Seq<u8>) -> Seq<u8>
    decreases s.len(),
{
    if s.len() > 0 && is_ws(s.last()) {
        trim_end(s.drop_last())
    } else {
        s
    }
}

/// The line with leading and trailing whitespace removed.
pub open spec fn trim(s: Seq<u8>) -> Seq<u8> {
    trim_end(trim_start(s))
}

proof fn lemma_no_nl_prefix_len_is(s: Seq<u8>, i: int)
    requires
        0 <= i <= s.len(),
        forall|k: int| 0 <= k < i ==> #[trigger] s[k] != 0x0a,
        i == s.len() || s[i] == 0x0a,
    ensures
        no_nl_prefix_len(s) == i,
    decreases s.len(),
{
    if s.len() == 0 {
    } else if i == 0 {
    } else {
        assert forall|k: int| 0 <= k < i - 1 implies #[trigger] s.skip(1)[k] != 0x0a by {
            assert(s.skip(1)[k] == s[k + 1]);
        }
        if i - 1 < s.skip(1).len() {
            assert(s.skip(1)[i - 1] == s[i]);
        }
        lemma_no_nl_prefix_len_is(s.skip(1), i - 1);
    }
}

proof fn lemma_no_space_prefix_len_is(s: Seq<u8>, i: int)
    requires
        0 <= i <= s.len(),
        forall|k: int| 0 <= k < i ==> #[trigger] s[k] != 0x20,
        i == s.len() || s[i] == 0x20,
    ensures
        no_space_prefix_len(s) == i,
    decreases s.len(),
{
    if s.len() == 0 {
    } else if i == 0 {
    } else {
        assert forall|k: int| 0 <= k < i - 1 implies #[trigger] s.skip(1)[k] != 0x20 by {
            assert(s.skip(1)[k] == s[k + 1]);
        }
        if i - 1 < s.skip(1).len() {
            assert(s.skip(1)[i - 1] == s[i]);
        }
        lemma_no_space_prefix_len_is(s.skip(1), i - 1);
    }
}

proof fn lemma_trim_start_is(s: Seq<u8>, i: int)
    requires
        0 <= i <= s.len(),
        forall|k: int| 0 <= k < i ==> is_ws(#[trigger] s[k]),
        i == s.len() || !is_ws(s[i]),
    ensures
        trim_start(s) == s.skip(i),
    decreases s.len(),
{
    if i == 0 {
        assert(s.skip(0) =~= s);
    } else {
        assert(is_ws(s[0]));
        assert forall|k: int| 0 <= k < i - 1 implies is_ws(#[trigger] s.skip(1)[k]) by {
            assert(s.skip(1)[k] == s[k + 1]);
        }
        if i - 1 < s.skip(1).len() {
            assert(s.skip(1)[i - 1] == s[i]);
        }
        lemma_trim_start_is(s.skip(1), i - 1);
        assert(s.skip(1).skip(i - 1) =~= s.skip(i)) by {
            assert forall|k: int| 0 <= k < s.len() - i implies #[trigger] s.skip(1).skip(i - 1)[k]
                == s.skip(i)[k] by {
                assert(s.skip(1).skip(i - 1)[k] == s.skip(1)[i - 1 + k]);
                assert(s.skip(1)[i - 1 + k] == s[i + k]);
                assert(s.skip(i)[k] == s[i + k]);
            }
        }
    }
}

proof fn lemma_trim_end_is(t: Seq<u8>, j: int)
    requires
        0 <= j <= t.len(),
        forall|k: int| j <= k < t.len() ==> is_ws(#[trigger] t[k]),
        j == 0 || !is_ws(t[j - 1]),
    ensures
        trim_end(t) == t.take(j),
    decreases t.len(),
{
    if j == t.len() {
        assert(t.take(j) =~= t);
    } else {
        assert(is_ws(t.last()));
        assert forall|k: int| j <= k < t.len() - 1 implies is_ws(#[trigger] t.drop_last()[k]) by {
            assert(t.drop_last()[k] == t[k]);
        }
        if j > 0 {
            assert(t.drop_last()[j - 1] == t[j - 1]);
        }
        lemma_trim_end_is(t.drop_last(), j);
        assert(t.drop_last().take(j) =~= t.take(j));
    }
}

fn trim_exec(s: &Vec<u8>) -> (r: Vec<u8>)
    ensures
        r@ == trim(s@),
{
    let mut a: usize = 0;
    while a < s.len() && (s[a] == 0x20 || s[a] == 0x09 || s[a] == 0x0d)
        invariant
            a <= s.len(),
            forall|k: int| 0 <= k < a ==> is_ws(#[trigger] s@[k]),
        decreases s.len() - a,
    {
        a = a + 1;
    }
    let mut b: usize = s.len();
    while b > a && (s[b - 1] == 0x20 || s[b - 1] == 0x09 || s[b - 1] == 0x0d)
        invariant
            a <= b <= s.len(),
            forall|k: int| b <= k < s.len() ==> is_ws(#[trigger] s@[k]),
        decreases b,
    {
        b = b - 1;
    }
    proof {
        lemma_trim_start_is(s@, a as int);
        let t = s@.skip(a as int);
        assert forall|k: int| b - a <= k < t.len() implies is_ws(#[trigger] t[k]) by {
            assert(t[k] == s@[a + k]);
        }
        if b > a {
            assert(t[b - a - 1] == s@[b - 1]);
        }
        lemma_trim_end_is(t, b as int - a as int);
        assert(t.take(b as int - a as int) =~= s@.subrange(a as int, b as int));
    }
    bytes_range(s, a, b)
}

fn scan_no_space(s: &Vec<u8>, from: usize) -> (r: usize)
    requires
        from <= s.len(),
    ensures
        from <= r <= s.len(),
        no_space_prefix_len(s@.skip(from as int)) == r - from,
    decreases s.len() - from,
{
    let mut i: usize = from;
    while i < s.len() && s[i] != 0x20
        invariant
            from <= i <= s.len(),
            forall|k: int| from <= k < i ==> #[trigger] s@[k] != 0x20,
        decreases s.len() - i,
    {
        i = i + 1;
    }
    proof {
        let t = s@.skip(from as int);
        assert forall|k: int| 0 <= k < i - from implies #[trigger] t[k] != 0x20 by {
            assert(t[k] == s@[from + k]);
        }
        if i < s.len() {
            assert(t[i - from] == s@[i as int]);
        }
        lemma_no_space_prefix_len_is(t, i as int - from as int);
    }
    i
}

/// Splits `s[from..]` into lines, appended to `out`.
fn split_lines_into(s: &Vec<u8>, from: usize, out: &mut Vec<Vec<u8>>)
    requires
        from <= s.len(),
    ensures
        final(out)@.map_values(|l: Vec<u8>| l@) == old(out)@.map_values(|l: Vec<u8>| l@)
            + split_lines(s@.skip(from as int)),
    decreases s.len() - from,
{
    let mut i: usize = from;
    while i < s.len() && s[i] != 0x0a
        invariant
            from <= i <= s.len(),
            forall|k: int| from <= k < i ==> #[trigger] s@[k] != 0x0a,
        decreases s.len() - i,
    {
        i = i + 1;
    }
    proof {
        let t = s@.skip(from as int);
        assert forall|k: int| 0 <= k < i - from implies #[trigger] t[k] != 0x0a by {
            assert(t[k] == s@[from + k]);
        }
        if i < s.len() {
            assert(t[i - from] == s@[i as int]);
        }
        lemma_no_nl_prefix_len_is(t, i as int - from as int);
        assert(t.take(i as int - from as int) =~= s@.subrange(from as int, i as int));
    }
    let line = bytes_range(s, from, i);
    if i == s.len() {
        out.push(line);
        proof {
            let t = s@.skip(from as int);
            assert(t.take(i as int - from as int) =~= t);
            assert(old(out)@.map_values(|l: Vec<u8>| l@) + split_lines(t) =~= out@.map_values(
                |l: Vec<u8>| l@,
            ));
        }
    } else {
        out.push(line);
        let ghost mid = out@;
        proof {
            assert(mid.map_values(|l: Vec<u8>| l@) =~= old(out)@.map_values(|l: Vec<u8>| l@)
                + seq![s@.subrange(from as int, i as int)]);
        }
        split_lines_into(s, i + 1, out);
        proof {
            let t = s@.skip(from as int);
            assert(t.skip(i as int - from as int + 1) =~= s@.skip(i + 1)) by {
                assert forall|k: int|
                    0 <= k < s@.len() - i - 1 implies #[trigger] t.skip(i as int - from as int + 1)[k]
                    == s@.skip(i + 1)[k] by {
                    assert(t.skip(i as int - from as int + 1)[k] == t[i - from + 1 + k]);
                    assert(t[i - from + 1 + k] == s@[i + 1 + k]);
                    assert(s@.skip(i + 1)[k] == s@[i + 1 + k]);
                }
            }
            assert(out@.map_values(|l: Vec<u8>| l@) =~= old(out)@.map_values(|l: Vec<u8>| l@)
                + split_lines(t));
        }
    }
}

// ---------------------------------------------------------------------------
// The line grammar.
// ---------------------------------------------------------------------------

/// `[root]`
pub open spec fn header_root() -> Seq<u8> {
    seq![0x5bu8, 0x72, 0x6f, 0x6f, 0x74, 0x5d]
}

/// `[[package]]`
pub open spec fn header_pkg() -> Seq<u8> {
    seq![0x5bu8, 0x5b, 0x70, 0x61, 0x63, 0x6b, 0x61, 0x67, 0x65, 0x5d, 0x5d]
}

/// `name = "`
pub open spec fn name_prefix() -> Seq<u8> {
    seq![0x6eu8, 0x61, 0x6d, 0x65, 0x20, 0x3d, 0x20, 0x22]
}

/// `version = "`
pub open spec fn version_prefix() -> Seq<u8> {
    seq![0x76u8, 0x65, 0x72, 0x73, 0x69, 0x6f, 0x6e, 0x20, 0x3d, 0x20, 0x22]
}

/// `dependencies = [`
pub open spec fn deps_open() -> Seq<u8> {
    seq![
        0x64u8,
        0x65,
        0x70,
        0x65,
        0x6e,
        0x64,
        0x65,
        0x6e,
        0x63,
        0x69,
        0x65,
        0x73,
        0x20,
        0x3d,
        0x20,
        0x5b,
    ]
}

/// `dependencies = []`
pub open spec fn deps_empty() -> Seq<u8> {
    deps_open() + seq![0x5du8]
}

/// `]`
pub open spec fn deps_close() -> Seq<u8> {
    seq![0x5du8]
}

/// Free of the double-quote byte.
pub open spec fn quote_free(s: Seq<u8>) -> bool {
    forall|i: int| 0 <= i < s.len() ==> #[trigger] s[i] != 0x22
}

/// The value of a `key = "value"` line for the given `key = "` prefix;
/// `None` when the line has another shape or the value holds a quote.
pub open spec fn kv_value(line: Seq<u8>, prefix: Seq<u8>) -> Option<Seq<u8>> {
    if line.len() > prefix.len() && line.take(prefix.len() as int) == prefix && line.last() == 0x22 {
        let v = line.subrange(prefix.len() as int, line.len() - 1);
        if quote_free(v) {
            Some(v)
        } else {
            None
        }
    } else {
        None
    }
}

/// Outcome of reading one dependency-list item.
pub ghost enum DepParse {
    Item(PkgModel),
    BadSyntax,
    BadVersion,
}

/// Reads one dependency-list item: a quoted `name version` pair, with an
/// optional source suffix after the version and an optional trailing comma.
pub open spec fn parse_dep_item(t: Seq<u8>) -> DepParse {
    if t.len() < 2 || t[0] != 0x22 {
        DepParse::BadSyntax
    } else {
        let body0 = if t.last() == 0x2c {
            t.drop_last()
        } else {
            t
        };
        if body0.len() >= 2 && body0.last() == 0x22 {
            let content = body0.subrange(1, body0.len() - 1);
            if quote_free(content) {
                let k1 = no_space_prefix_len(content);
                if k1 == 0 || k1 >= content.len() {
                    DepParse::BadSyntax
                } else {
                    let restc = content.skip(k1 + 1);
                    let k2 = no_space_prefix_len(restc);
                    match parse_version_model(restc.take(k2)) {
                        Some(vm) => DepParse::Item(PkgModel { name: content.take(k1), ver: vm }),
                        None => DepParse::BadVersion,
                    }
                }
            } else {
                DepParse::BadSyntax
            }
        } else {
            DepParse::BadSyntax
        }
    }
}

// ---------------------------------------------------------------------------
// The block grammar, as a state machine over lines.
// ---------------------------------------------------------------------------

/// Position inside a block while reading the lockfile.
pub ghost enum Cur {
    /// Between blocks.
    Top,
    /// A block header was read; its `name` line is due.
    WantName,
    /// The `version` line of the named block is due.
    WantVersion { name: Seq<u8> },
    /// Name and version are read; a dependency list may follow, and a blank
    /// line, the next header or the end of input closes the entry.
    Body { name: Seq<u8>, ver: VersionModel, deps: Seq<PkgModel>, deps_done: bool },
    /// Inside the bracketed dependency list.
    InDeps { name: Seq<u8>, ver: VersionModel, deps: Seq<PkgModel> },
}

/// Parser state: completed entries plus the position inside the current
/// block, or the failure reached.
pub ghost enum PState {
    Going { entries: Seq<EntryModel>, cur: Cur },
    BadSyntax,
    BadVersion,
}

pub open spec fn init_state() -> PState {
    PState::Going { entries: Seq::empty(), cur: Cur::Top }
}

/// One step of the line machine.
pub open spec fn step(st: PState, raw: Seq<u8>) -> PState {
    match st {
        PState::BadSyntax => PState::BadSyntax,
        PState::BadVersion => PState::BadVersion,
        PState::Going { entries, cur } => {
            let t = trim(raw);
            match cur {
                Cur::Top => {
                    if t.len() == 0 {
                        PState::Going { entries, cur: Cur::Top }
                    } else if t == header_root() || t == header_pkg() {
                        PState::Going { entries, cur: Cur::WantName }
                    } else {
                        PState::BadSyntax
                    }
                },
                Cur::WantName => {
                    match kv_value(t, name_prefix()) {
                        Some(nm) => PState::Going { entries, cur: Cur::WantVersion { name: nm } },
                        None => PState::BadSyntax,
                    }
                },
                Cur::WantVersion { name } => {
                    match kv_value(t, version_prefix()) {
                        Some(vs) => match parse_version_model(vs) {
                            Some(vm) => PState::Going {
                                entries,
                                cur: Cur::Body {
                                    name,
                                    ver: vm,
                                    deps: Seq::empty(),
                                    deps_done: false,
                                },
                            },
                            None => PState::BadVersion,
                        },
                        None => PState::BadSyntax,
                    }
                },
                Cur::Body { name, ver, deps, deps_done } => {
                    if t.len() == 0 {
                        PState::Going {
                            entries: entries.push(EntryModel { name, ver, deps }),
                            cur: Cur::Top,
                        }
                    } else if t == header_root() || t == header_pkg() {
                        PState::Going {
                            entries: entries.push(EntryModel { name, ver, deps }),
                            cur: Cur::WantName,
                        }
                    } else if t == deps_open() && !deps_done {
                        PState::Going { entries, cur: Cur::InDeps { name, ver, deps } }
                    } else if t == deps_empty() && !deps_done {
                        PState::Going { entries, cur: Cur::Body { name, ver, deps, deps_done: true } }
                    } else {
                        PState::BadSyntax
                    }
                },
                Cur::InDeps { name, ver, deps } => {
                    if t == deps_close() {
                        PState::Going { entries, cur: Cur::Body { name, ver, deps, deps_done: true } }
                    } else {
                        match parse_dep_item(t) {
                            DepParse::Item(pm) => PState::Going {
                                entries,
                                cur: Cur::InDeps { name, ver, deps: deps.push(pm) },
                            },
                            DepParse::BadSyntax => PState::BadSyntax,
                            DepParse::BadVersion => PState::BadVersion,
                        }
                    }
                },
            }
        },
    }
}

/// Runs the machine over the lines from index `i` on.
pub open spec fn run(lines: Seq<Seq<u8>>, i: int, st: PState) -> PState
    decreases lines.len() - i,
{
    if i < 0 || i >= lines.len() {
        st
    } else {
        run(lines, i + 1, step(st, lines[i]))
    }
}

/// Outcome of a whole parse.
pub ghost enum LockParse {
    Entries(Seq<EntryModel>),
    BadSyntax,
    BadVersion,
}

/// Closes the final block, if one is open, and delivers the entries.
pub open spec fn finish(st: PState) -> LockParse {
    match st {
        PState::BadSyntax => LockParse::BadSyntax,
        PState::BadVersion => LockParse::BadVersion,
        PState::Going { entries, cur } => match cur {
            Cur::Top => LockParse::Entries(entries),
            Cur::Body { name, ver, deps, deps_done } => LockParse::Entries(
                entries.push(EntryModel { name, ver, deps }),
            ),
            _ => LockParse::BadSyntax,
        },
    }
}

/// The lockfile grammar: what parsing the raw text yields.
pub open spec fn parse_lockfile_model(s: Seq<u8>) -> LockParse {
    finish(run(split_lines(s), 0, init_state()))
}

// ---------------------------------------------------------------------------
// Executable parsing.
// ---------------------------------------------------------------------------

fn header_root_vec() -> (r: Vec<u8>)
    ensures
        r@ == header_root(),
{
    let mut v: Vec<u8> = Vec::new();
    v.push(0x5b);
    v.push(0x72);
    v.push(0x6f);
    v.push(0x6f);
    v.push(0x74);
    v.push(0x5d);
    proof {
        assert(v@ =~= header_root());
    }
    v
}

fn header_pkg_vec() -> (r: Vec<u8>)
    ensures
        r@ == header_pkg(),
{
    let mut v: Vec<u8> = Vec::new();
    v.push(0x5b);
    v.push(0x5b);
    v.push(0x70);
    v.push(0x61);
    v.push(0x63);
    v.push(0x6b);
    v.push(0x61);
    v.push(0x67);
    v.push(0x65);
    v.push(0x5d);
    v.push(0x5d);
    proof {
        assert(v@ =~= header_pkg());
    }
    v
}

fn name_prefix_vec() -> (r: Vec<u8>)
    ensures
        r@ == name_prefix(),
{
    let mut v: Vec<u8> = Vec::new();
    v.push(0x6e);
    v.push(0x61);
    v.push(0x6d);
    v.push(0x65);
    v.push(0x20);
    v.push(0x3d);
    v.push(0x20);
    v.push(0x22);
    proof {
        assert(v@ =~= name_prefix());
    }
    v
}

fn version_prefix_vec() -> (r: Vec<u8>)
    ensures
        r@ == version_prefix(),
{
    let mut v: Vec<u8> = Vec::new();
    v.push(0x76);
    v.push(0x65);
    v.push(0x72);
    v.push(0x73);
    v.push(0x69);
    v.push(0x6f);
    v.push(0x6e);
    v.push(0x20);
    v.push(0x3d);
    v.push(0x20);
    v.push(0x22);
    proof {
        assert(v@ =~= version_prefix());
    }
    v
}

fn deps_open_vec() -> (r: Vec<u8>)
    ensures
        r@ == deps_open(),
{
    let mut v: Vec<u8> = Vec::new();
    v.push(0x64);
    v.push(0x65);
    v.push(0x70);
    v.push(0x65);
    v.push(0x6e);
    v.push(0x64);
    v.push(0x65);
    v.push(0x6e);
    v.push(0x63);
    v.push(0x69);
    v.push(0x65);
    v.push(0x73);
    v.push(0x20);
    v.push(0x3d);
    v.push(0x20);
    v.push(0x5b);
    proof {
        assert(v@ =~= deps_open());
    }
    v
}

fn deps_empty_vec() -> (r: Vec<u8>)
    ensures
        r@ == deps_empty(),
{
    let mut v = deps_open_vec();
    v.push(0x5d);
    proof {
        assert(v@ =~= deps_empty());
    }
    v
}

fn deps_close_vec() -> (r: Vec<u8>)
    ensures
        r@ == deps_close(),
{
    let mut v: Vec<u8> = Vec::new();
    v.push(0x5d);
    proof {
        assert(v@ =~= deps_close());
    }
    v
}

/// Extracts the value of a `key = "value"` line.
#[verifier::loop_isolation(false)]
fn kv_value_exec(t: &Vec<u8>, prefix: &Vec<u8>) -> (r: Option<Vec<u8>>)
    ensures
        match r {
            Some(v) => kv_value(t@, prefix@) == Some(v@),
            None => kv_value(t@, prefix@) is None,
        },
{
    if t.len() <= prefix.len() {
        return None;
    }
    let mut i: usize = 0;
    while i < prefix.len()
        invariant
            i <= prefix.len() < t.len(),
            forall|k: int| 0 <= k < i ==> t@[k] == prefix@[k],
        decreases prefix.len() - i,
    {
        if t[i] != prefix[i] {
            proof {
                if t@.take(prefix@.len() as int) == prefix@ {
                    assert(t@.take(prefix@.len() as int)[i as int] == t@[i as int]);
                    assert(false);
                }
            }
            return None;
        }
        i = i + 1;
    }
    proof {
        assert(t@.take(prefix@.len() as int) =~= prefix@);
    }
    if t[t.len() - 1] != 0x22 {
        return None;
    }
    let v = bytes_range(t, prefix.len(), t.len() - 1);
    let mut q: usize = 0;
    while q < v.len()
        invariant
            q <= v.len(),
            v@ == t@.subrange(prefix@.len() as int, t@.len() - 1),
            forall|k: int| 0 <= k < q ==> #[trigger] v@[k] != 0x22,
        decreases v.len() - q,
    {
        if v[q] == 0x22 {
            proof {
                assert(!quote_free(t@.subrange(prefix@.len() as int, t@.len() - 1)));
            }
            return None;
        }
        q = q + 1;
    }
    proof {
        assert(quote_free(t@.subrange(prefix@.len() as int, t@.len() - 1)));
    }
    Some(v)
}

/// Reads one dependency-list item into a package identity.
#[verifier::rlimit(100)]
#[verifier::spinoff_prover]
#[verifier::loop_isolation(false)]
fn parse_dep_item_exec(t: &Vec<u8>) -> (r: Result<Pkg, OutdatedError>)
    ensures
        match r {
            Ok(p) => parse_dep_item(t@) == DepParse::Item(p@),
            Err(e) => {
                ||| (e == OutdatedError::LockfileParse && parse_dep_item(t@) is BadSyntax)
                ||| (e == OutdatedError::InvalidVersion && parse_dep_item(t@) is BadVersion)
            },
        },
{
    if t.len() < 2 || t[0] != 0x22 {
        return Err(OutdatedError::LockfileParse);
    }
    let end0: usize = if t[t.len() - 1] == 0x2c {
        t.len() - 1
    } else {
        t.len()
    };
    let ghost body0 = if t@.last() == 0x2c {
        t@.drop_last()
    } else {
        t@
    };
    proof {
        assert(body0 =~= t@.take(end0 as int));
        assert(body0.len() == end0);
    }
    if end0 < 2 || t[end0 - 1] != 0x22 {
        proof {
            if end0 >= 2 {
                assert(body0.last() == t@[end0 - 1]);
            }
        }
        return Err(OutdatedError::LockfileParse);
    }
    proof {
        assert(body0.last() == t@[end0 - 1]);
    }
    let content = bytes_range(t, 1, end0 - 1);
    proof {
        assert(content@ =~= body0.subrange(1, body0.len() - 1));
    }
    let mut q: usize = 0;
    while q < content.len()
        invariant
            q <= content.len(),
            content@ == body0.subrange(1, body0.len() - 1),
            forall|k: int| 0 <= k < q ==> #[trigger] content@[k] != 0x22,
        decreases content.len() - q,
    {
        if content[q] == 0x22 {
            proof {
                assert(body0.subrange(1, body0.len() - 1)[q as int] == 0x22);
                assert(!quote_free(body0.subrange(1, body0.len() - 1)));
            }
            return Err(OutdatedError::LockfileParse);
        }
        q = q + 1;
    }
    proof {
        assert(quote_free(body0.subrange(1, body0.len() - 1)));
        assert(content@.skip(0) =~= content@);
    }
    let k1 = scan_no_space(&content, 0);
    if k1 == 0 || k1 >= content.len() {
        return Err(OutdatedError::LockfileParse);
    }
    let k2 = scan_no_space(&content, k1 + 1);
    let ghost restc = content@.skip(k1 + 1);
    proof {
        assert(no_space_prefix_len(restc) == k2 - (k1 + 1));
        assert(restc.take(k2 - (k1 + 1)) =~= content@.subrange(k1 + 1, k2 as int)) by {
            assert forall|k: int| 0 <= k < k2 - (k1 + 1) implies #[trigger] restc.take(
                k2 - (k1 + 1),
            )[k] == content@.subrange(k1 + 1, k2 as int)[k] by {
                assert(restc[k] == content@[k1 + 1 + k]);
            }
        }
    }
    let vstr = bytes_range(&content, k1 + 1, k2);
    match parse_version(&vstr) {
        Ok(v) => {
            let name = bytes_range(&content, 0, k1);
            proof {
                assert(name@ =~= content@.take(k1 as int));
            }
            Ok(Pkg { name, version: v })
        },
        Err(_) => Err(OutdatedError::InvalidVersion),
    }
}

/// Which line of the block the machine expects next.
#[derive(PartialEq, Eq, Structural, Clone, Copy)]
enum Mode {
    Top,
    WantName,
    WantVersion,
    Body,
    InDeps,
}

spec fn cur_view(
    mode: Mode,
    name: Seq<u8>,
    ver: VersionModel,
    deps: Seq<PkgModel>,
    deps_done: bool,
) -> Cur {
    match mode {
        Mode::Top => Cur::Top,
        Mode::WantName => Cur::WantName,
        Mode::WantVersion => Cur::WantVersion { name },
        Mode::Body => Cur::Body { name, ver, deps, deps_done },
        Mode::InDeps => Cur::InDeps { name, ver, deps },
    }
}

/// Parses the lockfile text into its entry set, or reports the failure:
/// `LockfileParse` for a malformed structure, `InvalidVersion` when a
/// version string recorded in the lockfile does not parse.
#[verifier::loop_isolation(false)]
#[verifier::rlimit(100)]
pub fn parse_lockfile(text: &Vec<u8>) -> (r: Result<Vec<Entry>, OutdatedError>)
    ensures
        match r {
            Ok(es) => parse_lockfile_model(text@) == LockParse::Entries(entries_view(es@)),
            Err(e) => {
                ||| (e == OutdatedError::LockfileParse && parse_lockfile_model(text@)
                    is BadSyntax)
                ||| (e == OutdatedError::InvalidVersion && parse_lockfile_model(text@)
                    is BadVersion)
            },
        },
{
    let mut lines: Vec<Vec<u8>> = Vec::new();
    proof {
        assert(text@.skip(0) =~= text@);
        assert(lines@.map_values(|l: Vec<u8>| l@) =~= Seq::<Seq<u8>>::empty());
    }
    split_lines_into(text, 0, &mut lines);
    let ghost ls = split_lines(text@);
    proof {
        assert(Seq::<Seq<u8>>::empty() + split_lines(text@) =~= split_lines(text@));
        assert(lines@.map_values(|l: Vec<u8>| l@) == ls);
    }
    let hdr_root = header_root_vec();
    let hdr_pkg = header_pkg_vec();
    let pre_name = name_prefix_vec();
    let pre_version = version_prefix_vec();
    let d_open = deps_open_vec();
    let d_empty = deps_empty_vec();
    let d_close = deps_close_vec();
    let mut entries: Vec<Entry> = Vec::new();
    let mut mode = Mode::Top;
    let mut cur_name: Vec<u8> = Vec::new();
    let mut cur_ver = Version { major: 0, minor: 0, patch: 0, pre: None, build: None };
    let mut cur_deps: Vec<Pkg> = Vec::new();
    let mut deps_done: bool = false;
    let mut i: usize = 0;
    proof {
        assert(entries_view(entries@) =~= Seq::<EntryModel>::empty());
        assert(pkgs_view(cur_deps@) =~= Seq::<PkgModel>::empty());
    }
    while i < lines.len()
        invariant
            i <= lines.len(),
            ls == lines@.map_values(|l: Vec<u8>| l@),
            hdr_root@ == header_root(),
            hdr_pkg@ == header_pkg(),
            pre_name@ == name_prefix(),
            pre_version@ == version_prefix(),
            d_open@ == deps_open(),
            d_empty@ == deps_empty(),
            d_close@ == deps_close(),
            run(ls, 0, init_state()) == run(
                ls,
                i as int,
                PState::Going {
                    entries: entries_view(entries@),
                    cur: cur_view(mode, cur_name@, cur_ver@, pkgs_view(cur_deps@), deps_done),
                },
            ),
        decreases lines.len() - i,
    {
        let ghost st0 = PState::Going {
            entries: entries_view(entries@),
            cur: cur_view(mode, cur_name@, cur_ver@, pkgs_view(cur_deps@), deps_done),
        };
        let t = trim_exec(&lines[i]);
        proof {
            assert(ls[i as int] == lines@[i as int]@);
            assert(t@ == trim(ls[i as int]));
        }
        match mode {
            Mode::Top => {
                if t.len() == 0 {
                    // stay between blocks
                } else if bytes_eq(&t, &hdr_root) || bytes_eq(&t, &hdr_pkg) {
                    mode = Mode::WantName;
                } else {
                    proof {
                        assert(step(st0, ls[i as int]) == PState::BadSyntax);
                        lemma_run_err(ls, i + 1);
                    }
                    return Err(OutdatedError::LockfileParse);
                }
            },
            Mode::WantName => {
                match kv_value_exec(&t, &pre_name) {
                    Some(nm) => {
                        cur_name = nm;
                        mode = Mode::WantVersion;
                    },
                    None => {
                        proof {
                            assert(step(st0, ls[i as int]) == PState::BadSyntax);
                            lemma_run_err(ls, i + 1);
                        }
                        return Err(OutdatedError::LockfileParse);
                    },
                }
            },
            Mode::WantVersion => {
                match kv_value_exec(&t, &pre_version) {
                    Some(vs) => {
                        match parse_version(&vs) {
                            Ok(v) => {
                                cur_ver = v;
                                cur_deps = Vec::new();
                                deps_done = false;
                                mode = Mode::Body;
                                proof {
                                    assert(pkgs_view(cur_deps@) =~= Seq::<PkgModel>::empty());
                                }
                            },
                            Err(_) => {
                                proof {
                                    assert(step(st0, ls[i as int]) == PState::BadVersion);
                                    lemma_run_err(ls, i + 1);
                                }
                                return Err(OutdatedError::InvalidVersion);
                            },
                        }
                    },
                    None => {
                        proof {
                            assert(step(st0, ls[i as int]) == PState::BadSyntax);
                            lemma_run_err(ls, i + 1);
                        }
                        return Err(OutdatedError::LockfileParse);
                    },
                }
            },
            Mode::Body => {
                if t.len() == 0 || bytes_eq(&t, &hdr_root) || bytes_eq(&t, &hdr_pkg) {
                    let ghost pre_entries = entries@;
                    entries.push(
                        Entry { name: cur_name, version: cur_ver, deps: cur_deps },
                    );
                    proof {
                        assert(entries_view(entries@) =~= entries_view(pre_entries).push(
                            entries@[entries@.len() - 1]@,
                        ));
                    }
                    cur_name = Vec::new();
                    cur_ver = Version { major: 0, minor: 0, patch: 0, pre: None, build: None };
                    cur_deps = Vec::new();
                    deps_done = false;
                    if t.len() == 0 {
                        mode = Mode::Top;
                    } else {
                        mode = Mode::WantName;
                    }
                } else if bytes_eq(&t, &d_open) && !deps_done {
                    mode = Mode::InDeps;
                } else if bytes_eq(&t, &d_empty) && !deps_done {
                    deps_done = true;
                } else {
                    proof {
                        assert(step(st0, ls[i as int]) == PState::BadSyntax);
                        lemma_run_err(ls, i + 1);
                    }
                    return Err(OutdatedError::LockfileParse);
                }
            },
            Mode::InDeps => {
                if bytes_eq(&t, &d_close) {
                    deps_done = true;
                    mode = Mode::Body;
                } else {
                    match parse_dep_item_exec(&t) {
                        Ok(p) => {
                            let ghost pre_deps = cur_deps@;
                            cur_deps.push(p);
                            proof {
                                assert(pkgs_view(cur_deps@) =~= pkgs_view(pre_deps).push(
                                    cur_deps@[cur_deps@.len() - 1]@,
                                ));
                            }
                        },
                        Err(e) => {
                            proof {
                                if parse_dep_item(t@) is BadSyntax {
                                    assert(step(st0, ls[i as int]) == PState::BadSyntax);
                                } else {
                                    assert(step(st0, ls[i as int]) == PState::BadVersion);
                                }
                                lemma_run_err(ls, i + 1);
                            }
                            return Err(e);
                        },
                    }
                }
            },
        }
        proof {
            let st1 = PState::Going {
                entries: entries_view(entries@),
                cur: cur_view(mode, cur_name@, cur_ver@, pkgs_view(cur_deps@), deps_done),
            };
            assert(st1 == step(st0, ls[i as int]));
            assert(run(ls, i as int, st0) == run(ls, i + 1, st1));
        }
        i = i + 1;
    }
    match mode {
        Mode::Top => Ok(entries),
        Mode::Body => {
            let ghost pre_entries = entries@;
            entries.push(Entry { name: cur_name, version: cur_ver, deps: cur_deps });
            proof {
                assert(entries_view(entries@) =~= entries_view(pre_entries).push(
                    entries@[entries@.len() - 1]@,
                ));
            }
            Ok(entries)
        },
        _ => Err(OutdatedError::LockfileParse),
    }
}

proof fn lemma_run_err(lines: Seq<Seq<u8>>, i: int)
    ensures
        run(lines, i, PState::BadSyntax) == PState::BadSyntax,
        run(lines, i, PState::BadVersion) == PState::BadVersion,
    decreases lines.len() - i,
{
    if 0 <= i && i < lines.len() {
        lemma_run_err(lines, i + 1);
    }
}

} // verus!
