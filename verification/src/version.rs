//! Semantic-version model: parsing, serialization, total ordering, and the
//! semver compatibility predicate.

use vstd::prelude::*;
use crate::error::OutdatedError;

verus! {

broadcast use vstd::seq_lib::group_seq_properties;

/// Outcome of comparing two versions under the model's total order.
#[derive(PartialEq, Eq, Structural, Clone, Copy, Debug)]
pub enum VersionOrder {
    Less,
    Equal,
    Greater,
}

/// A parsed semantic version: the numeric `major.minor.patch` triple plus
/// the optional pre-release and build-metadata identifier strings, stored as
/// their raw bytes.
pub struct Version {
    pub major: u64,
    pub minor: u64,
    pub patch: u64,
    pub pre: Option<Vec<u8>>,
    pub build: Option<Vec<u8>>,
}

/// Mathematical model of a `Version`.
pub ghost struct VersionModel {
    pub major: nat,
    pub minor: nat,
    pub patch: nat,
    pub pre: Option<Seq<u8>>,
    pub build: Option<Seq<u8>>,
}

impl View for Version {
    type V = VersionModel;

    open spec fn view(&self) -> VersionModel {
        VersionModel {
            major: self.major as nat,
            minor: self.minor as nat,
            patch: self.patch as nat,
            pre: match self.pre {
                Some(p) => Some(p@),
                None => None,
            },
            build: match self.build {
                Some(b) => Some(b@),
                None => None,
            },
        }
    }
}

// ---------------------------------------------------------------------------
// Byte classes of the version grammar.
// ---------------------------------------------------------------------------

/// An ASCII decimal digit.
pub open spec fn is_digit(b: u8) -> bool {
    0x30 <= b && b <= 0x39
}

/// A byte allowed inside a pre-release or build-metadata identifier:
/// ASCII alphanumerics, `.` and `-`.
pub open spec fn is_ident_byte(b: u8) -> bool {
    is_digit(b) || (0x41 <= b && b <= 0x5a) || (0x61 <= b && b <= 0x7a) || b == 0x2e || b == 0x2d
}

pub open spec fn all_digits(s: Seq<u8>) -> bool {
    forall|i: int| 0 <= i < s.len() ==> is_digit(#[trigger] s[i])
}

/// A well-formed identifier string: nonempty, every byte from the identifier
/// alphabet.
pub open spec fn ident_ok(s: Seq<u8>) -> bool {
    s.len() > 0 && forall|i: int| 0 <= i < s.len() ==> is_ident_byte(#[trigger] s[i])
}

/// Numeric value of a digit string, most significant digit first.
pub open spec fn dec_val(s: Seq<u8>) -> nat
    decreases s.len(),
{
    if s.len() == 0 {
        0
    } else {
        dec_val(s.drop_last()) * 10 + (s.last() - 0x30) as nat
    }
}

/// Length of the longest digit prefix of `s`.
pub open spec fn digits_prefix_len(s: Seq<u8>) -> int
    decreases s.len(),
{
    if s.len() == 0 {
        0
    } else if !is_digit(s[0]) {
        0
    } else {
        1 + digits_prefix_len(s.skip(1))
    }
}

/// Length of the longest prefix of `s` free of `+` (0x2b).
pub open spec fn no_plus_prefix_len(s: Seq<u8>) -> int
    decreases s.len(),
{
    if s.len() == 0 {
        0
    } else if s[0] == 0x2b {
        0
    } else {
        1 + no_plus_prefix_len(s.skip(1))
    }
}

proof fn lemma_digits_prefix_len_is(s: Seq<u8>, i: int)
    requires
        0 <= i <= s.len(),
        forall|k: int| 0 <= k < i ==> is_digit(#[trigger] s[k]),
        i == s.len() || !is_digit(s[i]),
    ensures
        digits_prefix_len(s) == i,
    decreases s.len(),
{
    if s.len() == 0 {
    } else if i == 0 {
    } else {
        assert(is_digit(s[0]));
        assert forall|k: int| 0 <= k < i - 1 implies is_digit(#[trigger] s.skip(1)[k]) by {
            assert(s.skip(1)[k] == s[k + 1]);
        }
        if i - 1 < s.skip(1).len() {
            assert(s.skip(1)[i - 1] == s[i]);
        }
        lemma_digits_prefix_len_is(s.skip(1), i - 1);
    }
}

proof fn lemma_no_plus_prefix_len_is(s: Seq<u8>, i: int)
    requires
        0 <= i <= s.len(),
        forall|k: int| 0 <= k < i ==> #[trigger] s[k] != 0x2b,
        i == s.len() || s[i] == 0x2b,
    ensures
        no_plus_prefix_len(s) == i,
    decreases s.len(),
{
    if s.len() == 0 {
    } else if i == 0 {
    } else {
        assert forall|k: int| 0 <= k < i - 1 implies #[trigger] s.skip(1)[k] != 0x2b by {
            assert(s.skip(1)[k] == s[k + 1]);
        }
        if i - 1 < s.skip(1).len() {
            assert(s.skip(1)[i - 1] == s[i]);
        }
        lemma_no_plus_prefix_len_is(s.skip(1), i - 1);
    }
}

// ---------------------------------------------------------------------------
// The version grammar, as a specification-level parser.
// ---------------------------------------------------------------------------

/// A model is well formed when its numbers fit the machine word and its
/// optional identifier strings are valid.
pub open spec fn model_wf(m: VersionModel) -> bool {
    &&& m.major <= u64::MAX
    &&& m.minor <= u64::MAX
    &&& m.patch <= u64::MAX
    &&& (m.pre matches Some(p) ==> ident_ok(p))
    &&& (m.build matches Some(b) ==> ident_ok(b))
}

/// Parses the suffix after the numeric triple: empty, `-pre`, `+build`, or
/// `-pre+build`.
pub open spec fn parse_extras(rest: Seq<u8>) -> Option<(Option<Seq<u8>>, Option<Seq<u8>>)> {
    if rest.len() == 0 {
        Some((None, None))
    } else if rest[0] == 0x2d {
        let body = rest.skip(1);
        let k = no_plus_prefix_len(body);
        if k == body.len() {
            if ident_ok(body) {
                Some((Some(body), None))
            } else {
                None
            }
        } else {
            let p = body.take(k);
            let b = body.skip(k + 1);
            if ident_ok(p) && ident_ok(b) {
                Some((Some(p), Some(b)))
            } else {
                None
            }
        }
    } else if rest[0] == 0x2b {
        let b = rest.skip(1);
        if ident_ok(b) {
            Some((None, Some(b)))
        } else {
            None
        }
    } else {
        None
    }
}

/// The version grammar: `major.minor.patch` in decimal, each field nonempty
/// and fitting in 64 bits, optionally followed by `-pre` and/or `+build`.
pub open spec fn parse_version_model(s: Seq<u8>) -> Option<VersionModel> {
    let n1 = digits_prefix_len(s);
    if n1 == 0 || n1 >= s.len() || s[n1] != 0x2e {
        None
    } else {
        let s2 = s.skip(n1 + 1);
        let n2 = digits_prefix_len(s2);
        if n2 == 0 || n2 >= s2.len() || s2[n2] != 0x2e {
            None
        } else {
            let s3 = s2.skip(n2 + 1);
            let n3 = digits_prefix_len(s3);
            if n3 == 0 {
                None
            } else {
                let major = dec_val(s.take(n1));
                let minor = dec_val(s2.take(n2));
                let patch = dec_val(s3.take(n3));
                if major > u64::MAX || minor > u64::MAX || patch > u64::MAX {
                    None
                } else {
                    match parse_extras(s3.skip(n3)) {
                        Some((pre, build)) => Some(
                            VersionModel { major, minor, patch, pre, build },
                        ),
                        None => None,
                    }
                }
            }
        }
    }
}

// ---------------------------------------------------------------------------
// Ordering and compatibility.
// ---------------------------------------------------------------------------

/// Byte-wise lexicographic order on identifier strings, used to order two
/// pre-release strings attached to the same numeric triple.
pub open spec fn lex_lt(a: Seq<u8>, b: Seq<u8>) -> bool
    decreases a.len(),
{
    if b.len() == 0 {
        false
    } else if a.len() == 0 {
        true
    } else if a[0] < b[0] {
        true
    } else if a[0] > b[0] {
        false
    } else {
        lex_lt(a.skip(1), b.skip(1))
    }
}

/// Order of the optional pre-release parts: a pre-release sorts strictly
/// below the release with the same numeric triple.
pub open spec fn pre_lt(a: Option<Seq<u8>>, b: Option<Seq<u8>>) -> bool {
    match (a, b) {
        (Some(x), Some(y)) => lex_lt(x, y),
        (Some(_), None) => true,
        (None, Some(_)) => false,
        (None, None) => false,
    }
}

/// Strict order on version models: lexicographic on the numeric triple, then
/// by the pre-release rule. Build metadata never participates in ordering.
pub open spec fn lt_model(a: VersionModel, b: VersionModel) -> bool {
    if a.major != b.major {
        a.major < b.major
    } else if a.minor != b.minor {
        a.minor < b.minor
    } else if a.patch != b.patch {
        a.patch < b.patch
    } else {
        pre_lt(a.pre, b.pre)
    }
}

/// Equality under the order: same triple and same pre-release part. Build
/// metadata is ignored, as it is everywhere in comparisons.
pub open spec fn eq_model(a: VersionModel, b: VersionModel) -> bool {
    a.major == b.major && a.minor == b.minor && a.patch == b.patch && a.pre == b.pre
}

/// The comparison outcome the order assigns to a pair of models.
pub open spec fn cmp_model(a: VersionModel, b: VersionModel) -> VersionOrder {
    if eq_model(a, b) {
        VersionOrder::Equal
    } else if lt_model(a, b) {
        VersionOrder::Less
    } else {
        VersionOrder::Greater
    }
}

/// Semver compatibility of `candidate` against `baseline`: same major number
/// when the baseline's major is at least 1; same major and minor number when
/// the baseline is a `0.x` version.
pub open spec fn compat_model(candidate: VersionModel, baseline: VersionModel) -> bool {
    candidate.major == baseline.major && (baseline.major >= 1 || candidate.minor == baseline.minor)
}

proof fn lemma_lex_lt_ne(a: Seq<u8>, b: Seq<u8>)
    requires
        lex_lt(a, b),
    ensures
        a != b,
        !lex_lt(b, a),
    decreases a.len(),
{
    if b.len() == 0 {
    } else if a.len() == 0 {
    } else if a[0] < b[0] {
        assert(a[0] != b[0]);
    } else if a[0] > b[0] {
    } else {
        lemma_lex_lt_ne(a.skip(1), b.skip(1));
        if a == b {
            assert(a.skip(1) == b.skip(1));
        }
        assert(a.skip(1) != b.skip(1));
    }
}

proof fn lemma_lex_lt_from_diff(a: Seq<u8>, b: Seq<u8>, i: int)
    requires
        0 <= i <= a.len(),
        forall|k: int| 0 <= k < i ==> a[k] == b[k],
        i < b.len(),
        i == a.len() || a[i] < b[i],
    ensures
        lex_lt(a, b),
    decreases i,
{
    if i == 0 {
        if a.len() == 0 {
        } else {
            assert(a[0] < b[0]);
        }
    } else {
        assert(a[0] == b[0]);
        assert forall|k: int| 0 <= k < i - 1 implies #[trigger] a.skip(1)[k] == b.skip(1)[k] by {
            assert(a.skip(1)[k] == a[k + 1]);
            assert(b.skip(1)[k] == b[k + 1]);
        }
        if i < a.len() {
            assert(a.skip(1)[i - 1] == a[i]);
        }
        assert(b.skip(1)[i - 1] == b[i]);
        lemma_lex_lt_from_diff(a.skip(1), b.skip(1), i - 1);
    }
}

/// Three-way byte-wise lexicographic comparison.
fn lex_cmp(a: &Vec<u8>, b: &Vec<u8>) -> (r: VersionOrder)
    ensures
        r == VersionOrder::Equal <==> a@ == b@,
        r == VersionOrder::Less <==> lex_lt(a@, b@),
        r == VersionOrder::Greater <==> lex_lt(b@, a@),
{
    let mut i: usize = 0;
    loop
        invariant
            i <= a.len(),
            i <= b.len(),
            forall|k: int| 0 <= k < i ==> a@[k] == b@[k],
        decreases a.len() - i,
    {
        if i == a.len() && i == b.len() {
            proof {
                assert(a@ =~= b@);
                if lex_lt(a@, b@) {
                    lemma_lex_lt_ne(a@, b@);
                }
                if lex_lt(b@, a@) {
                    lemma_lex_lt_ne(b@, a@);
                }
            }
            return VersionOrder::Equal;
        }
        if i == a.len() {
            proof {
                lemma_lex_lt_from_diff(a@, b@, i as int);
                lemma_lex_lt_ne(a@, b@);
            }
            return VersionOrder::Less;
        }
        if i == b.len() {
            proof {
                lemma_lex_lt_from_diff(b@, a@, i as int);
                lemma_lex_lt_ne(b@, a@);
            }
            return VersionOrder::Greater;
        }
        if a[i] < b[i] {
            proof {
                lemma_lex_lt_from_diff(a@, b@, i as int);
                lemma_lex_lt_ne(a@, b@);
            }
            return VersionOrder::Less;
        }
        if a[i] > b[i] {
            proof {
                lemma_lex_lt_from_diff(b@, a@, i as int);
                lemma_lex_lt_ne(b@, a@);
            }
            return VersionOrder::Greater;
        }
        i = i + 1;
    }
}

impl Version {
    /// Strict total-order comparison of two versions: numeric triple first,
    /// then the pre-release rule; build metadata is ignored.
    pub fn compare(a: &Version, b: &Version) -> (r: VersionOrder)
        ensures
            r == cmp_model(a@, b@),
    {
        if a.major < b.major {
            return VersionOrder::Less;
        }
        if a.major > b.major {
            return VersionOrder::Greater;
        }
        if a.minor < b.minor {
            return VersionOrder::Less;
        }
        if a.minor > b.minor {
            return VersionOrder::Greater;
        }
        if a.patch < b.patch {
            return VersionOrder::Less;
        }
        if a.patch > b.patch {
            return VersionOrder::Greater;
        }
        match (&a.pre, &b.pre) {
            (None, None) => VersionOrder::Equal,
            (Some(_), None) => VersionOrder::Less,
            (None, Some(_)) => VersionOrder::Greater,
            (Some(x), Some(y)) => {
                let r = lex_cmp(x, y);
                proof {
                    if r == VersionOrder::Less {
                        lemma_lex_lt_ne(x@, y@);
                    }
                    if r == VersionOrder::Greater {
                        lemma_lex_lt_ne(y@, x@);
                    }
                }
                r
            },
        }
    }

    /// Whether `candidate` stays within `baseline`'s breaking-change
    /// boundary: same major for major >= 1, same major and minor for `0.x`.
    pub fn is_compatible(candidate: &Version, baseline: &Version) -> (r: bool)
        ensures
            r == compat_model(candidate@, baseline@),
    {
        candidate.major == baseline.major && (baseline.major >= 1 || candidate.minor
            == baseline.minor)
    }
}

proof fn lemma_lex_lt_trans(a: Seq<u8>, b: Seq<u8>, c: Seq<u8>)
    requires
        lex_lt(a, b),
        lex_lt(b, c),
    ensures
        lex_lt(a, c),
    decreases a.len() + b.len() + c.len(),
{
    if b.len() == 0 {
        assert(false);
    } else if c.len() == 0 {
        assert(false);
    } else if a.len() == 0 {
    } else {
        if a[0] < b[0] {
            if b[0] > c[0] {
                assert(false);
            }
        } else if a[0] > b[0] {
            assert(false);
        } else {
            if b[0] > c[0] {
                assert(false);
            } else if b[0] == c[0] {
                lemma_lex_lt_trans(a.skip(1), b.skip(1), c.skip(1));
            }
        }
    }
}

/// Versions equal under the order are not strictly below one another.
pub proof fn lemma_eq_not_lt(a: VersionModel, b: VersionModel)
    requires
        eq_model(a, b),
    ensures
        !lt_model(a, b),
{
    match (a.pre, b.pre) {
        (Some(x), Some(y)) => {
            if lex_lt(x, y) {
                lemma_lex_lt_ne(x, y);
            }
        },
        _ => {},
    }
}

/// The version order is irreflexive.
pub proof fn lemma_lt_irrefl(a: VersionModel)
    ensures
        !lt_model(a, a),
{
    lemma_eq_not_lt(a, a);
}

/// The version order is transitive.
pub proof fn lemma_lt_trans(a: VersionModel, b: VersionModel, c: VersionModel)
    requires
        lt_model(a, b),
        lt_model(b, c),
    ensures
        lt_model(a, c),
{
    if a.major == c.major && a.minor == c.minor && a.patch == c.patch {
        assert(a.major == b.major && a.minor == b.minor && a.patch == b.patch);
        match (a.pre, b.pre, c.pre) {
            (Some(x), Some(y), Some(z)) => {
                lemma_lex_lt_trans(x, y, z);
            },
            _ => {},
        }
    }
}

// ---------------------------------------------------------------------------
// Executable parsing.
// ---------------------------------------------------------------------------

/// Copies `s[a..b]` into a fresh vector.
pub(crate) fn bytes_range(s: &Vec<u8>, a: usize, b: usize) -> (r: Vec<u8>)
    requires
        a <= b <= s.len(),
    ensures
        r@ == s@.subrange(a as int, b as int),
{
    let mut r: Vec<u8> = Vec::new();
    let mut i: usize = a;
    while i < b
        invariant
            a <= i <= b <= s.len(),
            r@ == s@.subrange(a as int, i as int),
        decreases b - i,
    {
        r.push(s[i]);
        proof {
            assert(s@.subrange(a as int, i + 1) =~= s@.subrange(a as int, i as int).push(
                s@[i as int],
            ));
        }
        i = i + 1;
    }
    r
}

/// Copies a byte vector.
pub(crate) fn dup_bytes(s: &Vec<u8>) -> (r: Vec<u8>)
    ensures
        r@ == s@,
{
    let r = bytes_range(s, 0, s.len());
    proof {
        assert(s@.subrange(0, s@.len() as int) =~= s@);
    }
    r
}

/// Copies a version value.
pub fn dup_version(v: &Version) -> (r: Version)
    ensures
        r@ == v@,
{
    let pre = match &v.pre {
        Some(x) => Some(dup_bytes(x)),
        None => None,
    };
    let build = match &v.build {
        Some(x) => Some(dup_bytes(x)),
        None => None,
    };
    Version { major: v.major, minor: v.minor, patch: v.patch, pre, build }
}

/// Byte-wise equality of two vectors.
pub(crate) fn bytes_eq(a: &Vec<u8>, b: &Vec<u8>) -> (r: bool)
    ensures
        r == (a@ == b@),
{
    if a.len() != b.len() {
        return false;
    }
    let mut i: usize = 0;
    while i < a.len()
        invariant
            i <= a.len(),
            a.len() == b.len(),
            forall|k: int| 0 <= k < i ==> a@[k] == b@[k],
        decreases a.len() - i,
    {
        if a[i] != b[i] {
            return false;
        }
        i = i + 1;
    }
    proof {
        assert(a@ =~= b@);
    }
    true
}

/// Structural equality of two versions, build metadata included.
pub fn version_eq(a: &Version, b: &Version) -> (r: bool)
    ensures
        r == (a@ == b@),
{
    if a.major != b.major || a.minor != b.minor || a.patch != b.patch {
        return false;
    }
    let pre_eq = match (&a.pre, &b.pre) {
        (None, None) => true,
        (Some(x), Some(y)) => bytes_eq(x, y),
        _ => false,
    };
    if !pre_eq {
        return false;
    }
    let build_eq = match (&a.build, &b.build) {
        (None, None) => true,
        (Some(x), Some(y)) => bytes_eq(x, y),
        _ => false,
    };
    build_eq
}

fn scan_digits(s: &Vec<u8>, from: usize) -> (r: usize)
    requires
        from <= s.len(),
    ensures
        from <= r <= s.len(),
        digits_prefix_len(s@.skip(from as int)) == r - from,
        forall|k: int| from <= k < r ==> is_digit(#[trigger] s@[k]),
        r == s.len() || !is_digit(s@[r as int]),
{
    let mut i: usize = from;
    while i < s.len() && 0x30 <= s[i] && s[i] <= 0x39
        invariant
            from <= i <= s.len(),
            forall|k: int| from <= k < i ==> is_digit(#[trigger] s@[k]),
        decreases s.len() - i,
    {
        i = i + 1;
    }
    proof {
        let t = s@.skip(from as int);
        assert forall|k: int| 0 <= k < i - from implies is_digit(#[trigger] t[k]) by {
            assert(t[k] == s@[from + k]);
        }
        if i < s.len() {
            assert(t[i - from] == s@[i as int]);
        }
        lemma_digits_prefix_len_is(t, i as int - from as int);
    }
    i
}

fn scan_no_plus(s: &Vec<u8>, from: usize) -> (r: usize)
    requires
        from <= s.len(),
    ensures
        from <= r <= s.len(),
        no_plus_prefix_len(s@.skip(from as int)) == r - from,
        r == s.len() || s@[r as int] == 0x2b,
{
    let mut i: usize = from;
    while i < s.len() && s[i] != 0x2b
        invariant
            from <= i <= s.len(),
            forall|k: int| from <= k < i ==> #[trigger] s@[k] != 0x2b,
        decreases s.len() - i,
    {
        i = i + 1;
    }
    proof {
        let t = s@.skip(from as int);
        assert forall|k: int| 0 <= k < i - from implies #[trigger] t[k] != 0x2b by {
            assert(t[k] == s@[from + k]);
        }
        if i < s.len() {
            assert(t[i - from] == s@[i as int]);
        }
        lemma_no_plus_prefix_len_is(t, i as int - from as int);
    }
    i
}

fn check_ident(s: &Vec<u8>, a: usize, b: usize) -> (r: bool)
    requires
        a <= b <= s.len(),
    ensures
        r == ident_ok(s@.subrange(a as int, b as int)),
{
    if a == b {
        return false;
    }
    let ghost sub = s@.subrange(a as int, b as int);
    let mut i: usize = a;
    while i < b
        invariant
            a <= i <= b <= s.len(),
            sub == s@.subrange(a as int, b as int),
            forall|k: int| 0 <= k < i - a ==> is_ident_byte(#[trigger] sub[k]),
        decreases b - i,
    {
        let c = s[i];
        let ok = (0x30 <= c && c <= 0x39) || (0x41 <= c && c <= 0x5a) || (0x61 <= c && c <= 0x7a)
            || c == 0x2e || c == 0x2d;
        if !ok {
            proof {
                assert(sub[i - a] == s@[i as int]);
                assert(!is_ident_byte(sub[i - a]));
            }
            return false;
        }
        proof {
            assert(sub[i - a] == s@[i as int]);
        }
        i = i + 1;
    }
    true
}

proof fn lemma_dec_val_take_le(t: Seq<u8>, j: int)
    requires
        0 <= j <= t.len(),
    ensures
        dec_val(t.take(j)) <= dec_val(t),
    decreases t.len() - j,
{
    if j == t.len() {
        assert(t.take(j) =~= t);
    } else {
        assert(t.take(j + 1).drop_last() =~= t.take(j));
        assert(dec_val(t.take(j + 1)) == dec_val(t.take(j)) * 10 + (t.take(j + 1).last()
            - 0x30) as nat);
        lemma_dec_val_take_le(t, j + 1);
    }
}

fn parse_u64(s: &Vec<u8>, a: usize, b: usize) -> (r: Option<u64>)
    requires
        a <= b <= s.len(),
        all_digits(s@.subrange(a as int, b as int)),
    ensures
        match r {
            Some(v) => v as nat == dec_val(s@.subrange(a as int, b as int)),
            None => dec_val(s@.subrange(a as int, b as int)) > u64::MAX,
        },
{
    let ghost sub = s@.subrange(a as int, b as int);
    let mut val: u64 = 0;
    let mut i: usize = a;
    while i < b
        invariant
            a <= i <= b <= s.len(),
            sub == s@.subrange(a as int, b as int),
            all_digits(sub),
            val as nat == dec_val(sub.take(i - a)),
        decreases b - i,
    {
        let c = s[i];
        proof {
            assert(sub[i - a] == s@[i as int]);
            assert(is_digit(sub[i - a]));
        }
        let d: u64 = (c - 0x30) as u64;
        proof {
            assert(sub.take(i - a + 1).drop_last() =~= sub.take(i - a as int));
            assert(sub.take(i - a + 1).last() == sub[i - a]);
            assert(dec_val(sub.take(i - a + 1)) == dec_val(sub.take(i - a as int)) * 10 + (sub[i
                - a] - 0x30) as nat);
        }
        if val > u64::MAX / 10 || (val == u64::MAX / 10 && d > u64::MAX % 10) {
            proof {
                assert(dec_val(sub.take(i - a + 1)) > u64::MAX);
                lemma_dec_val_take_le(sub, i - a + 1);
            }
            return None;
        }
        val = val * 10 + d;
        i = i + 1;
    }
    proof {
        assert(sub.take(i - a as int) =~= sub);
    }
    Some(val)
}

/// Parses a version string from its raw bytes, per the version grammar:
/// decimal `major.minor.patch`, optionally followed by `-pre` and/or
/// `+build` identifier suffixes.
#[verifier::rlimit(100)]
#[verifier::spinoff_prover]
pub fn parse_version(s: &Vec<u8>) -> (r: Result<Version, OutdatedError>)
    ensures
        match r {
            Ok(v) => parse_version_model(s@) == Some(v@) && model_wf(v@),
            Err(e) => parse_version_model(s@) is None && e == OutdatedError::InvalidVersion,
        },
{
    let n = s.len();
    proof {
        assert(s@.skip(0) =~= s@);
    }
    let i1 = scan_digits(s, 0);
    if i1 == 0 || i1 >= n || s[i1] != 0x2e {
        return Err(OutdatedError::InvalidVersion);
    }
    let ghost s2 = s@.skip(i1 + 1);
    let i2 = scan_digits(s, i1 + 1);
    proof {
        assert(digits_prefix_len(s2) == i2 - (i1 + 1));
        if i2 < n {
            assert(s2[i2 - (i1 + 1)] == s@[i2 as int]);
        }
    }
    if i2 == i1 + 1 || i2 >= n || s[i2] != 0x2e {
        proof {
            if !(i2 == i1 + 1 || i2 >= n) {
                assert(s2[digits_prefix_len(s2)] == s@[i2 as int]);
            }
        }
        return Err(OutdatedError::InvalidVersion);
    }
    let ghost s3 = s2.skip(i2 - i1);
    proof {
        assert(s3 =~= s@.skip(i2 + 1)) by {
            assert forall|k: int| 0 <= k < s3.len() implies #[trigger] s3[k] == s@.skip(i2 + 1)[k]
            by {
                assert(s3[k] == s2[i2 - i1 + k]);
                assert(s2[i2 - i1 + k] == s@[i1 + 1 + (i2 - i1 + k)]);
                assert(s@.skip(i2 + 1)[k] == s@[i2 + 1 + k]);
            }
        }
    }
    let i3 = scan_digits(s, i2 + 1);
    proof {
        assert(digits_prefix_len(s3) == i3 - (i2 + 1));
    }
    if i3 == i2 + 1 {
        return Err(OutdatedError::InvalidVersion);
    }
    // The three numeric fields.
    proof {
        assert(s@.subrange(0, i1 as int) =~= s@.take(i1 as int));
        assert(forall|k: int| 0 <= k < i1 ==> is_digit(#[trigger] s@.subrange(0, i1 as int)[k]));
    }
    let major_opt = parse_u64(s, 0, i1);
    proof {
        assert(s@.subrange(i1 + 1, i2 as int) =~= s2.take(i2 - (i1 + 1)));
        assert(forall|k: int|
            0 <= k < i2 - (i1 + 1) ==> is_digit(#[trigger] s@.subrange(i1 + 1, i2 as int)[k]));
    }
    let minor_opt = parse_u64(s, i1 + 1, i2);
    proof {
        assert(s@.subrange(i2 + 1, i3 as int) =~= s3.take(i3 - (i2 + 1)));
        assert(forall|k: int|
            0 <= k < i3 - (i2 + 1) ==> is_digit(#[trigger] s@.subrange(i2 + 1, i3 as int)[k]));
    }
    let patch_opt = parse_u64(s, i2 + 1, i3);
    let major = match major_opt {
        Some(v) => v,
        None => {
            return Err(OutdatedError::InvalidVersion);
        },
    };
    let minor = match minor_opt {
        Some(v) => v,
        None => {
            return Err(OutdatedError::InvalidVersion);
        },
    };
    let patch = match patch_opt {
        Some(v) => v,
        None => {
            return Err(OutdatedError::InvalidVersion);
        },
    };
    // The optional pre-release and build-metadata suffixes.
    let ghost rest = s3.skip(i3 - (i2 + 1));
    proof {
        assert(rest =~= s@.skip(i3 as int)) by {
            assert forall|k: int| 0 <= k < rest.len() implies #[trigger] rest[k] == s@.skip(
                i3 as int,
            )[k] by {
                assert(rest[k] == s3[i3 - (i2 + 1) + k]);
                assert(s3[i3 - (i2 + 1) + k] == s@[i2 + 1 + (i3 - (i2 + 1) + k)]);
                assert(s@.skip(i3 as int)[k] == s@[i3 + k]);
            }
        }
    }
    match parse_suffix(s, i3) {
        Some((pre, build)) => {
            let v = Version { major, minor, patch, pre, build };
            proof {
                assert(parse_version_model(s@) == Some(v@));
            }
            Ok(v)
        },
        None => Err(OutdatedError::InvalidVersion),
    }
}

/// Spec-level view of an optional byte string.
pub open spec fn opt_bytes_view(o: Option<Vec<u8>>) -> Option<Seq<u8>> {
    match o {
        Some(v) => Some(v@),
        None => None,
    }
}

fn parse_suffix(s: &Vec<u8>, from: usize) -> (r: Option<(Option<Vec<u8>>, Option<Vec<u8>>)>)
    requires
        from <= s.len(),
    ensures
        match r {
            Some(pb) => parse_extras(s@.skip(from as int)) == Some(
                (opt_bytes_view(pb.0), opt_bytes_view(pb.1)),
            ),
            None => parse_extras(s@.skip(from as int)) is None,
        },
{
    let n = s.len();
    let ghost rest = s@.skip(from as int);
    if from == n {
        return Some((None, None));
    }
    proof {
        assert(rest[0] == s@[from as int]);
    }
    if s[from] == 0x2d {
        proof {
            assert(rest.skip(1) =~= s@.skip(from + 1)) by {
                assert forall|k: int| 0 <= k < rest.len() - 1 implies #[trigger] rest.skip(1)[k]
                    == s@.skip(from + 1)[k] by {
                    assert(rest.skip(1)[k] == rest[1 + k]);
                    assert(rest[1 + k] == s@[from + 1 + k]);
                    assert(s@.skip(from + 1)[k] == s@[from + 1 + k]);
                }
            }
        }
        let kp = scan_no_plus(s, from + 1);
        proof {
            assert(no_plus_prefix_len(rest.skip(1)) == kp - (from + 1));
        }
        if kp == n {
            proof {
                assert(rest.skip(1) =~= s@.subrange(from + 1, n as int));
            }
            if !check_ident(s, from + 1, n) {
                return None;
            }
            Some((Some(bytes_range(s, from + 1, n)), None))
        } else {
            let ghost body = rest.skip(1);
            proof {
                assert(body.take(kp - (from + 1)) =~= s@.subrange(from + 1, kp as int)) by {
                    assert forall|k: int| 0 <= k < kp - (from + 1) implies #[trigger] body.take(
                        kp - (from + 1),
                    )[k] == s@.subrange(from + 1, kp as int)[k] by {
                        assert(body[k] == s@[from + 1 + k]);
                    }
                }
                assert(body.skip(kp - (from + 1) + 1) =~= s@.subrange(kp + 1, n as int)) by {
                    assert forall|k: int|
                        0 <= k < body.len() - (kp - (from + 1) + 1) implies #[trigger] body.skip(
                        kp - (from + 1) + 1,
                    )[k] == s@.subrange(kp + 1, n as int)[k] by {
                        assert(body.skip(kp - (from + 1) + 1)[k] == body[kp - (from + 1) + 1 + k]);
                        assert(body[kp - (from + 1) + 1 + k] == s@[kp + 1 + k]);
                    }
                }
            }
            let p_ok = check_ident(s, from + 1, kp);
            let b_ok = check_ident(s, kp + 1, n);
            if !p_ok || !b_ok {
                return None;
            }
            Some((Some(bytes_range(s, from + 1, kp)), Some(bytes_range(s, kp + 1, n))))
        }
    } else if s[from] == 0x2b {
        proof {
            assert(rest.skip(1) =~= s@.subrange(from + 1, n as int)) by {
                assert forall|k: int| 0 <= k < rest.len() - 1 implies #[trigger] rest.skip(1)[k]
                    == s@.subrange(from + 1, n as int)[k] by {
                    assert(rest.skip(1)[k] == rest[1 + k]);
                    assert(rest[1 + k] == s@[from + 1 + k]);
                }
            }
        }
        if !check_ident(s, from + 1, n) {
            return None;
        }
        Some((None, Some(bytes_range(s, from + 1, n))))
    } else {
        None
    }
}

// ---------------------------------------------------------------------------
// Serialization.
// ---------------------------------------------------------------------------

/// Decimal digit string of `n`, most significant digit first, no leading
/// zeros (a lone `0` for zero).
pub open spec fn dec_str(n: nat) -> Seq<u8>
    decreases n,
{
    if n < 10 {
        seq![(0x30 + n) as u8]
    } else {
        dec_str(n / 10).push((0x30 + n % 10) as u8)
    }
}

pub open spec fn pre_part(p: Option<Seq<u8>>) -> Seq<u8> {
    match p {
        Some(x) => seq![0x2du8] + x,
        None => Seq::empty(),
    }
}

pub open spec fn build_part(b: Option<Seq<u8>>) -> Seq<u8> {
    match b {
        Some(x) => seq![0x2bu8] + x,
        None => Seq::empty(),
    }
}

/// Canonical rendering of a version model: `major.minor.patch`, then `-pre`
/// and `+build` where present.
pub open spec fn serialize_model(m: VersionModel) -> Seq<u8> {
    dec_str(m.major) + seq![0x2eu8] + dec_str(m.minor) + seq![0x2eu8] + dec_str(m.patch) + pre_part(
        m.pre,
    ) + build_part(m.build)
}

pub(crate) fn push_bytes(out: &mut Vec<u8>, s: &Vec<u8>)
    ensures
        final(out)@ == old(out)@ + s@,
{
    let mut i: usize = 0;
    while i < s.len()
        invariant
            i <= s.len(),
            out@ == old(out)@ + s@.take(i as int),
        decreases s.len() - i,
    {
        out.push(s[i]);
        proof {
            assert(old(out)@ + s@.take(i + 1) =~= (old(out)@ + s@.take(i as int)).push(
                s@[i as int],
            ));
        }
        i = i + 1;
    }
    proof {
        assert(s@.take(s@.len() as int) =~= s@);
    }
}

fn push_dec(out: &mut Vec<u8>, n: u64)
    ensures
        final(out)@ == old(out)@ + dec_str(n as nat),
    decreases n,
{
    if n < 10 {
        out.push((0x30 + n) as u8);
        proof {
            assert(old(out)@ + dec_str(n as nat) =~= old(out)@.push((0x30 + n) as u8));
        }
    } else {
        push_dec(out, n / 10);
        let d: u8 = (0x30 + n % 10) as u8;
        out.push(d);
        proof {
            assert(dec_str(n as nat) == dec_str((n as nat) / 10).push(d));
            assert(old(out)@ + dec_str(n as nat) =~= (old(out)@ + dec_str((n as nat) / 10)).push(
                d,
            ));
        }
    }
}

/// Renders a version as bytes in the same grammar `parse_version` accepts.
pub fn serialize_version(v: &Version) -> (r: Vec<u8>)
    ensures
        r@ == serialize_model(v@),
{
    let ghost a = dec_str(v.major as nat);
    let ghost b = dec_str(v.minor as nat);
    let ghost c = dec_str(v.patch as nat);
    let mut out: Vec<u8> = Vec::new();
    proof {
        assert(out@ + a =~= a);
    }
    push_dec(&mut out, v.major);
    out.push(0x2e);
    proof {
        assert(out@ =~= a + seq![0x2eu8]);
    }
    push_dec(&mut out, v.minor);
    out.push(0x2e);
    proof {
        assert(out@ =~= a + seq![0x2eu8] + b + seq![0x2eu8]);
    }
    push_dec(&mut out, v.patch);
    let ghost head = a + seq![0x2eu8] + b + seq![0x2eu8] + c;
    match &v.pre {
        Some(p) => {
            out.push(0x2d);
            push_bytes(&mut out, p);
            proof {
                assert(out@ =~= head + pre_part(v@.pre));
            }
        },
        None => {
            proof {
                assert(out@ =~= head + pre_part(v@.pre));
            }
        },
    }
    let ghost head2 = head + pre_part(v@.pre);
    match &v.build {
        Some(q) => {
            out.push(0x2b);
            push_bytes(&mut out, q);
            proof {
                assert(out@ =~= head2 + build_part(v@.build));
            }
        },
        None => {
            proof {
                assert(out@ =~= head2 + build_part(v@.build));
            }
        },
    }
    out
}

// ---------------------------------------------------------------------------
// Round trip: serializing and re-parsing is the identity on version models.
// ---------------------------------------------------------------------------

proof fn lemma_dec_str_digits(n: nat)
    ensures
        dec_str(n).len() >= 1,
        all_digits(dec_str(n)),
    decreases n,
{
    if n < 10 {
    } else {
        lemma_dec_str_digits(n / 10);
        let t = dec_str(n / 10);
        let d = (0x30 + n % 10) as u8;
        assert forall|i: int| 0 <= i < t.push(d).len() implies is_digit(#[trigger] t.push(d)[i]) by {
            if i < t.len() {
                assert(t.push(d)[i] == t[i]);
            } else {
                assert(t.push(d)[i] == d);
            }
        }
    }
}

proof fn lemma_dec_val_dec_str(n: nat)
    ensures
        dec_val(dec_str(n)) == n,
    decreases n,
{
    assert(dec_val(Seq::<u8>::empty()) == 0);
    if n < 10 {
        assert(dec_str(n).drop_last() =~= Seq::<u8>::empty());
        assert(dec_str(n).last() == (0x30 + n) as u8);
        assert(((0x30 + n) as u8 - 0x30) as nat == n);
    } else {
        lemma_dec_val_dec_str(n / 10);
        let t = dec_str(n / 10);
        let d = (0x30 + n % 10) as u8;
        assert(t.push(d).drop_last() =~= t);
        assert((d - 0x30) as nat == n % 10);
        assert(dec_val(t.push(d)) == dec_val(t) * 10 + (d - 0x30) as nat);
        assert(n == (n / 10) * 10 + n % 10);
    }
}

proof fn lemma_ident_no_plus(x: Seq<u8>)
    requires
        ident_ok(x),
    ensures
        forall|k: int| 0 <= k < x.len() ==> #[trigger] x[k] != 0x2b,
{
    assert forall|k: int| 0 <= k < x.len() implies #[trigger] x[k] != 0x2b by {
        assert(is_ident_byte(x[k]));
    }
}

#[verifier::rlimit(100)]
proof fn lemma_parse_extras_of_parts(p: Option<Seq<u8>>, b: Option<Seq<u8>>)
    requires
        p matches Some(x) ==> ident_ok(x),
        b matches Some(y) ==> ident_ok(y),
    ensures
        parse_extras(pre_part(p) + build_part(b)) == Some((p, b)),
{
    let r = pre_part(p) + build_part(b);
    match (p, b) {
        (None, None) => {
            assert(r.len() == 0);
        },
        (Some(x), None) => {
            assert(r =~= seq![0x2du8] + x);
            assert(r[0] == 0x2d);
            assert(r.skip(1) =~= x);
            lemma_ident_no_plus(x);
            lemma_no_plus_prefix_len_is(x, x.len() as int);
        },
        (None, Some(y)) => {
            assert(r =~= seq![0x2bu8] + y);
            assert(r[0] == 0x2b);
            assert(r.skip(1) =~= y);
        },
        (Some(x), Some(y)) => {
            assert(r[0] == 0x2d);
            let body = r.skip(1);
            assert(body =~= x + seq![0x2bu8] + y);
            lemma_ident_no_plus(x);
            assert forall|k: int| 0 <= k < x.len() implies #[trigger] body[k] != 0x2b by {
                assert(body[k] == x[k]);
            }
            assert(body[x.len() as int] == 0x2b);
            lemma_no_plus_prefix_len_is(body, x.len() as int);
            assert(body.take(x.len() as int) =~= x);
            assert(body.skip(x.len() as int + 1) =~= y);
        },
    }
}

/// Serializing a well-formed version model and parsing the result recovers
/// the identical model.
#[verifier::rlimit(100)]
pub proof fn lemma_serialize_parse_round_trip(m: VersionModel)
    requires
        model_wf(m),
    ensures
        parse_version_model(serialize_model(m)) == Some(m),
{
    let a = dec_str(m.major);
    let b = dec_str(m.minor);
    let c = dec_str(m.patch);
    let tail = pre_part(m.pre) + build_part(m.build);
    let s = serialize_model(m);
    lemma_dec_str_digits(m.major);
    lemma_dec_str_digits(m.minor);
    lemma_dec_str_digits(m.patch);
    lemma_dec_val_dec_str(m.major);
    lemma_dec_val_dec_str(m.minor);
    lemma_dec_val_dec_str(m.patch);
    let la = a.len() as int;
    let lb = b.len() as int;
    let lc = c.len() as int;
    // First numeric segment.
    assert forall|k: int| 0 <= k < la implies is_digit(#[trigger] s[k]) by {
        assert(s[k] == a[k]);
    }
    assert(s[la] == 0x2e);
    lemma_digits_prefix_len_is(s, la);
    assert(s.take(la) =~= a);
    // Second numeric segment.
    let s2 = s.skip(la + 1);
    assert(s2 =~= b + seq![0x2eu8] + c + tail) by {
        assert forall|k: int| 0 <= k < s2.len() implies #[trigger] s2[k] == (b + seq![0x2eu8] + c
            + tail)[k] by {
            assert(s2[k] == s[la + 1 + k]);
        }
    }
    assert forall|k: int| 0 <= k < lb implies is_digit(#[trigger] s2[k]) by {
        assert(s2[k] == b[k]);
    }
    assert(s2[lb] == 0x2e);
    lemma_digits_prefix_len_is(s2, lb);
    assert(s2.take(lb) =~= b);
    // Third numeric segment.
    let s3 = s2.skip(lb + 1);
    assert(s3 =~= c + tail) by {
        assert forall|k: int| 0 <= k < s3.len() implies #[trigger] s3[k] == (c + tail)[k] by {
            assert(s3[k] == s2[lb + 1 + k]);
        }
    }
    assert forall|k: int| 0 <= k < lc implies is_digit(#[trigger] s3[k]) by {
        assert(s3[k] == c[k]);
    }
    if lc < s3.len() {
        assert(s3[lc] == tail[0]);
        assert(!is_digit(s3[lc])) by {
            match m.pre {
                Some(x) => {
                    assert(tail[0] == 0x2d);
                },
                None => {
                    match m.build {
                        Some(y) => {
                            assert(tail[0] == 0x2b);
                        },
                        None => {},
                    }
                },
            }
        }
    }
    lemma_digits_prefix_len_is(s3, lc);
    assert(s3.take(lc) =~= c);
    // The suffix.
    assert(s3.skip(lc) =~= tail) by {
        assert forall|k: int| 0 <= k < tail.len() implies #[trigger] s3.skip(lc)[k] == tail[k] by {
            assert(s3.skip(lc)[k] == s3[lc + k]);
        }
    }
    lemma_parse_extras_of_parts(m.pre, m.build);
    assert(parse_version_model(s) == Some(m));
}

proof fn lemma_parse_extras_wf(rest: Seq<u8>)
    ensures
        parse_extras(rest) matches Some(pb) ==> {
            &&& (pb.0 matches Some(p) ==> ident_ok(p))
            &&& (pb.1 matches Some(q) ==> ident_ok(q))
        },
{
}

/// A successfully parsed version model is well formed.
pub proof fn lemma_parse_wf(s: Seq<u8>, m: VersionModel)
    requires
        parse_version_model(s) == Some(m),
    ensures
        model_wf(m),
{
    let n1 = digits_prefix_len(s);
    let s2 = s.skip(n1 + 1);
    let n2 = digits_prefix_len(s2);
    let s3 = s2.skip(n2 + 1);
    let n3 = digits_prefix_len(s3);
    lemma_parse_extras_wf(s3.skip(n3));
}

/// Law: parsing a valid version string, then serializing the parsed value,
/// yields a string that parses back to the very same version model — in
/// particular one comparing equal to the original.
pub proof fn lemma_parse_serialize_round_trip(s: Seq<u8>, m: VersionModel)
    requires
        parse_version_model(s) == Some(m),
    ensures
        parse_version_model(serialize_model(m)) == Some(m),
        cmp_model(m, m) == VersionOrder::Equal,
{
    lemma_parse_wf(s, m);
    lemma_serialize_parse_round_trip(m);
}

/// Law: every version is semver-compatible with itself.
pub proof fn lemma_compatible_reflexive(v: VersionModel)
    ensures
        compat_model(v, v),
{
}

/// Law: compatibility is convex along the version line. If `a` is below `b`
/// in the order and compatible with it, then every version lying between the
/// two is compatible with both: no version inside one breaking-change
/// boundary is reported as incompatible.
pub proof fn lemma_compatible_convex(a: VersionModel, b: VersionModel, c: VersionModel)
    requires
        cmp_model(a, b) == VersionOrder::Less,
        compat_model(a, b),
        cmp_model(a, c) != VersionOrder::Greater,
        cmp_model(c, b) != VersionOrder::Greater,
    ensures
        compat_model(c, a),
        compat_model(c, b),
{
}

} // verus!
