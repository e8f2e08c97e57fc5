//! Semantic versions: their text and their order.

use vstd::prelude::*;
use vstd::string::*;
use crate::number::{decimal, decimal_of, lemma_decimal, lemma_decimal_injective};
use crate::text::{
    before, is_digit, is_space, lemma_before, lemma_before_bound, lemma_text_less_total,
    lemma_text_less_transitive, lemma_trim_start_matches, split, text_less, trim_start_matches,
};

verus! {

/// A semantic version.
#[derive(Debug, Clone, PartialEq, Eq)]
pub struct Version {
    pub major: u64,
    pub minor: u64,
    pub patch: u64,
    /// What follows the hyphen, or nothing.
    pub pre: String,
    /// What follows the plus sign, or nothing.
    pub build: String,
}

/// The contents of a `Version`.
pub struct VersionView {
    pub major: u64,
    pub minor: u64,
    pub patch: u64,
    pub pre: Seq<char>,
    pub build: Seq<char>,
}

impl View for Version {
    type V = VersionView;

    open spec fn view(&self) -> VersionView {
        VersionView {
            major: self.major,
            minor: self.minor,
            patch: self.patch,
            pre: self.pre@,
            build: self.build@,
        }
    }
}

/// The contents of a vector of versions.
pub open spec fn version_views(v: Seq<Version>) -> Seq<VersionView> {
    Seq::new(v.len(), |i: int| v[i]@)
}

// ---------------------------------------------------------------------------
// Well-formed versions and their text
// ---------------------------------------------------------------------------

/// The characters of a pre-release or build field.
pub open spec fn is_field_char(c: char) -> bool {
    is_digit(c) || 'a' <= c <= 'z' || 'A' <= c <= 'Z' || c == '-'
}

/// Whether `s` holds digits only.
pub open spec fn all_digits(s: Seq<char>) -> bool {
    forall|i: int| 0 <= i < s.len() ==> is_digit(#[trigger] s[i])
}

/// Whether `s` can be one field of a pre-release or of build metadata. A number in
/// a pre-release has no leading zero.
pub open spec fn is_field(s: Seq<char>, in_build: bool) -> bool {
    &&& s.len() > 0
    &&& forall|i: int| 0 <= i < s.len() ==> is_field_char(#[trigger] s[i])
    &&& in_build || s.len() == 1 || !all_digits(s) || s[0] != '0'
}

/// Whether `s` is empty or a list of fields that dots separate.
pub open spec fn is_field_list(s: Seq<char>, in_build: bool) -> bool {
    s.len() == 0 || forall|i: int|
        0 <= i < split(s, '.').len() ==> is_field(#[trigger] split(s, '.')[i], in_build)
}

impl VersionView {
    /// Whether the pre-release and the build metadata are lists of fields.
    pub open spec fn wf(self) -> bool {
        is_field_list(self.pre, false) && is_field_list(self.build, true)
    }
}

impl Version {
    /// Whether the pre-release and the build metadata are lists of fields.
    pub open spec fn wf(self) -> bool {
        self@.wf()
    }
}

/// `s` after `mark`, or nothing where `s` is empty.
pub open spec fn marked(mark: char, s: Seq<char>) -> Seq<char> {
    if s.len() == 0 {
        seq![]
    } else {
        seq![mark] + s
    }
}

/// The text of a version.
pub open spec fn version_text(v: VersionView) -> Seq<char> {
    decimal(v.major as nat) + seq!['.'] + decimal(v.minor as nat) + seq!['.'] + decimal(
        v.patch as nat,
    ) + marked('-', v.pre) + marked('+', v.build)
}

/// The version that `s` is the text of.
pub open spec fn parsed_version(s: Seq<char>) -> Option<VersionView> {
    if exists|v: VersionView| v.wf() && #[trigger] version_text(v) == s {
        Some(choose|v: VersionView| v.wf() && #[trigger] version_text(v) == s)
    } else {
        None
    }
}

// ---------------------------------------------------------------------------
// The order of versions
// ---------------------------------------------------------------------------

/// The order of fields: numbers by value, before other fields, which are ordered by
/// code points. In build metadata leading zeros decide between equal numbers.
pub open spec fn field_less(a: Seq<char>, b: Seq<char>, in_build: bool) -> bool {
    let x = if in_build { trim_start_matches(a, '0') } else { a };
    let y = if in_build { trim_start_matches(b, '0') } else { b };
    if all_digits(a) && all_digits(b) {
        ||| x.len() < y.len()
        ||| x.len() == y.len() && text_less(x, y)
        ||| x == y && a.len() < b.len()
    } else if all_digits(a) || all_digits(b) {
        all_digits(a)
    } else {
        text_less(a, b)
    }
}

/// The order of lists of fields: the first difference decides, and a list comes
/// before its continuations.
pub open spec fn fields_less(a: Seq<Seq<char>>, b: Seq<Seq<char>>, in_build: bool) -> bool
    decreases a.len(),
{
    if b.len() == 0 {
        false
    } else if a.len() == 0 {
        true
    } else if a[0] != b[0] {
        field_less(a[0], b[0], in_build)
    } else {
        fields_less(a.skip(1), b.skip(1), in_build)
    }
}

/// The order of pre-releases: a release comes after its pre-releases.
pub open spec fn pre_less(a: Seq<char>, b: Seq<char>) -> bool {
    if a.len() == 0 || b.len() == 0 {
        a.len() > 0
    } else {
        fields_less(split(a, '.'), split(b, '.'), false)
    }
}

/// The order of build metadata.
pub open spec fn build_less(a: Seq<char>, b: Seq<char>) -> bool {
    fields_less(split(a, '.'), split(b, '.'), true)
}

/// The order of versions.
pub open spec fn version_less(a: VersionView, b: VersionView) -> bool {
    if a.major != b.major {
        a.major < b.major
    } else if a.minor != b.minor {
        a.minor < b.minor
    } else if a.patch != b.patch {
        a.patch < b.patch
    } else if a.pre != b.pre {
        pre_less(a.pre, b.pre)
    } else {
        build_less(a.build, b.build)
    }
}

// ---------------------------------------------------------------------------
// The operations
// ---------------------------------------------------------------------------

/// `semver::Version::parse` reads exactly the texts of well-formed versions, and
/// gives back the version that a text belongs to.
#[verifier::external_body]
fn semver_parse(text: &str) -> (r: Option<Version>)
    ensures
        match r {
            Some(v) => v.wf() && version_text(v@) == text@,
            None => forall|v: VersionView| v.wf() ==> #[trigger] version_text(v) != text@,
        },
{
    match semver::Version::parse(text) {
        Ok(v) => Some(
            Version {
                major: v.major,
                minor: v.minor,
                patch: v.patch,
                pre: v.pre.as_str().to_string(),
                build: v.build.as_str().to_string(),
            },
        ),
        Err(_) => None,
    }
}

/// `<` on `semver::Version` compares the three numbers, then the pre-releases, then
/// the build metadata.
#[verifier::external_body]
fn semver_less(a: &Version, b: &Version) -> (r: bool)
    requires
        a.wf(),
        b.wf(),
    ensures
        r == version_less(a@, b@),
{
    let mut x = semver::Version::new(a.major, a.minor, a.patch);
    x.pre = semver::Prerelease::new(a.pre.as_str()).unwrap();
    x.build = semver::BuildMetadata::new(a.build.as_str()).unwrap();
    let mut y = semver::Version::new(b.major, b.minor, b.patch);
    y.pre = semver::Prerelease::new(b.pre.as_str()).unwrap();
    y.build = semver::BuildMetadata::new(b.build.as_str()).unwrap();
    x < y
}

/// A release with the given numbers.
pub open spec fn release(major: u64, minor: u64, patch: u64) -> VersionView {
    VersionView { major, minor, patch, pre: seq![], build: seq![] }
}

impl Version {
    /// A release with the given numbers.
    pub fn new(major: u64, minor: u64, patch: u64) -> (r: Version)
        ensures
            r.wf(),
            r@ == release(major, minor, patch),
    {
        let r = Version { major, minor, patch, pre: String::new(), build: String::new() };
        assert(r@.pre =~= seq![]);
        assert(r@.build =~= seq![]);
        r
    }

    /// Reads a version.
    pub fn parse(text: &str) -> (r: Option<Version>)
        ensures
            match r {
                Some(v) => v.wf() && parsed_version(text@) == Some(v@),
                None => parsed_version(text@) is None,
            },
    {
        let r = semver_parse(text);
        proof {
            if r is Some {
                law_version_round_trip(r->0@);
            }
        }
        r
    }

    /// The text of the version.
    pub fn to_string(&self) -> (r: String)
        ensures
            r@ == version_text(self@),
    {
        let mut out = decimal_of(self.major);
        out.push('.');
        out.append(decimal_of(self.minor).as_str());
        out.push('.');
        out.append(decimal_of(self.patch).as_str());
        let ghost numbers = out@;
        assert(numbers =~= decimal(self.major as nat) + seq!['.'] + decimal(self.minor as nat)
            + seq!['.'] + decimal(self.patch as nat));
        let ghost pre = marked('-', self.pre@);
        if self.pre.as_str().unicode_len() > 0 {
            out.push('-');
            out.append(self.pre.as_str());
        }
        assert(out@ =~= numbers + pre);
        if self.build.as_str().unicode_len() > 0 {
            out.push('+');
            out.append(self.build.as_str());
        }
        assert(out@ =~= numbers + pre + marked('+', self.build@));
        out
    }

    /// Tells whether this version comes before another.
    pub fn precedes(&self, other: &Version) -> (r: bool)
        requires
            self.wf(),
            other.wf(),
        ensures
            r == version_less(self@, other@),
    {
        semver_less(self, other)
    }

    /// A copy of the version.
    pub fn duplicate(&self) -> (r: Version)
        ensures
            r@ == self@,
    {
        Version {
            major: self.major,
            minor: self.minor,
            patch: self.patch,
            pre: self.pre.clone(),
            build: self.build.clone(),
        }
    }
}

// ---------------------------------------------------------------------------
// Different versions have different texts
// ---------------------------------------------------------------------------

/// What a number and the character that ends it determine.
proof fn lemma_number_splits(m: nat, a: Seq<char>, n: nat, b: Seq<char>)
    requires
        decimal(m) + a == decimal(n) + b,
        a.len() == 0 || !is_digit(a[0]),
        b.len() == 0 || !is_digit(b[0]),
    ensures
        m == n,
        a == b,
{
    let s = decimal(m) + a;
    let t = decimal(n) + b;
    lemma_decimal(m);
    lemma_decimal(n);
    let i = decimal(m).len() as int;
    let j = decimal(n).len() as int;
    if i < j {
        assert(is_digit(decimal(n)[i]));
        assert(t[i] == decimal(n)[i]);
        assert(s.len() == t.len());
        assert(s[i] == a[0]);
    }
    if j < i {
        assert(is_digit(decimal(m)[j]));
        assert(s[j] == decimal(m)[j]);
        assert(t[j] == b[0]);
    }
    assert(decimal(m) =~= s.take(i));
    assert(decimal(n) =~= t.take(i));
    lemma_decimal_injective(m, n);
    assert(a =~= s.skip(i));
    assert(b =~= t.skip(i));
}

/// A list of fields holds no plus sign.
proof fn lemma_no_plus(s: Seq<char>, in_build: bool)
    requires
        is_field_list(s, in_build),
    ensures
        !s.contains('+'),
{
    if s.contains('+') {
        let k = s.index_of('+');
        lemma_split_covers(s, '.', k);
        let i = choose|i: int|
            0 <= i < split(s, '.').len() && (#[trigger] split(s, '.')[i]).contains('+');
        let field = split(s, '.')[i];
        assert(is_field(field, in_build));
        let m = field.index_of('+');
        assert(is_field_char(field[m]));
    }
}

/// Every character but the separator is in one of the pieces.
proof fn lemma_split_covers(s: Seq<char>, c: char, k: int)
    requires
        0 <= k < s.len(),
        s[k] != c,
    ensures
        exists|i: int| 0 <= i < split(s, c).len() && (#[trigger] split(s, c)[i]).contains(s[k]),
    decreases s.len(),
{
    lemma_before_bound(s, c);
    let n = before(s, c) as int;
    let pieces = split(s, c);
    if n >= s.len() {
        assert(pieces[0] == s);
        assert(pieces[0][k] == s[k]);
    } else if k < n {
        assert(pieces[0] == s.take(n));
        assert(pieces[0][k] == s[k]);
    } else {
        let rest = s.skip(n + 1);
        assert(rest[k - n - 1] == s[k]);
        lemma_split_covers(rest, c, k - n - 1);
        let i = choose|i: int|
            0 <= i < split(rest, c).len() && (#[trigger] split(rest, c)[i]).contains(s[k]);
        assert(pieces[i + 1] == split(rest, c)[i]);
    }
}

/// A list of fields is made of field characters and dots.
proof fn lemma_field_list_chars(s: Seq<char>, in_build: bool)
    requires
        is_field_list(s, in_build),
    ensures
        forall|k: int| 0 <= k < s.len() ==> #[trigger] s[k] == '.' || is_field_char(s[k]),
{
    assert forall|k: int| 0 <= k < s.len() implies #[trigger] s[k] == '.' || is_field_char(
        s[k],
    ) by {
        if s[k] != '.' {
            lemma_split_covers(s, '.', k);
            let i = choose|i: int|
                0 <= i < split(s, '.').len() && (#[trigger] split(s, '.')[i]).contains(s[k]);
            let field = split(s, '.')[i];
            assert(is_field(field, in_build));
            let m = field.index_of(s[k]);
            assert(is_field_char(field[m]));
        }
    }
}

/// What the text of a version is made of. A hyphen in it comes from the pre-release
/// or from the build metadata.
pub proof fn lemma_version_text_chars(v: VersionView)
    requires
        v.wf(),
    ensures
        version_text(v).len() > 0,
        is_digit(version_text(v)[0]),
        forall|k: int| 0 <= k < version_text(v).len() ==> !is_space(#[trigger] version_text(v)[k]),
        version_text(v).contains('-') <==> v.pre.len() > 0 || v.build.contains('-'),
{
    let s = version_text(v);
    let (x, y, z) = (decimal(v.major as nat), decimal(v.minor as nat), decimal(v.patch as nat));
    let (p, b) = (marked('-', v.pre), marked('+', v.build));
    lemma_decimal(v.major as nat);
    lemma_decimal(v.minor as nat);
    lemma_decimal(v.patch as nat);
    lemma_field_list_chars(v.pre, false);
    lemma_field_list_chars(v.build, true);
    let i1 = x.len() as int;
    let i2 = i1 + 1 + y.len();
    let i3 = i2 + 1 + z.len();
    let i4 = i3 + p.len();
    assert(is_digit(x[0]) && s[0] == x[0]);
    assert forall|k: int| 0 <= k < s.len() implies {
        &&& !is_space(#[trigger] s[k])
        &&& s[k] == '-' ==> v.pre.len() > 0 || v.build.contains('-')
    } by {
        if k < i1 {
            assert(s[k] == x[k] && is_digit(x[k]));
        } else if k == i1 {
            assert(s[k] == '.');
        } else if k < i2 {
            assert(s[k] == y[k - i1 - 1] && is_digit(y[k - i1 - 1]));
        } else if k == i2 {
            assert(s[k] == '.');
        } else if k < i3 {
            assert(s[k] == z[k - i2 - 1] && is_digit(z[k - i2 - 1]));
        } else if k < i4 {
            assert(s[k] == p[k - i3]);
            if k > i3 {
                assert(p[k - i3] == v.pre[k - i3 - 1]);
            }
        } else {
            assert(s[k] == b[k - i4]);
            if k > i4 {
                assert(b[k - i4] == v.build[k - i4 - 1]);
            }
        }
    }
    if v.pre.len() > 0 {
        assert(s[i3] == p[0]);
    }
    if v.build.contains('-') {
        let k = v.build.index_of('-');
        assert(s[i4 + 1 + k] == b[1 + k]);
    }
}

/// A number, a dot and what follows.
spec fn dotted(n: nat, rest: Seq<char>) -> Seq<char> {
    decimal(n) + (seq!['.'] + rest)
}

proof fn lemma_dotted_injective(m: nat, a: Seq<char>, n: nat, b: Seq<char>)
    requires
        dotted(m, a) == dotted(n, b),
    ensures
        m == n,
        a == b,
{
    let (x, y) = (seq!['.'] + a, seq!['.'] + b);
    lemma_number_splits(m, x, n, y);
    assert(a =~= x.skip(1));
    assert(b =~= y.skip(1));
}

/// Concatenation is associative.
proof fn lemma_concat(a: Seq<char>, b: Seq<char>, c: Seq<char>)
    ensures
        a + b + c == a + (b + c),
{
    assert(a + b + c =~= a + (b + c));
}

proof fn lemma_dotted(x: nat, y: nat, z: nat, p: Seq<char>)
    ensures
        decimal(x) + seq!['.'] + decimal(y) + seq!['.'] + decimal(z) + p == dotted(
            x,
            dotted(y, decimal(z) + p),
        ),
{
    let dot = seq!['.'];
    let (a, b, c) = (decimal(x), decimal(y), decimal(z));
    lemma_concat(a + dot + b + dot, c, p);
    lemma_concat(a + dot + b, dot, c + p);
    lemma_concat(a + dot, b, dot + (c + p));
    lemma_concat(a, dot, b + (dot + (c + p)));
}

/// What three numbers with dots between them determine.
proof fn lemma_numbers_split(
    a: (nat, nat, nat),
    p: Seq<char>,
    b: (nat, nat, nat),
    q: Seq<char>,
)
    requires
        decimal(a.0) + seq!['.'] + decimal(a.1) + seq!['.'] + decimal(a.2) + p == decimal(b.0)
            + seq!['.'] + decimal(b.1) + seq!['.'] + decimal(b.2) + q,
        p.len() == 0 || !is_digit(p[0]),
        q.len() == 0 || !is_digit(q[0]),
    ensures
        a == b,
        p == q,
{
    lemma_dotted(a.0, a.1, a.2, p);
    lemma_dotted(b.0, b.1, b.2, q);
    let (x, y) = (decimal(a.2) + p, decimal(b.2) + q);
    lemma_dotted_injective(a.0, dotted(a.1, x), b.0, dotted(b.1, y));
    lemma_dotted_injective(a.1, x, b.1, y);
    lemma_number_splits(a.2, p, b.2, q);
}

/// The numbers of a version.
spec fn numbers(v: VersionView) -> (nat, nat, nat) {
    (v.major as nat, v.minor as nat, v.patch as nat)
}

/// What follows the numbers of a version.
spec fn tail(v: VersionView) -> Seq<char> {
    marked('-', v.pre) + marked('+', v.build)
}

proof fn lemma_text_parts(v: VersionView)
    ensures
        ({
            let n = numbers(v);
            version_text(v) == decimal(n.0) + seq!['.'] + decimal(n.1) + seq!['.'] + decimal(n.2)
                + tail(v)
        }),
        tail(v).len() == 0 || !is_digit(tail(v)[0]),
{
    let n = numbers(v);
    let head = decimal(n.0) + seq!['.'] + decimal(n.1) + seq!['.'] + decimal(n.2);
    lemma_concat(head, marked('-', v.pre), marked('+', v.build));
}

/// Different versions have different texts.
pub proof fn lemma_version_text_injective(v: VersionView, w: VersionView)
    requires
        v.wf(),
        w.wf(),
        version_text(v) == version_text(w),
    ensures
        v == w,
{
    lemma_text_parts(v);
    lemma_text_parts(w);
    lemma_numbers_split(numbers(v), tail(v), numbers(w), tail(w));
    lemma_no_plus(v.pre, false);
    lemma_no_plus(w.pre, false);
    lemma_marks(v.pre, v.build);
    lemma_marks(w.pre, w.build);
    lemma_marked_injective('-', v.pre, w.pre);
    lemma_marked_injective('+', v.build, w.build);
}

proof fn lemma_marks(pre: Seq<char>, build: Seq<char>)
    requires
        !pre.contains('+'),
    ensures
        ({
            let p = marked('-', pre) + marked('+', build);
            &&& marked('-', pre) == p.take(before(p, '+') as int)
            &&& marked('+', build) == p.skip(before(p, '+') as int)
        }),
{
    let m = marked('-', pre);
    let p = m + marked('+', build);
    let k = m.len() as int;
    assert forall|j: int| 0 <= j < k implies p[j] != '+' by {
        if j > 0 {
            assert(p[j] == pre[j - 1]);
        }
    }
    if k < p.len() {
        assert(p[k] == '+');
    }
    lemma_before(p, '+', k);
    assert(p.take(k) =~= m);
    assert(p.skip(k) =~= marked('+', build));
}

proof fn lemma_marked_injective(c: char, a: Seq<char>, b: Seq<char>)
    requires
        marked(c, a) == marked(c, b),
    ensures
        a == b,
{
    if a.len() == 0 {
        assert(b =~= a);
    } else {
        assert(marked(c, a).skip(1) =~= a);
        assert(marked(c, b).skip(1) =~= b);
    }
}

/// Reading the text of a version gives the version back.
pub proof fn law_version_round_trip(v: VersionView)
    requires
        v.wf(),
    ensures
        parsed_version(version_text(v)) == Some(v),
{
    let s = version_text(v);
    let w = choose|w: VersionView| w.wf() && #[trigger] version_text(w) == s;
    lemma_version_text_injective(v, w);
}

// ---------------------------------------------------------------------------
// The order of versions is a strict total order
// ---------------------------------------------------------------------------

proof fn lemma_field_less_total(a: Seq<char>, b: Seq<char>, in_build: bool)
    ensures
        field_less(a, b, in_build) ==> !field_less(b, a, in_build) && a != b,
        a != b ==> field_less(a, b, in_build) || field_less(b, a, in_build),
{
    let x = if in_build { trim_start_matches(a, '0') } else { a };
    let y = if in_build { trim_start_matches(b, '0') } else { b };
    lemma_text_less_total(a, b);
    lemma_text_less_total(b, a);
    lemma_text_less_total(x, y);
    lemma_text_less_total(y, x);
    lemma_trim_start_matches(a, '0');
    lemma_trim_start_matches(b, '0');
    if x == y && a.len() == b.len() {
        let k = a.len() - x.len();
        assert forall|i: int| 0 <= i < a.len() implies a[i] == b[i] by {
            if i >= k {
                assert(a[i] == a.skip(k)[i - k]);
                assert(b[i] == b.skip(k)[i - k]);
            }
        }
        assert(a =~= b);
    }
}

proof fn lemma_field_less_transitive(a: Seq<char>, b: Seq<char>, c: Seq<char>, in_build: bool)
    requires
        field_less(a, b, in_build),
        field_less(b, c, in_build),
    ensures
        field_less(a, c, in_build),
{
    let x = if in_build { trim_start_matches(a, '0') } else { a };
    let y = if in_build { trim_start_matches(b, '0') } else { b };
    let z = if in_build { trim_start_matches(c, '0') } else { c };
    if all_digits(a) && all_digits(b) && all_digits(c) {
        if text_less(x, y) && text_less(y, z) {
            lemma_text_less_transitive(x, y, z);
        }
    } else if !all_digits(a) && !all_digits(b) && !all_digits(c) {
        lemma_text_less_transitive(a, b, c);
    }
}

proof fn lemma_fields_less_total(a: Seq<Seq<char>>, b: Seq<Seq<char>>, in_build: bool)
    ensures
        fields_less(a, b, in_build) ==> !fields_less(b, a, in_build) && a != b,
        a != b ==> fields_less(a, b, in_build) || fields_less(b, a, in_build),
    decreases a.len(),
{
    if a.len() > 0 && b.len() > 0 {
        if a[0] == b[0] {
            lemma_fields_less_total(a.skip(1), b.skip(1), in_build);
            if a.skip(1) == b.skip(1) {
                assert(a =~= seq![a[0]] + a.skip(1));
                assert(b =~= seq![b[0]] + b.skip(1));
            }
        } else {
            lemma_field_less_total(a[0], b[0], in_build);
        }
    } else if a.len() == 0 && b.len() == 0 {
        assert(a =~= b);
    }
}

proof fn lemma_fields_less_transitive(
    a: Seq<Seq<char>>,
    b: Seq<Seq<char>>,
    c: Seq<Seq<char>>,
    in_build: bool,
)
    requires
        fields_less(a, b, in_build),
        fields_less(b, c, in_build),
    ensures
        fields_less(a, c, in_build),
    decreases a.len(),
{
    if a.len() > 0 {
        if a[0] == b[0] && b[0] == c[0] {
            lemma_fields_less_transitive(a.skip(1), b.skip(1), c.skip(1), in_build);
        } else if a[0] != b[0] && b[0] != c[0] {
            lemma_field_less_transitive(a[0], b[0], c[0], in_build);
            lemma_field_less_total(a[0], c[0], in_build);
        }
    }
}

proof fn lemma_split_injective(a: Seq<char>, b: Seq<char>, c: char)
    requires
        split(a, c) == split(b, c),
    ensures
        a == b,
    decreases a.len(),
{
    lemma_before_bound(a, c);
    lemma_before_bound(b, c);
    let i = before(a, c) as int;
    let j = before(b, c) as int;
    let (s, t) = (split(a, c), split(b, c));
    if i < a.len() {
        assert(split(a.skip(i + 1), c).len() > 0);
    }
    if j < b.len() {
        assert(split(b.skip(j + 1), c).len() > 0);
    }
    if i >= a.len() {
        assert(s[0] == a && t[0] == b);
    } else {
        assert(s[0] == a.take(i) && t[0] == b.take(j));
        assert(s.skip(1) =~= split(a.skip(i + 1), c));
        assert(t.skip(1) =~= split(b.skip(j + 1), c));
        lemma_split_injective(a.skip(i + 1), b.skip(j + 1), c);
        assert(a =~= a.take(i) + seq![c] + a.skip(i + 1));
        assert(b =~= b.take(j) + seq![c] + b.skip(j + 1));
    }
}

proof fn lemma_pre_less_total(a: Seq<char>, b: Seq<char>)
    ensures
        pre_less(a, b) && a != b ==> !pre_less(b, a),
        a != b ==> pre_less(a, b) || pre_less(b, a),
{
    if a.len() > 0 && b.len() > 0 {
        lemma_fields_less_total(split(a, '.'), split(b, '.'), false);
        if split(a, '.') == split(b, '.') {
            lemma_split_injective(a, b, '.');
        }
    } else if a.len() == 0 && b.len() == 0 {
        assert(a =~= b);
    }
}

proof fn lemma_build_less_total(a: Seq<char>, b: Seq<char>)
    ensures
        build_less(a, b) ==> !build_less(b, a) && a != b,
        a != b ==> build_less(a, b) || build_less(b, a),
{
    lemma_fields_less_total(split(a, '.'), split(b, '.'), true);
    if split(a, '.') == split(b, '.') {
        lemma_split_injective(a, b, '.');
    }
}

/// Of two different versions exactly one comes before the other, and none comes
/// before itself.
pub proof fn law_version_order_is_total(a: VersionView, b: VersionView)
    ensures
        version_less(a, b) ==> !version_less(b, a) && a != b,
        a != b ==> version_less(a, b) || version_less(b, a),
{
    lemma_pre_less_total(a.pre, b.pre);
    lemma_build_less_total(a.build, b.build);
}

/// The order of versions is transitive.
pub proof fn law_version_order_is_transitive(a: VersionView, b: VersionView, c: VersionView)
    requires
        version_less(a, b),
        version_less(b, c),
    ensures
        version_less(a, c),
{
    let numbers = |v: VersionView| (v.major, v.minor, v.patch);
    if numbers(a) == numbers(b) && numbers(b) == numbers(c) {
        if a.pre != b.pre && b.pre != c.pre {
            if a.pre.len() > 0 && b.pre.len() > 0 && c.pre.len() > 0 {
                lemma_fields_less_transitive(
                    split(a.pre, '.'),
                    split(b.pre, '.'),
                    split(c.pre, '.'),
                    false,
                );
            }
            lemma_pre_less_total(a.pre, b.pre);
            lemma_pre_less_total(b.pre, a.pre);
        } else if a.pre == b.pre && b.pre == c.pre {
            lemma_fields_less_transitive(
                split(a.build, '.'),
                split(b.build, '.'),
                split(c.build, '.'),
                true,
            );
        }
    }
}

/// Versions are ordered by their numbers, the first that differs deciding; with the same
/// numbers a pre-release comes before the release.
pub proof fn law_version_numbers_decide(a: VersionView, b: VersionView)
    ensures
        a.major < b.major ==> version_less(a, b),
        a.major == b.major && a.minor < b.minor ==> version_less(a, b),
        a.major == b.major && a.minor == b.minor && a.patch < b.patch ==> version_less(a, b),
        a.major == b.major && a.minor == b.minor && a.patch == b.patch && a.pre.len() > 0
            && b.pre.len() == 0 ==> version_less(a, b),
        version_less(a, b) ==> a.major < b.major || a.major == b.major && (a.minor < b.minor
            || a.minor == b.minor && a.patch <= b.patch),
{
}

/// The text of a version is its three numbers with dots between them, the pre-release after
/// a hyphen and the build metadata after a plus sign, where there are any.
pub proof fn law_version_text(v: VersionView)
    ensures
        ({
            let numbers = decimal(v.major as nat) + seq!['.'] + decimal(v.minor as nat) + seq!['.']
                + decimal(v.patch as nat);
            &&& v.pre.len() == 0 && v.build.len() == 0 ==> version_text(v) == numbers
            &&& v.pre.len() > 0 && v.build.len() == 0 ==> version_text(v) == numbers + seq!['-']
                + v.pre
            &&& v.pre.len() == 0 && v.build.len() > 0 ==> version_text(v) == numbers + seq!['+']
                + v.build
            &&& v.pre.len() > 0 && v.build.len() > 0 ==> version_text(v) == numbers + seq!['-']
                + v.pre + seq!['+'] + v.build
        }),
        forall|major: u64, minor: u64, patch: u64|
            {
                let r = #[trigger] release(major, minor, patch);
                &&& r.major == major && r.minor == minor && r.patch == patch
                &&& r.pre.len() == 0 && r.build.len() == 0
            },
{
    let numbers = decimal(v.major as nat) + seq!['.'] + decimal(v.minor as nat) + seq!['.']
        + decimal(v.patch as nat);
    let none = Seq::<char>::empty();
    assert(marked('-', none) =~= none && marked('+', none) =~= none);
    if v.pre.len() == 0 {
        assert(v.pre =~= none);
        assert(numbers + none =~= numbers);
    } else {
        assert(numbers + (seq!['-'] + v.pre) =~= numbers + seq!['-'] + v.pre);
    }
    let head = numbers + marked('-', v.pre);
    if v.build.len() == 0 {
        assert(v.build =~= none);
        assert(head + none =~= head);
    } else {
        assert(head + (seq!['+'] + v.build) =~= head + seq!['+'] + v.build);
    }
}

/// The contents of versions are all of their parts, for each of them in its place.
pub proof fn law_version_contents(v: Seq<Version>, i: int)
    requires
        0 <= i < v.len(),
    ensures
        version_views(v).len() == v.len(),
        version_views(v)[i].major == v[i].major,
        version_views(v)[i].minor == v[i].minor,
        version_views(v)[i].patch == v[i].patch,
        version_views(v)[i].pre == v[i].pre@,
        version_views(v)[i].build == v[i].build@,
{
}

}
