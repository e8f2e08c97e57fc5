//! Which version an upgrade comes from and goes to.

use vstd::prelude::*;
use vstd::string::*;
use crate::error::{ErrorView, MigrateError};
use crate::number::{decimal, is_digits, law_decimal, lemma_decimal};
use crate::pattern::{
    captures, group_texts, last_dashes, regex_accepts, upgrade_pattern,
    upgrade_target, UPGRADE_TAIL,
};
use crate::semantic::{
    law_version_order_is_total, law_version_order_is_transitive, law_version_round_trip,
    law_version_text, lemma_version_text_chars, marked, parsed_version, release, version_less,
    version_text, version_views, Version, VersionView,
};
use crate::text::{
    before, chars_of, is_digit, is_space, join, law_join_undoes_split, law_split_at_separator,
    law_split_undoes_join, law_trim, lemma_before, lemma_before_bound, lemma_trim, occurs_at,
    split, split_chars, texts, trim, trim_bounds,
};

verus! {

/// The contents of a text that may be missing.
pub open spec fn optional_str(s: Option<&str>) -> Option<Seq<char>> {
    match s {
        Some(t) => Some(t@),
        None => None,
    }
}

/// The contents of a version that may be missing.
pub open spec fn optional_version(v: Option<&Version>) -> Option<VersionView> {
    match v {
        Some(w) => Some(w@),
        None => None,
    }
}

// ---------------------------------------------------------------------------
// Versions in text
// ---------------------------------------------------------------------------

/// `ver` without a leading `v`.
pub open spec fn without_v(ver: Seq<char>) -> Seq<char> {
    if ver.len() > 0 && ver[0] == 'v' {
        ver.skip(1)
    } else {
        ver
    }
}

/// The version in `ver`, without white space around, a leading `v`, and what
/// follows the first hyphen.
pub open spec fn clean_version(ver: Seq<char>) -> Seq<char> {
    let bare = without_v(trim(ver));
    bare.take(before(bare, '-') as int)
}

/// Cuts a version down to its numbers.
pub fn clean_version_string(ver: &str) -> (r: &str)
    ensures
        r@ == clean_version(ver@),
{
    let chars = chars_of(ver);
    let (from, to) = trim_bounds(&chars);
    let ghost inner = trim(ver@);
    let start: usize = if from < to && chars[from] == 'v' {
        from + 1
    } else {
        from
    };
    let ghost bare = without_v(inner);
    proof {
        if from < to {
            assert(inner[0] == chars@[from as int]);
        }
        assert(bare =~= ver@.subrange(start as int, to as int));
    }
    let mut end: usize = start;
    while end < to && chars[end] != '-'
        invariant
            start <= end <= to <= chars@.len(),
            forall|k: int| start <= k < end ==> chars@[k] != '-',
        decreases to - end,
    {
        end += 1;
    }
    proof {
        assert forall|k: int| 0 <= k < end - start implies bare[k] != '-' by {
            assert(bare[k] == chars@[k + start]);
        }
        if end < to {
            assert(bare[end - start] == chars@[end as int]);
        }
        lemma_before(bare, '-', end - start);
        assert(bare.take(end - start) =~= ver@.subrange(start as int, end as int));
    }
    ver.substring_char(start, end)
}

/// The version that `ver` means once it is cut down; a missing minor or patch number
/// is zero.
pub open spec fn lossy_version(ver: Seq<char>) -> Option<VersionView> {
    let cleaned = clean_version(ver);
    let parts = split(cleaned, '.').len();
    if parsed_version(cleaned) is Some {
        parsed_version(cleaned)
    } else if parts == 2 {
        parsed_version(cleaned + ".0"@)
    } else if parts == 1 {
        parsed_version(cleaned + ".0.0"@)
    } else {
        None
    }
}

/// Reads a version, and makes up for missing numbers.
pub fn parse_version_lossy(ver: &str) -> (r: Option<Version>)
    ensures
        match r {
            Some(v) => v.wf() && lossy_version(ver@) == Some(v@),
            None => lossy_version(ver@) is None,
        },
{
    let cleaned = clean_version_string(ver);
    if let Some(v) = Version::parse(cleaned) {
        return Some(v);
    }
    let parts = split_chars(&chars_of(cleaned), '.');
    assert(parts@.len() == split(cleaned@, '.').len());
    let mut full = cleaned.to_owned();
    if parts.len() == 2 {
        full.append(".0");
        Version::parse(full.as_str())
    } else if parts.len() == 1 {
        full.append(".0.0");
        Version::parse(full.as_str())
    } else {
        None
    }
}

// ---------------------------------------------------------------------------
// Versions that upgrade scripts lead to
// ---------------------------------------------------------------------------

/// The version that an upgrade script leads to, by its name. The name of an extension has
/// at most 63 characters; of a longer one the pattern may be too large.
pub open spec fn script_version(extname: Seq<char>, name: Seq<char>) -> Option<VersionView> {
    if extname.len() <= 63 || regex_accepts(upgrade_pattern(extname)) {
        match upgrade_target(extname, name) {
            Some(target) => lossy_version(target),
            None => None,
        }
    } else {
        None
    }
}

/// Whether one of the files leads to `v`.
pub open spec fn is_existing(
    names: Seq<Seq<char>>,
    extname: Seq<char>,
    v: VersionView,
) -> bool {
    exists|i: int| 0 <= i < names.len() && script_version(extname, #[trigger] names[i]) == Some(v)
}

/// Whether each version comes before the following ones.
pub open spec fn is_ascending(vs: Seq<VersionView>) -> bool {
    forall|i: int, j: int|
        0 <= i < j < vs.len() ==> version_less(#[trigger] vs[i], #[trigger] vs[j])
}

/// The pattern of the names of an extension's upgrade scripts.
fn upgrade_pattern_of(extname: &str) -> (r: String)
    ensures
        r@ == upgrade_pattern(extname@),
{
    let mut out = "^".to_owned();
    out.append(regex::escape(extname).as_str());
    out.append(UPGRADE_TAIL);
    out
}

/// The version that a script leads to.
fn script_target(pattern: &str, name: &str, extname: Ghost<Seq<char>>) -> (r: Option<Version>)
    requires
        pattern@ == upgrade_pattern(extname@),
    ensures
        match r {
            Some(v) => v.wf() && script_version(extname@, name@) == Some(v@),
            None => script_version(extname@, name@) is None,
        },
        extname@.len() <= 63 ==> regex_accepts(upgrade_pattern(extname@)),
{
    let found = captures(pattern, name);
    assert(upgrade_pattern(extname@) == pattern@);
    match found {
        Some(Some(groups)) => {
            let ghost captured = group_texts(groups@);
            assert(captured.len() == 2);
            match &groups[1] {
                Some(target) => {
                    assert(captured[1] == Some(target@));
                    parse_version_lossy(target.as_str())
                },
                None => {
                    assert(captured[1] is None);
                    None
                },
            }
        },
        _ => None,
    }
}

/// Puts a version in its place, unless it is there already.
fn insert_version(targets: &mut Vec<Version>, v: Version)
    requires
        v.wf(),
        is_ascending(version_views(old(targets)@)),
        forall|i: int| 0 <= i < old(targets)@.len() ==> (#[trigger] old(targets)@[i]).wf(),
    ensures
        is_ascending(version_views(final(targets)@)),
        forall|i: int| 0 <= i < final(targets)@.len() ==> (#[trigger] final(targets)@[i]).wf(),
        forall|w: VersionView| #[trigger]
            version_views(final(targets)@).contains(w) <==> w == v@ || version_views(
                old(targets)@,
            ).contains(w),
{
    let ghost before = version_views(targets@);
    let mut i: usize = 0;
    while i < targets.len() && targets[i].precedes(&v)
        invariant
            i <= targets@.len(),
            v.wf(),
            targets@ == old(targets)@,
            before == version_views(targets@),
            forall|j: int| 0 <= j < targets@.len() ==> (#[trigger] targets@[j]).wf(),
            forall|j: int| 0 <= j < i ==> version_less(#[trigger] before[j], v@),
        decreases targets@.len() - i,
    {
        i += 1;
    }
    if i < targets.len() && !v.precedes(&targets[i]) {
        proof {
            law_version_order_is_total(before[i as int], v@);
            assert(before[i as int] == v@);
        }
        return;
    }
    let ghost held = v@;
    targets.insert(i, v);
    proof {
        let after = version_views(targets@);
        assert(after =~= before.insert(i as int, held));
        if i < before.len() {
            assert(version_less(held, before[i as int]));
        }
        assert forall|a: int, b: int| 0 <= a < b < after.len() implies version_less(
            #[trigger] after[a],
            #[trigger] after[b],
        ) by {
            let pa = if a < i { a } else { a - 1 };
            let pb = if b < i { b } else { b - 1 };
            if a == i {
                assert(after[b] == before[pb]);
                if pb != i {
                    assert(version_less(before[i as int], before[pb]));
                    law_version_order_is_transitive(held, before[i as int], before[pb]);
                }
            } else if b == i {
                assert(after[a] == before[pa]);
            } else {
                assert(after[a] == before[pa] && after[b] == before[pb]);
            }
        }
        assert forall|w: VersionView| #[trigger] after.contains(w) <==> w == held
            || before.contains(w) by {
            if w == held {
                assert(after[i as int] == w);
            }
            if before.contains(w) {
                let k = before.index_of(w);
                if k < i {
                    assert(after[k] == w);
                } else {
                    assert(after[k + 1] == w);
                }
            }
            if after.contains(w) {
                let k = after.index_of(w);
                if k < i {
                    assert(before[k] == w);
                } else if k > i {
                    assert(before[k - 1] == w);
                }
            }
        }
        assert forall|k: int| 0 <= k < targets@.len() implies (#[trigger] targets@[k]).wf() by {
            if k < i {
                assert(targets@[k] == old(targets)@[k]);
            } else if k > i {
                assert(targets@[k] == old(targets)@[k - 1]);
            }
        }
    }
}

/// The versions that upgrade scripts lead to, in ascending order and each one once.
pub fn get_existing_sql_targets(file_names: &Vec<String>, extname: &str) -> (r: Vec<Version>)
    ensures
        forall|i: int| 0 <= i < r@.len() ==> (#[trigger] r@[i]).wf(),
        is_ascending(version_views(r@)),
        forall|v: VersionView| #[trigger]
            version_views(r@).contains(v) <==> is_existing(texts(file_names@), extname@, v),
        file_names@.len() > 0 && extname@.len() <= 63 ==> regex_accepts(upgrade_pattern(extname@)),
{
    let pattern = upgrade_pattern_of(extname);
    let ghost names = texts(file_names@);
    let mut targets: Vec<Version> = Vec::new();
    let mut i: usize = 0;
    while i < file_names.len()
        invariant
            i <= file_names@.len(),
            names == texts(file_names@),
            pattern@ == upgrade_pattern(extname@),
            forall|k: int| 0 <= k < targets@.len() ==> (#[trigger] targets@[k]).wf(),
            is_ascending(version_views(targets@)),
            forall|v: VersionView| #[trigger]
                version_views(targets@).contains(v) <==> is_existing(
                    names.take(i as int),
                    extname@,
                    v,
                ),
            i > 0 && extname@.len() <= 63 ==> regex_accepts(upgrade_pattern(extname@)),
        decreases file_names@.len() - i,
    {
        let ghost earlier = version_views(targets@);
        let found = script_target(pattern.as_str(), file_names[i].as_str(), Ghost(extname@));
        let ghost version = script_version(extname@, names[i as int]);
        if let Some(v) = found {
            insert_version(&mut targets, v);
        }
        proof {
            let (some, more) = (names.take(i as int), names.take(i + 1));
            assert forall|v: VersionView| #[trigger]
                version_views(targets@).contains(v) <==> is_existing(more, extname@, v) by {
                if is_existing(some, extname@, v) {
                    let k = choose|k: int|
                        0 <= k < some.len() && script_version(extname@, #[trigger] some[k]) == Some(
                            v,
                        );
                    assert(more[k] == some[k]);
                }
                if version == Some(v) {
                    assert(more[i as int] == names[i as int]);
                }
                if is_existing(more, extname@, v) && version != Some(v) {
                    let k = choose|k: int|
                        0 <= k < more.len() && script_version(extname@, #[trigger] more[k]) == Some(
                            v,
                        );
                    assert(some[k] == more[k]);
                }
                assert(earlier.contains(v) <==> is_existing(some, extname@, v));
            }
        }
        i += 1;
    }
    assert(names.take(i as int) =~= names);
    targets
}

// ---------------------------------------------------------------------------
// Resolution
// ---------------------------------------------------------------------------

/// Whether `v` is the latest version that a script leads to.
pub open spec fn is_latest(names: Seq<Seq<char>>, extname: Seq<char>, v: VersionView) -> bool {
    &&& is_existing(names, extname, v)
    &&& forall|w: VersionView| #[trigger]
        is_existing(names, extname, w) && w != v ==> version_less(w, v)
}

/// The latest version that a script leads to.
pub open spec fn latest_version(names: Seq<Seq<char>>, extname: Seq<char>) -> Option<VersionView> {
    if exists|v: VersionView| is_latest(names, extname, v) {
        Some(choose|v: VersionView| is_latest(names, extname, v))
    } else {
        None
    }
}

/// Whether `v` is the latest version before `target` that a script leads to.
pub open spec fn is_latest_before(
    names: Seq<Seq<char>>,
    extname: Seq<char>,
    target: VersionView,
    v: VersionView,
) -> bool {
    &&& is_existing(names, extname, v)
    &&& version_less(v, target)
    &&& forall|w: VersionView| #[trigger]
        is_existing(names, extname, w) && version_less(w, target) && w != v ==> version_less(w, v)
}

/// The latest version before `target` that a script leads to.
pub open spec fn latest_before(
    names: Seq<Seq<char>>,
    extname: Seq<char>,
    target: VersionView,
) -> Option<VersionView> {
    if exists|v: VersionView| is_latest_before(names, extname, target, v) {
        Some(choose|v: VersionView| is_latest_before(names, extname, target, v))
    } else {
        None
    }
}

/// The version to upgrade from: the given one, or the latest released one before the
/// target, or that of the package.
pub open spec fn prev_version(
    names: Seq<Seq<char>>,
    extname: Seq<char>,
    target: VersionView,
    explicit_prev: Option<Seq<char>>,
    manifest_version: Option<Seq<char>>,
) -> Option<Seq<char>> {
    match (explicit_prev, latest_before(names, extname, target), manifest_version) {
        (Some(prev), _, _) => Some(clean_version(prev)),
        (None, Some(v), _) => Some(version_text(v)),
        (None, None, Some(manifest)) => {
            let cleaned = clean_version(manifest);
            match lossy_version(cleaned) {
                Some(v) => if version_less(v, target) {
                    Some(version_text(v))
                } else {
                    Some(cleaned)
                },
                None => Some(cleaned),
            }
        },
        (None, None, None) => None,
    }
}

/// The version to upgrade to where none is given: that of the package, if it is
/// later than `prev`, or else the next patch.
pub open spec fn ephemeral_version(prev: VersionView, manifest: Option<VersionView>) -> VersionView {
    match manifest {
        Some(m) => if version_less(prev, m) {
            m
        } else {
            release(prev.major, prev.minor, (prev.patch + 1) as u64)
        },
        None => release(prev.major, prev.minor, (prev.patch + 1) as u64),
    }
}

/// Whether the version after `prev` has a patch number that fits.
pub open spec fn has_ephemeral_version(prev: VersionView, manifest: Option<VersionView>) -> bool {
    ||| prev.patch < u64::MAX
    ||| manifest matches Some(m) && version_less(prev, m)
}

/// The version of the package.
pub open spec fn manifest_parsed(manifest_version: Option<Seq<char>>) -> Option<VersionView> {
    match manifest_version {
        Some(m) => lossy_version(clean_version(m)),
        None => None,
    }
}

/// The version to upgrade to: the given one, or the one after the latest release, or
/// that of the package.
pub open spec fn target_version(
    names: Seq<Seq<char>>,
    extname: Seq<char>,
    explicit_target: Option<Seq<char>>,
    manifest_version: Option<Seq<char>>,
) -> Option<Seq<char>> {
    match (explicit_target, latest_version(names, extname), manifest_version) {
        (Some(target), _, _) => Some(clean_version(target)),
        (None, Some(latest), _) => Some(
            version_text(ephemeral_version(latest, manifest_parsed(manifest_version))),
        ),
        (None, None, Some(manifest)) => Some(clean_version(manifest)),
        (None, None, None) => None,
    }
}

/// Whether the target version can be told: where it is the next patch after the
/// latest release, that patch number fits.
pub open spec fn has_target_version(
    names: Seq<Seq<char>>,
    extname: Seq<char>,
    explicit_target: Option<Seq<char>>,
    manifest_version: Option<Seq<char>>,
) -> bool {
    ||| explicit_target is Some
    ||| latest_version(names, extname) matches Some(latest) ==> has_ephemeral_version(
        latest,
        manifest_parsed(manifest_version),
    )
}

/// In an ascending list of the existing versions, the last one is the latest.
proof fn lemma_latest(names: Seq<Seq<char>>, extname: Seq<char>, vs: Seq<VersionView>)
    requires
        is_ascending(vs),
        forall|v: VersionView| #[trigger] vs.contains(v) <==> is_existing(names, extname, v),
    ensures
        vs.len() == 0 ==> latest_version(names, extname) is None,
        vs.len() > 0 ==> latest_version(names, extname) == Some(vs.last()),
{
    if vs.len() > 0 {
        let last = vs.last();
        assert(vs.contains(last));
        assert(is_latest(names, extname, last)) by {
            assert forall|w: VersionView| #[trigger]
                is_existing(names, extname, w) && w != last implies version_less(w, last) by {
                assert(vs.contains(w));
                let k = vs.index_of(w);
                assert(version_less(vs[k], vs[vs.len() - 1]));
            }
        }
        let v = choose|v: VersionView| is_latest(names, extname, v);
        if v != last {
            assert(version_less(v, last) && version_less(last, v));
            law_version_order_is_total(v, last);
        }
    } else {
        assert forall|v: VersionView| !is_latest(names, extname, v) by {
            assert(!vs.contains(v));
        }
    }
}

/// In an ascending list of the existing versions, the last of those before the target
/// is the latest of them.
proof fn lemma_latest_before(
    names: Seq<Seq<char>>,
    extname: Seq<char>,
    target: VersionView,
    vs: Seq<VersionView>,
    best: Option<int>,
)
    requires
        is_ascending(vs),
        forall|v: VersionView| #[trigger] vs.contains(v) <==> is_existing(names, extname, v),
        match best {
            Some(b) => 0 <= b < vs.len() && version_less(vs[b], target) && forall|k: int|
                b < k < vs.len() ==> !version_less(#[trigger] vs[k], target),
            None => forall|k: int| 0 <= k < vs.len() ==> !version_less(#[trigger] vs[k], target),
        },
    ensures
        latest_before(names, extname, target) == match best {
            Some(b) => Some(vs[b]),
            None => None,
        },
{
    match best {
        Some(b) => {
            let top = vs[b];
            assert(vs.contains(top));
            assert(is_latest_before(names, extname, target, top)) by {
                assert forall|w: VersionView| #[trigger]
                    is_existing(names, extname, w) && version_less(w, target) && w
                        != top implies version_less(w, top) by {
                    assert(vs.contains(w));
                    let k = vs.index_of(w);
                    assert(vs[k] == w);
                    assert(k < b);
                }
            }
            let v = choose|v: VersionView| is_latest_before(names, extname, target, v);
            if v != top {
                assert(version_less(v, top) && version_less(top, v));
                law_version_order_is_total(v, top);
            }
        },
        None => {
            assert forall|v: VersionView| !is_latest_before(names, extname, target, v) by {
                if vs.contains(v) {
                    let k = vs.index_of(v);
                    assert(vs[k] == v);
                }
            }
        },
    }
}

/// Tells which version an upgrade to `target_version` comes from.
pub fn resolve_prev_version(
    file_names: &Vec<String>,
    extname: &str,
    target_version: &Version,
    explicit_prev: Option<&str>,
    manifest_version: Option<&str>,
) -> (r: Result<String, MigrateError>)
    requires
        target_version.wf(),
    ensures
        match (
            prev_version(
                texts(file_names@),
                extname@,
                target_version@,
                optional_str(explicit_prev),
                optional_str(manifest_version),
            ),
            r,
        ) {
            (Some(prev), Ok(s)) => s@ == prev,
            (None, Err(e)) => e@ == (ErrorView::NoPreviousVersion {
                target: version_text(target_version@),
            }),
            _ => false,
        },
{
    if let Some(prev) = explicit_prev {
        return Ok(clean_version_string(prev).to_owned());
    }
    let targets = get_existing_sql_targets(file_names, extname);
    let ghost vs = version_views(targets@);
    let mut best: Option<usize> = None;
    let mut i: usize = 0;
    while i < targets.len()
        invariant
            i <= targets@.len(),
            vs == version_views(targets@),
            target_version.wf(),
            forall|k: int| 0 <= k < targets@.len() ==> (#[trigger] targets@[k]).wf(),
            match best {
                Some(b) => b < i && version_less(vs[b as int], target_version@) && forall|k: int|
                    b < k < i ==> !version_less(#[trigger] vs[k], target_version@),
                None => forall|k: int|
                    0 <= k < i ==> !version_less(#[trigger] vs[k], target_version@),
            },
        decreases targets@.len() - i,
    {
        if targets[i].precedes(target_version) {
            best = Some(i);
        }
        i += 1;
    }
    proof {
        let top = match best {
            Some(b) => Some(b as int),
            None => None,
        };
        lemma_latest_before(texts(file_names@), extname@, target_version@, vs, top);
    }
    if let Some(b) = best {
        return Ok(targets[b].to_string());
    }
    if let Some(manifest) = manifest_version {
        let cleaned = clean_version_string(manifest);
        if let Some(v) = parse_version_lossy(cleaned) {
            if v.precedes(target_version) {
                return Ok(v.to_string());
            }
        }
        return Ok(cleaned.to_owned());
    }
    Err(MigrateError::NoPreviousVersion { target: target_version.to_string() })
}

/// The version of the package, or else the next patch after `prev_version`.
pub fn derive_ephemeral_target_version(
    prev_version: &Version,
    manifest_version: Option<&Version>,
) -> (r: Version)
    requires
        prev_version.wf(),
        manifest_version matches Some(m) ==> m.wf(),
        has_ephemeral_version(prev_version@, optional_version(manifest_version)),
    ensures
        r.wf(),
        r@ == ephemeral_version(prev_version@, optional_version(manifest_version)),
{
    if let Some(m) = manifest_version {
        if prev_version.precedes(m) {
            return m.duplicate();
        }
    }
    Version::new(prev_version.major, prev_version.minor, prev_version.patch + 1)
}

/// Reads the version of the package.
pub fn parse_manifest_version(manifest_version: Option<&str>) -> (r: Option<Version>)
    ensures
        match r {
            Some(v) => v.wf() && manifest_parsed(optional_str(manifest_version)) == Some(v@),
            None => manifest_parsed(optional_str(manifest_version)) is None,
        },
{
    match manifest_version {
        Some(m) => parse_version_lossy(clean_version_string(m)),
        None => None,
    }
}

/// The latest version that an upgrade script leads to.
pub fn latest_sql_target(file_names: &Vec<String>, extname: &str) -> (r: Option<Version>)
    ensures
        match r {
            Some(v) => v.wf() && latest_version(texts(file_names@), extname@) == Some(v@),
            None => latest_version(texts(file_names@), extname@) is None,
        },
{
    let mut targets = get_existing_sql_targets(file_names, extname);
    proof {
        lemma_latest(texts(file_names@), extname@, version_views(targets@));
    }
    targets.pop()
}

/// Tells which version an upgrade goes to.
pub fn resolve_target_version(
    file_names: &Vec<String>,
    extname: &str,
    explicit_target: Option<&str>,
    manifest_version: Option<&str>,
) -> (r: Result<String, MigrateError>)
    requires
        has_target_version(
            texts(file_names@),
            extname@,
            optional_str(explicit_target),
            optional_str(manifest_version),
        ),
    ensures
        match (
            target_version(
                texts(file_names@),
                extname@,
                optional_str(explicit_target),
                optional_str(manifest_version),
            ),
            r,
        ) {
            (Some(target), Ok(s)) => s@ == target,
            (None, Err(e)) => e@ == ErrorView::NoTargetVersion,
            _ => false,
        },
{
    if let Some(target) = explicit_target {
        return Ok(clean_version_string(target).to_owned());
    }
    let latest_existing = latest_sql_target(file_names, extname);
    let parsed = parse_manifest_version(manifest_version);
    if let Some(latest) = &latest_existing {
        if let Some(m) = &parsed {
            return Ok(derive_ephemeral_target_version(latest, Some(m)).to_string());
        }
        return Ok(derive_ephemeral_target_version(latest, None).to_string());
    }
    if let Some(manifest) = manifest_version {
        return Ok(clean_version_string(manifest).to_owned());
    }
    Err(MigrateError::NoTargetVersion)
}

/// Tells whether the target version can be told.
fn target_version_fits(
    file_names: &Vec<String>,
    extname: &str,
    explicit_target: Option<&str>,
    manifest_version: Option<&str>,
) -> (r: bool)
    ensures
        r == has_target_version(
            texts(file_names@),
            extname@,
            optional_str(explicit_target),
            optional_str(manifest_version),
        ),
{
    if explicit_target.is_some() {
        return true;
    }
    match latest_sql_target(file_names, extname) {
        Some(latest) => {
            if latest.patch < u64::MAX {
                return true;
            }
            match parse_manifest_version(manifest_version) {
                Some(m) => latest.precedes(&m),
                None => false,
            }
        },
        None => true,
    }
}

/// Tells which version an upgrade goes to, or nothing where the next patch number
/// does not fit.
pub fn checked_target_version(
    file_names: &Vec<String>,
    extname: &str,
    explicit_target: Option<&str>,
    manifest_version: Option<&str>,
) -> (r: Option<Result<String, MigrateError>>)
    ensures
        r is Some <==> has_target_version(
            texts(file_names@),
            extname@,
            optional_str(explicit_target),
            optional_str(manifest_version),
        ),
        r matches Some(resolved) ==> match (
            target_version(
                texts(file_names@),
                extname@,
                optional_str(explicit_target),
                optional_str(manifest_version),
            ),
            resolved,
        ) {
            (Some(target), Ok(s)) => s@ == target,
            (None, Err(e)) => e@ == ErrorView::NoTargetVersion,
            _ => false,
        },
{
    if target_version_fits(file_names, extname, explicit_target, manifest_version) {
        Some(resolve_target_version(file_names, extname, explicit_target, manifest_version))
    } else {
        None
    }
}

// ---------------------------------------------------------------------------
// Laws of resolution
// ---------------------------------------------------------------------------

/// A version that is made for an upgrade comes after the one it upgrades from.
pub proof fn law_ephemeral_version_is_later(prev: VersionView, manifest: Option<VersionView>)
    requires
        has_ephemeral_version(prev, manifest),
    ensures
        version_less(prev, ephemeral_version(prev, manifest)),
{
}

/// The files lead to what the last one leads to, and to what the others do.
proof fn lemma_existing_step(names: Seq<Seq<char>>, extname: Seq<char>)
    requires
        names.len() > 0,
    ensures
        forall|w: VersionView| #[trigger]
            is_existing(names, extname, w) <==> is_existing(names.drop_last(), extname, w)
                || script_version(extname, names.last()) == Some(w),
{
    let head = names.drop_last();
    let own = script_version(extname, names.last());
    assert forall|w: VersionView| #[trigger] is_existing(names, extname, w) <==> is_existing(
        head,
        extname,
        w,
    ) || own == Some(w) by {
        if is_existing(names, extname, w) {
            let i = choose|i: int|
                0 <= i < names.len() && script_version(extname, #[trigger] names[i]) == Some(w);
            if i < head.len() {
                assert(head[i] == names[i]);
            }
        }
        if own == Some(w) {
            assert(names[names.len() - 1] == names.last());
        }
        if is_existing(head, extname, w) {
            let i = choose|i: int|
                0 <= i < head.len() && script_version(extname, #[trigger] head[i]) == Some(w);
            assert(names[i] == head[i]);
        }
    }
}

/// Files that lead to some version lead to a latest one.
proof fn lemma_some_latest(names: Seq<Seq<char>>, extname: Seq<char>, v: VersionView) -> (top:
    VersionView)
    requires
        is_existing(names, extname, v),
    ensures
        is_latest(names, extname, top),
    decreases names.len(),
{
    let head = names.drop_last();
    let own = script_version(extname, names.last());
    lemma_existing_step(names, extname);
    if exists|w: VersionView| is_existing(head, extname, w) {
        let w = choose|w: VersionView| is_existing(head, extname, w);
        let top = lemma_some_latest(head, extname, w);
        match own {
            Some(o) => {
                law_version_order_is_total(top, o);
                if version_less(top, o) {
                    assert forall|x: VersionView| #[trigger]
                        is_existing(names, extname, x) && x != o implies version_less(x, o) by {
                        if x != top {
                            law_version_order_is_transitive(x, top, o);
                        }
                    }
                    o
                } else {
                    top
                }
            },
            None => top,
        }
    } else {
        v
    }
}

/// There is a latest version exactly where a script leads to some version.
pub proof fn law_latest_version(names: Seq<Seq<char>>, extname: Seq<char>)
    ensures
        latest_version(names, extname) is Some <==> exists|v: VersionView|
            is_existing(names, extname, v),
        latest_version(names, extname) matches Some(top) ==> is_latest(names, extname, top),
{
    if exists|v: VersionView| is_existing(names, extname, v) {
        let v = choose|v: VersionView| is_existing(names, extname, v);
        let top = lemma_some_latest(names, extname, v);
    } else {
        assert forall|v: VersionView| !is_latest(names, extname, v) by {
            assert(!is_existing(names, extname, v));
        }
    }
}

/// A given target version is used as it is, but for what is cut off.
pub proof fn law_given_target_wins(
    names: Seq<Seq<char>>,
    extname: Seq<char>,
    given: Seq<char>,
    manifest_version: Option<Seq<char>>,
)
    ensures
        has_target_version(names, extname, Some(given), manifest_version),
        target_version(names, extname, Some(given), manifest_version) == Some(clean_version(given)),
{
}

/// Where no target is given and the package is ahead of every release, the target is
/// the version of the package.
pub proof fn law_package_ahead_of_releases(
    names: Seq<Seq<char>>,
    extname: Seq<char>,
    manifest_version: Option<Seq<char>>,
    package: VersionView,
)
    requires
        manifest_parsed(manifest_version) == Some(package),
        exists|v: VersionView| is_existing(names, extname, v),
        forall|v: VersionView| #[trigger]
            is_existing(names, extname, v) ==> version_less(v, package),
    ensures
        has_target_version(names, extname, None, manifest_version),
        target_version(names, extname, None, manifest_version) == Some(version_text(package)),
{
    law_latest_version(names, extname);
}

/// Where no target is given and the package is not ahead of the latest release, the
/// target is the next patch after that release.
pub proof fn law_package_behind_releases(
    names: Seq<Seq<char>>,
    extname: Seq<char>,
    manifest_version: Option<Seq<char>>,
    latest: VersionView,
)
    requires
        is_latest(names, extname, latest),
        latest.patch < u64::MAX,
        manifest_parsed(manifest_version) matches Some(package) ==> !version_less(latest, package),
    ensures
        has_target_version(names, extname, None, manifest_version),
        target_version(names, extname, None, manifest_version) == Some(
            version_text(release(latest.major, latest.minor, (latest.patch + 1) as u64)),
        ),
{
    law_latest_version(names, extname);
    let top = latest_version(names, extname)->0;
    if top != latest {
        law_version_order_is_total(top, latest);
    }
}

/// A target that is not given comes after every release.
pub proof fn law_default_target_is_later(
    names: Seq<Seq<char>>,
    extname: Seq<char>,
    manifest_version: Option<Seq<char>>,
    v: VersionView,
)
    requires
        has_target_version(names, extname, None, manifest_version),
        is_existing(names, extname, v),
    ensures
        latest_version(names, extname) matches Some(latest) && {
            let target = ephemeral_version(latest, manifest_parsed(manifest_version));
            &&& target_version(names, extname, None, manifest_version) == Some(version_text(target))
            &&& version_less(v, target)
        },
{
    law_latest_version(names, extname);
    let latest = latest_version(names, extname)->0;
    let target = ephemeral_version(latest, manifest_parsed(manifest_version));
    law_ephemeral_version_is_later(latest, manifest_parsed(manifest_version));
    if v != latest {
        law_version_order_is_transitive(v, latest, target);
    }
}

/// Where there is no release, the target is the version of the package, and without
/// one there is none.
pub proof fn law_no_release_yet(
    names: Seq<Seq<char>>,
    extname: Seq<char>,
    manifest_version: Option<Seq<char>>,
)
    requires
        forall|v: VersionView| !is_existing(names, extname, v),
    ensures
        has_target_version(names, extname, None, manifest_version),
        target_version(names, extname, None, manifest_version) == match manifest_version {
            Some(m) => Some(clean_version(m)),
            None => None,
        },
{
    law_latest_version(names, extname);
}

/// The version to upgrade from, where it is not given and there is an earlier release,
/// is the latest of the releases before the target.
pub proof fn law_prev_is_latest_earlier_release(
    names: Seq<Seq<char>>,
    extname: Seq<char>,
    target: VersionView,
    manifest_version: Option<Seq<char>>,
    v: VersionView,
)
    requires
        is_existing(names, extname, v),
        version_less(v, target),
    ensures
        latest_before(names, extname, target) matches Some(prev) && {
            &&& is_latest_before(names, extname, target, prev)
            &&& prev_version(names, extname, target, None, manifest_version) == Some(
                version_text(prev),
            )
        },
{
    let top = lemma_some_latest_before(names, extname, target, v);
}

proof fn lemma_some_latest_before(
    names: Seq<Seq<char>>,
    extname: Seq<char>,
    target: VersionView,
    v: VersionView,
) -> (top: VersionView)
    requires
        is_existing(names, extname, v),
        version_less(v, target),
    ensures
        is_latest_before(names, extname, target, top),
    decreases names.len(),
{
    let head = names.drop_last();
    let own = script_version(extname, names.last());
    lemma_existing_step(names, extname);
    if exists|w: VersionView| is_existing(head, extname, w) && version_less(w, target) {
        let w = choose|w: VersionView| is_existing(head, extname, w) && version_less(w, target);
        let top = lemma_some_latest_before(head, extname, target, w);
        match own {
            Some(o) => {
                law_version_order_is_total(top, o);
                if version_less(top, o) && version_less(o, target) {
                    assert forall|x: VersionView| #[trigger]
                        is_existing(names, extname, x) && version_less(x, target) && x
                            != o implies version_less(x, o) by {
                        if x != top {
                            law_version_order_is_transitive(x, top, o);
                        }
                    }
                    o
                } else {
                    top
                }
            },
            None => top,
        }
    } else {
        v
    }
}

/// A previous version is missing only where none is given, no release is earlier than
/// the target, and the package has no version.
pub proof fn law_prev_is_missing(
    names: Seq<Seq<char>>,
    extname: Seq<char>,
    target: VersionView,
    explicit_prev: Option<Seq<char>>,
    manifest_version: Option<Seq<char>>,
)
    ensures
        prev_version(names, extname, target, explicit_prev, manifest_version) is None <==> {
            &&& explicit_prev is None
            &&& manifest_version is None
            &&& forall|v: VersionView|
                #[trigger] is_existing(names, extname, v) ==> !version_less(v, target)
        },
{
    if exists|v: VersionView|
        #[trigger] is_existing(names, extname, v) && version_less(v, target) {
        let v = choose|v: VersionView|
            #[trigger] is_existing(names, extname, v) && version_less(v, target);
        law_prev_is_latest_earlier_release(names, extname, target, manifest_version, v);
    } else if latest_before(names, extname, target) is Some {
        let v = latest_before(names, extname, target)->0;
        assert(is_latest_before(names, extname, target, v));
    }
}

/// A release is read back from its text, and so is one with build metadata in which
/// there is no hyphen.
pub proof fn law_release_text_reads_back(v: VersionView)
    requires
        v.wf(),
        v.pre.len() == 0,
        !v.build.contains('-'),
    ensures
        clean_version(version_text(v)) == version_text(v),
        lossy_version(version_text(v)) == Some(v),
{
    let s = version_text(v);
    lemma_version_text_chars(v);
    assert(!is_space(s[0]) && !is_space(s[s.len() - 1]));
    lemma_trim(seq![], s, seq![]);
    assert(seq![] + s + seq![] =~= s);
    assert forall|k: int| 0 <= k < s.len() implies s[k] != '-' by {
        assert(s.contains(s[k]));
    }
    lemma_before(s, '-', s.len() as int);
    assert(s.take(s.len() as int) =~= s);
    law_version_round_trip(v);
}

/// What is read as a version is one that is read back from its text.
pub proof fn law_lossy_version_reads_back(ver: Seq<char>)
    ensures
        lossy_version(ver) matches Some(v) ==> v.wf() && lossy_version(version_text(v)) == Some(v),
{
    if lossy_version(ver) is Some {
        let v = lossy_version(ver)->0;
        let bare = without_v(trim(ver));
        let cleaned = clean_version(ver);
        lemma_before_bound(bare, '-');
        assert forall|k: int| 0 <= k < cleaned.len() implies cleaned[k] != '-' by {
            assert(cleaned[k] == bare[k]);
        }
        reveal_strlit(".0");
        reveal_strlit(".0.0");
        lemma_version_text_chars(v);
        let s = version_text(v);
        assert(s == cleaned || s == cleaned + ".0"@ || s == cleaned + ".0.0"@);
        assert forall|k: int| 0 <= k < s.len() implies s[k] != '-' by {
            if k < cleaned.len() {
                assert(s[k] == cleaned[k]);
            } else if s == cleaned + ".0"@ {
                assert(s[k] == ".0"@[k - cleaned.len()]);
            } else {
                assert(s[k] == ".0.0"@[k - cleaned.len()]);
            }
        }
        assert(!s.contains('-'));
        law_release_text_reads_back(v);
    }
}

/// A target that is not given is read back from its text where there are releases.
pub proof fn law_default_target_reads_back(
    names: Seq<Seq<char>>,
    extname: Seq<char>,
    manifest_version: Option<Seq<char>>,
)
    requires
        has_target_version(names, extname, None, manifest_version),
        latest_version(names, extname) is Some,
    ensures
        target_version(names, extname, None, manifest_version) matches Some(target)
            && lossy_version(target) == Some(
            ephemeral_version(
                latest_version(names, extname)->0,
                manifest_parsed(manifest_version),
            ),
        ),
{
    let latest = latest_version(names, extname)->0;
    let target = ephemeral_version(latest, manifest_parsed(manifest_version));
    if let Some(m) = manifest_version {
        law_lossy_version_reads_back(clean_version(m));
    }
    let next = release(latest.major, latest.minor, (latest.patch + 1) as u64);
    law_release_text_reads_back(next);
}

// ---------------------------------------------------------------------------
// Names of upgrade scripts
// ---------------------------------------------------------------------------

/// The name of the script that upgrades from one version to another.
pub open spec fn upgrade_script(
    extname: Seq<char>,
    prev: Seq<char>,
    target: Seq<char>,
) -> Seq<char> {
    extname + "--"@ + prev + "--"@ + target + ".sql"@
}

/// Names the script that upgrades from one version to another.
pub fn upgrade_script_name(extname: &str, prev: &str, target: &str) -> (r: String)
    ensures
        r@ == upgrade_script(extname@, prev@, target@),
{
    let mut out = extname.to_owned();
    out.append("--");
    out.append(prev);
    out.append("--");
    out.append(target);
    out.append(".sql");
    out
}

proof fn lemma_last_dashes(prev: Seq<char>, target: Seq<char>, k: int)
    requires
        prev.len() > 0,
        target.len() > 0,
        !target.contains('-'),
        prev.len() <= k,
    ensures
        last_dashes(prev + "--"@ + target, k) == Some(prev.len() as int),
    decreases k,
{
    reveal_strlit("--");
    let s = prev + "--"@ + target;
    let n = prev.len() as int;
    if k == n {
        assert(s.subrange(k, k + 2) =~= "--"@);
    } else {
        if occurs_at(s, "--"@, k) {
            assert(s.subrange(k, k + 2)[0] == s[k]);
            assert(s.subrange(k, k + 2)[1] == s[k + 1]);
            if k == n + 1 {
                assert(s[k + 1] == target[0]);
                assert(target.contains(target[0]));
            } else {
                assert(s[k] == target[k - n - 2]);
                assert(target.contains(target[k - n - 2]));
            }
        }
        lemma_last_dashes(prev, target, k - 1);
    }
}

/// A script that is written for a target leads to it when the scripts are read again.
pub proof fn law_written_script_is_found(extname: Seq<char>, prev: Seq<char>, target: Seq<char>)
    requires
        prev.len() > 0,
        target.len() > 0,
        !prev.contains('\n'),
        !target.contains('\n'),
        !target.contains('-'),
    ensures
        upgrade_target(extname, upgrade_script(extname, prev, target)) == Some(target),
        extname.len() <= 63 || regex_accepts(upgrade_pattern(extname)) ==> script_version(
            extname,
            upgrade_script(extname, prev, target),
        ) == lossy_version(target),
{
    reveal_strlit("--");
    reveal_strlit(".sql");
    let name = upgrade_script(extname, prev, target);
    let head = extname + "--"@;
    let tail = ".sql"@;
    let versions = prev + "--"@ + target;
    assert(name.take(head.len() as int) =~= head);
    assert(name.skip(name.len() - tail.len()) =~= tail);
    assert(name.subrange(head.len() as int, name.len() - tail.len()) =~= versions);
    if versions.contains('\n') {
        let k = versions.index_of('\n');
        if k < prev.len() {
            assert(prev[k] == '\n');
        } else if k >= prev.len() + 2 {
            assert(target[k - prev.len() - 2] == '\n');
        }
    }
    lemma_last_dashes(prev, target, versions.len() as int);
    assert(versions.skip(prev.len() as int + 2) =~= target);
}

/// Of a version only its numbers are kept: not the white space around it, not a `v` before it,
/// and nothing from the first hyphen on.
pub proof fn law_clean_version(
    left: Seq<char>,
    with_v: bool,
    numbers: Seq<char>,
    tail: Seq<char>,
    right: Seq<char>,
)
    requires
        forall|k: int| 0 <= k < left.len() ==> is_space(#[trigger] left[k]),
        forall|k: int| 0 <= k < right.len() ==> is_space(#[trigger] right[k]),
        numbers.len() > 0,
        !numbers.contains('-'),
        with_v || numbers[0] != 'v' && !is_space(numbers[0]),
        tail.len() > 0 ==> tail[0] == '-' && !is_space(tail.last()),
        tail.len() == 0 ==> !is_space(numbers.last()),
    ensures
        clean_version(
            left + ((if with_v {
                seq!['v']
            } else {
                seq![]
            }) + numbers + tail) + right,
        ) == numbers,
{
    let lead = if with_v {
        seq!['v']
    } else {
        seq![]
    };
    let core = lead + numbers + tail;
    if with_v {
        assert(core[0] == 'v');
    } else {
        assert(core[0] == numbers[0]);
    }
    if tail.len() > 0 {
        assert(core.last() == tail.last());
    } else {
        assert(core.last() == numbers.last());
    }
    law_trim(left, core, right);
    let bare = without_v(core);
    assert(bare =~= numbers + tail);
    let n = numbers.len() as int;
    assert forall|j: int| 0 <= j < n implies bare[j] != '-' by {
        assert(bare[j] == numbers[j]);
        assert(numbers.contains(numbers[j]));
    }
    if tail.len() > 0 {
        assert(bare[n] == tail[0]);
    }
    lemma_before(bare, '-', n);
    assert(bare.take(n) =~= numbers);
}

proof fn lemma_number_is_clean(s: Seq<char>)
    requires
        s.len() > 0,
        forall|k: int| 0 <= k < s.len() ==> is_digit(#[trigger] s[k]) || s[k] == '.',
    ensures
        clean_version(s) == s,
{
    let none = Seq::<char>::empty();
    assert(is_digit(s[0]) || s[0] == '.');
    assert(s.last() == s[s.len() - 1]);
    if s.contains('-') {
        assert(is_digit(s[s.index_of('-')]) || s[s.index_of('-')] == '.');
    }
    law_clean_version(none, false, s, none, none);
    assert(none + (none + s + none) + none =~= s);
}

/// The text of a version has at least three parts between dots.
proof fn lemma_parts_of_version(v: VersionView)
    ensures
        split(version_text(v), '.').len() >= 3,
{
    let x = decimal(v.major as nat);
    let y = decimal(v.minor as nat);
    let z = decimal(v.patch as nat) + marked('-', v.pre) + marked('+', v.build);
    assert(version_text(v) =~= x + seq!['.'] + (y + seq!['.'] + z));
    law_split_at_separator(x, y + seq!['.'] + z, '.');
    law_split_at_separator(y, z, '.');
    law_join_undoes_split(x, '.');
    law_join_undoes_split(y, '.');
    law_join_undoes_split(z, '.');
}

proof fn lemma_one_part(s: Seq<char>)
    requires
        is_digits(s),
    ensures
        split(s, '.') == seq![s],
        !s.contains('.'),
{
    if s.contains('.') {
        assert(is_digit(s[s.index_of('.')]));
    }
    assert(join(seq![s], seq!['.']) == s);
    law_split_undoes_join(seq![s], '.');
}

/// A version with one number, with two or with three is read as the release with these
/// numbers, and with zeros for those that are missing.
pub proof fn law_missing_numbers_are_zero(major: u64, minor: u64, patch: u64)
    ensures
        lossy_version(decimal(major as nat)) == Some(release(major, 0, 0)),
        lossy_version(decimal(major as nat) + seq!['.'] + decimal(minor as nat)) == Some(
            release(major, minor, 0),
        ),
        lossy_version(
            decimal(major as nat) + seq!['.'] + decimal(minor as nat) + seq!['.'] + decimal(
                patch as nat,
            ),
        ) == Some(release(major, minor, patch)),
{
    reveal_strlit(".0");
    reveal_strlit(".0.0");
    let (x, y, z) = (decimal(major as nat), decimal(minor as nat), decimal(patch as nat));
    lemma_decimal(major as nat);
    lemma_decimal(minor as nat);
    lemma_decimal(patch as nat);
    let two = x + seq!['.'] + y;
    let three = two + seq!['.'] + z;
    assert forall|k: int| 0 <= k < two.len() implies is_digit(#[trigger] two[k]) || two[k]
        == '.' by {
        if k < x.len() {
            assert(two[k] == x[k]);
        } else if k > x.len() {
            assert(two[k] == y[k - x.len() - 1]);
        }
    }
    assert forall|k: int| 0 <= k < three.len() implies is_digit(#[trigger] three[k]) || three[k]
        == '.' by {
        if k < two.len() {
            assert(three[k] == two[k]);
        } else if k > two.len() {
            assert(three[k] == z[k - two.len() - 1]);
        }
    }
    lemma_number_is_clean(x);
    lemma_number_is_clean(two);
    lemma_number_is_clean(three);
    lemma_one_part(x);
    lemma_one_part(y);
    law_split_at_separator(x, y, '.');
    assert(split(two, '.').len() == 2);
    let zero = decimal(0);
    assert(zero =~= seq!['0']) by {
        law_decimal(0, 0);
    }
    let (a, b, c) = (release(major, 0, 0), release(major, minor, 0), release(major, minor, patch));
    law_version_text(a);
    law_version_text(b);
    law_version_text(c);
    assert(x + ".0.0"@ =~= version_text(a));
    assert(two + ".0"@ =~= version_text(b));
    assert(three =~= version_text(c));
    law_version_round_trip(a);
    law_version_round_trip(b);
    law_version_round_trip(c);
    assert(parsed_version(x) is None) by {
        if parsed_version(x) is Some {
            let v = choose|v: VersionView| v.wf() && #[trigger] version_text(v) == x;
            lemma_parts_of_version(v);
        }
    }
    assert(parsed_version(two) is None) by {
        if parsed_version(two) is Some {
            let v = choose|v: VersionView| v.wf() && #[trigger] version_text(v) == two;
            lemma_parts_of_version(v);
        }
    }
}

/// What is read as a version is its text without what is cut off, but for zeros that stand
/// for missing numbers.
pub proof fn law_only_versions_are_read(ver: Seq<char>)
    ensures
        lossy_version(ver) matches Some(v) ==> v.wf() && (version_text(v) == clean_version(ver)
            || version_text(v) == clean_version(ver) + ".0"@ || version_text(v) == clean_version(ver)
            + ".0.0"@),
        lossy_version(ver) is None ==> forall|v: VersionView|
            v.wf() ==> #[trigger] version_text(v) != clean_version(ver),
{
}

/// Without a given version the latest of all versions that scripts lead to counts: one that a
/// script leads to and that no other one is later than.
pub proof fn law_latest_is_greatest(names: Seq<Seq<char>>, extname: Seq<char>, k: int)
    requires
        0 <= k < names.len(),
        script_version(extname, names[k]) is Some,
    ensures
        latest_version(names, extname) is Some,
        script_version(extname, names[k])->0 == latest_version(names, extname)->0 || version_less(
            script_version(extname, names[k])->0,
            latest_version(names, extname)->0,
        ),
        exists|j: int|
            0 <= j < names.len() && script_version(extname, #[trigger] names[j]) == latest_version(
                names,
                extname,
            ),
{
    let v = script_version(extname, names[k])->0;
    assert(is_existing(names, extname, v));
    law_latest_version(names, extname);
    let top = latest_version(names, extname)->0;
    assert(is_existing(names, extname, top));
}

/// The version to upgrade from, where it is not given, is one that a script leads to, earlier
/// than the target, and no other such version is later than it.
pub proof fn law_previous_is_greatest_before_target(
    names: Seq<Seq<char>>,
    extname: Seq<char>,
    target: VersionView,
    manifest_version: Option<Seq<char>>,
    k: int,
) -> (prev: VersionView)
    requires
        0 <= k < names.len(),
        script_version(extname, names[k]) matches Some(v) && version_less(v, target),
    ensures
        prev_version(names, extname, target, None, manifest_version) == Some(version_text(prev)),
        version_less(prev, target),
        script_version(extname, names[k])->0 == prev || version_less(
            script_version(extname, names[k])->0,
            prev,
        ),
        exists|j: int|
            0 <= j < names.len() && script_version(extname, #[trigger] names[j]) == Some(prev),
{
    let v = script_version(extname, names[k])->0;
    assert(is_existing(names, extname, v));
    law_prev_is_latest_earlier_release(names, extname, target, manifest_version, v);
    let prev = latest_before(names, extname, target)->0;
    assert(is_existing(names, extname, prev));
    prev
}

/// A given previous version is used, without what is cut off. Without one, and without a
/// release before the target, the version of the package counts: in full if it can be read
/// and is earlier, else as it is written.
pub proof fn law_given_previous_and_package(
    names: Seq<Seq<char>>,
    extname: Seq<char>,
    target: VersionView,
    given: Seq<char>,
    package: Seq<char>,
    manifest_version: Option<Seq<char>>,
)
    ensures
        prev_version(names, extname, target, Some(given), manifest_version) == Some(
            clean_version(given),
        ),
        (forall|k: int|
            0 <= k < names.len() ==> (script_version(extname, #[trigger] names[k]) matches Some(v)
                ==> !version_less(v, target))) ==> prev_version(
            names,
            extname,
            target,
            None,
            Some(package),
        ) == (match lossy_version(clean_version(package)) {
            Some(v) => if version_less(v, target) {
                Some(version_text(v))
            } else {
                Some(clean_version(package))
            },
            None => Some(clean_version(package)),
        }),
{
    if forall|k: int|
        0 <= k < names.len() ==> (script_version(extname, #[trigger] names[k]) matches Some(v)
            ==> !version_less(v, target)) {
        if latest_before(names, extname, target) is Some {
            let v = latest_before(names, extname, target)->0;
            assert(is_latest_before(names, extname, target, v));
            let i = choose|i: int|
                0 <= i < names.len() && script_version(extname, #[trigger] names[i]) == Some(v);
            assert(!version_less(v, target));
        }
    }
}

/// The version after a release is that of the package where it is later, and else the next
/// patch: the same major and minor number, one more for the patch, and nothing behind it.
pub proof fn law_next_version(prev: VersionView, package: VersionView)
    requires
        prev.patch < u64::MAX,
    ensures
        version_less(prev, package) ==> ephemeral_version(prev, Some(package)) == package,
        !version_less(prev, package) ==> ephemeral_version(prev, Some(package))
            == ephemeral_version(prev, None),
        ephemeral_version(prev, None).major == prev.major,
        ephemeral_version(prev, None).minor == prev.minor,
        ephemeral_version(prev, None).patch == prev.patch + 1,
        ephemeral_version(prev, None).pre.len() == 0,
        ephemeral_version(prev, None).build.len() == 0,
{
}

proof fn lemma_last_separator(prev: Seq<char>, target: Seq<char>, k: int)
    requires
        prev.len() > 0,
        target.len() > 0,
        target[0] != '-',
        forall|i: int| !occurs_at(target, "--"@, i),
        prev.len() <= k,
    ensures
        last_dashes(prev + "--"@ + target, k) == Some(prev.len() as int),
    decreases k,
{
    reveal_strlit("--");
    let s = prev + "--"@ + target;
    let n = prev.len() as int;
    if k == n {
        assert(s.subrange(k, k + 2) =~= "--"@);
    } else {
        if occurs_at(s, "--"@, k) {
            assert(s.subrange(k, k + 2)[0] == s[k]);
            assert(s.subrange(k, k + 2)[1] == s[k + 1]);
            if k == n + 1 {
                assert(s[k + 1] == target[0]);
            } else {
                assert(target.subrange(k - n - 2, k - n) =~= s.subrange(k, k + 2));
                assert(occurs_at(target, "--"@, k - n - 2));
            }
        }
        lemma_last_separator(prev, target, k - 1);
    }
}

/// A file named after the extension, an old version and a new one leads to the new one, with
/// a pre-release or without.
pub proof fn law_upgrade_scripts_lead_to_their_target(
    extname: Seq<char>,
    prev: Seq<char>,
    target: Seq<char>,
)
    requires
        extname.len() <= 63,
        prev.len() > 0,
        target.len() > 0,
        target[0] != '-',
        forall|i: int| !occurs_at(target, "--"@, i),
        !prev.contains('\n'),
        !target.contains('\n'),
    ensures
        script_version(extname, extname + "--"@ + prev + "--"@ + target + ".sql"@)
            == lossy_version(target),
        upgrade_script(extname, prev, target) == extname + "--"@ + prev + "--"@ + target + ".sql"@,
{
    reveal_strlit("--");
    reveal_strlit(".sql");
    let name = extname + "--"@ + prev + "--"@ + target + ".sql"@;
    let head = extname + "--"@;
    let tail = ".sql"@;
    let versions = prev + "--"@ + target;
    assert(name.take(head.len() as int) =~= head);
    assert(name.skip(name.len() - tail.len()) =~= tail);
    assert(name.subrange(head.len() as int, name.len() - tail.len()) =~= versions);
    if versions.contains('\n') {
        let k = versions.index_of('\n');
        if k < prev.len() {
            assert(prev[k] == '\n');
        } else if k >= prev.len() + 2 {
            assert(target[k - prev.len() - 2] == '\n');
        }
    }
    lemma_last_separator(prev, target, versions.len() as int);
    assert(versions.skip(prev.len() as int + 2) =~= target);
}

/// No other file leads to a version.
pub proof fn law_only_upgrade_scripts_count(extname: Seq<char>, name: Seq<char>) -> (r: (
    Seq<char>,
    Seq<char>,
))
    requires
        script_version(extname, name) is Some,
    ensures
        name == extname + "--"@ + r.0 + "--"@ + r.1 + ".sql"@,
        r.0.len() > 0 && r.1.len() > 0,
        script_version(extname, name) == lossy_version(r.1),
{
    reveal_strlit("--");
    reveal_strlit(".sql");
    let head = extname + "--"@;
    let tail = ".sql"@;
    let versions = name.subrange(head.len() as int, name.len() - tail.len());
    lemma_last_dashes_found(versions, versions.len() as int);
    let k = last_dashes(versions, versions.len() as int)->0;
    let (prev, target) = (versions.take(k), versions.skip(k + 2));
    assert(versions =~= prev + versions.subrange(k, k + 2) + target);
    assert(name =~= name.take(head.len() as int) + versions + name.skip(name.len() - tail.len()));
    assert(name =~= extname + "--"@ + prev + "--"@ + target + ".sql"@);
    (prev, target)
}

proof fn lemma_last_dashes_found(s: Seq<char>, k: int)
    ensures
        last_dashes(s, k) matches Some(i) ==> 1 <= i && i + 2 < s.len() && s.subrange(i, i + 2)
            == "--"@,
    decreases k,
{
    reveal_strlit("--");
    if k >= 1 && !(occurs_at(s, "--"@, k) && k + 2 < s.len()) {
        lemma_last_dashes_found(s, k - 1);
    }
}

}
