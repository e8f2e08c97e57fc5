//! The default version in an extension's control file.

use vstd::prelude::*;
use vstd::string::*;
use crate::pattern::{
    entry_end, has_entry, is_match, law_settings, lemma_gap, replace, with_entry,
    DEFAULT_VERSION,
};
use crate::text::{
    before, contains_text, is_space, lemma_before, lemma_before_bound, lemma_space_run, occurs_at,
    space_run, starts_with,
};

verus! {

/// The setting of the default version.
pub open spec fn default_version_entry(version: Seq<char>) -> Seq<char> {
    "default_version = '"@ + version + "'"@
}

/// A control file with the given default version: the first setting is replaced, or
/// one is added at the end.
pub open spec fn updated_control(content: Seq<char>, version: Seq<char>) -> Seq<char> {
    let entry = default_version_entry(version);
    if !has_entry(content) {
        content + "\n"@ + entry + "\n"@
    } else {
        with_entry(content, entry)
    }
}

/// Writes the default version into the text of a control file.
pub fn update_control_file_default_version(content: &str, target_version: &str) -> (r: String)
    ensures
        r@ == updated_control(content@, target_version@),
{
    let mut entry = "default_version = '".to_owned();
    entry.append(target_version);
    entry.append("'");
    if is_match(DEFAULT_VERSION, content) {
        replace(DEFAULT_VERSION, content, entry.as_str())
    } else {
        let mut out = content.to_owned();
        out.append("\n");
        out.append(entry.as_str());
        out.append("\n");
        assert(out@ =~= content@ + "\n"@ + default_version_entry(target_version@) + "\n"@);
        out
    }
}

// ---------------------------------------------------------------------------
// Laws
// ---------------------------------------------------------------------------

/// A setting at the beginning of a text ends with its line.
proof fn lemma_entry_at_start(version: Seq<char>, rest: Seq<char>)
    requires
        !version.contains('\n'),
        rest.len() == 0 || rest[0] == '\n',
    ensures
        entry_end(default_version_entry(version) + rest) == Some(
            default_version_entry(version).len() as int,
        ),
{
    reveal_strlit("default_version = '");
    reveal_strlit("'");
    reveal_strlit("default_version");
    let entry = default_version_entry(version);
    let s = entry + rest;
    let key = "default_version"@;
    assert(s.take(key.len() as int) =~= key);
    let after = s.skip(key.len() as int);
    assert(after[0] == ' ' && after[1] == '=');
    assert(after.skip(1)[0] == '=');
    assert(space_run(after.skip(1)) == 0);
    assert(space_run(after) == 1);
    let sign = key.len() as int + 1;
    assert(s[sign] == '=');
    let value = s.skip(sign + 1);
    let n = entry.len() - sign - 1;
    assert forall|j: int| 0 <= j < n implies value[j] != '\n' by {
        assert(value[j] == entry[j + sign + 1]);
        if 2 <= j < 2 + version.len() {
            assert(value[j] == version[j - 2]);
            assert(version.contains(version[j - 2]));
        }
    }
    lemma_before(value, '\n', n);
}

/// Where a setting ends, a line ends.
proof fn lemma_entry_end(s: Seq<char>)
    ensures
        entry_end(s) matches Some(end) ==> {
            &&& 0 < end <= s.len()
            &&& end < s.len() ==> s[end] == '\n'
            &&& s[0] == 'd'
        },
{
    reveal_strlit("default_version");
    let key = "default_version"@;
    if entry_end(s) is Some {
        let after = s.skip(key.len() as int);
        lemma_space_run(after);
        let sign = key.len() as int + space_run(after);
        lemma_before_bound(s.skip(sign + 1), '\n');
        assert(s.take(key.len() as int)[0] == s[0]);
        let end = entry_end(s)->0;
        if end < s.len() {
            assert(s.skip(sign + 1)[end - sign - 1] == s[end]);
        }
    }
}

/// Replacing a setting leaves the first character that is not white space, and what
/// stands before it.
proof fn lemma_same_start(s: Seq<char>, version: Seq<char>)
    ensures
        ({
            let r = with_entry(s, default_version_entry(version));
            let n = space_run(s) as int;
            &&& space_run(r) == n
            &&& n < s.len() <==> n < r.len()
            &&& n < s.len() ==> r[n] == s[n]
        }),
    decreases s.len(),
{
    reveal_strlit("default_version = '");
    let entry = default_version_entry(version);
    let r = with_entry(s, entry);
    let k = before(s, '\n') as int;
    lemma_space_run(s);
    lemma_entry_end(s);
    lemma_before_bound(s, '\n');
    if entry_end(s) is Some {
        assert(r[0] == entry[0] && entry[0] == 'd');
    } else if k < s.len() {
        let rest = s.skip(k + 1);
        let changed = with_entry(rest, entry);
        lemma_same_start(rest, version);
        lemma_lines_start(s.take(k + 1), rest, changed);
        assert(s =~= s.take(k + 1) + rest);
    }
}

/// Two texts that start alike still do after a common beginning.
proof fn lemma_lines_start(head: Seq<char>, a: Seq<char>, b: Seq<char>)
    requires
        space_run(a) == space_run(b),
        space_run(a) < a.len() <==> space_run(b) < b.len(),
        space_run(a) < a.len() ==> a[space_run(a) as int] == b[space_run(b) as int],
    ensures
        space_run(head + a) == space_run(head + b),
        space_run(head + a) < (head + a).len() <==> space_run(head + b) < (head + b).len(),
        space_run(head + a) < (head + a).len() ==> (head + a)[space_run(head + a) as int] == (head
            + b)[space_run(head + b) as int],
    decreases head.len(),
{
    if head.len() == 0 {
        assert(head + a =~= a);
        assert(head + b =~= b);
    } else {
        let tail = head.skip(1);
        lemma_lines_start(tail, a, b);
        assert((head + a).skip(1) =~= tail + a);
        assert((head + b).skip(1) =~= tail + b);
        if is_space(head[0]) {
            let n = space_run(tail + a) as int;
            if n < (tail + a).len() {
                assert((head + a)[n + 1] == (tail + a)[n]);
                assert((head + b)[n + 1] == (tail + b)[n]);
            }
        }
    }
}

/// A first line that is no setting stays none when a later setting is replaced.
proof fn lemma_first_line_stays(s: Seq<char>, version: Seq<char>)
    requires
        entry_end(s) is None,
        before(s, '\n') < s.len(),
    ensures
        ({
            let k = before(s, '\n') as int;
            let r = with_entry(s, default_version_entry(version));
            &&& entry_end(r) is None
            &&& before(r, '\n') == k
            &&& k < r.len()
            &&& r.take(k + 1) == s.take(k + 1)
            &&& r.skip(k + 1) == with_entry(s.skip(k + 1), default_version_entry(version))
        }),
{
    reveal_strlit("default_version");
    let key = "default_version"@;
    let entry = default_version_entry(version);
    let k = before(s, '\n') as int;
    let rest = s.skip(k + 1);
    let changed = with_entry(rest, entry);
    let r = with_entry(s, entry);
    lemma_before_bound(s, '\n');
    assert(r == s.take(k + 1) + changed);
    assert(r.take(k + 1) =~= s.take(k + 1));
    assert(r.skip(k + 1) =~= changed);
    assert forall|j: int| 0 <= j < k implies r[j] != '\n' by {
        assert(r[j] == s[j]);
    }
    assert(r[k] == s[k]);
    lemma_before(r, '\n', k);
    let n = key.len() as int;
    if starts_with(r, key) {
        assert(r.take(n) == key);
        if k < n {
            assert(r.take(n)[k] == r[k]);
            assert(key[k] != '\n');
        }
        assert(s.take(n) =~= r.take(k + 1).take(n));
        assert(r.take(n) =~= r.take(k + 1).take(n));
        assert(starts_with(s, key));
        let head = s.subrange(n, k + 1);
        assert(s.skip(n) =~= head + rest);
        assert(r.skip(n) =~= head + changed);
        lemma_same_start(rest, version);
        lemma_lines_start(head, rest, changed);
        let m = space_run(s.skip(n)) as int;
        if n + m < s.len() {
            assert(s[n + m] == s.skip(n)[m]);
            assert(r[n + m] == r.skip(n)[m]);
        }
    }
}

proof fn lemma_with_entry_twice(s: Seq<char>, version: Seq<char>)
    requires
        !version.contains('\n'),
        has_entry(s),
    ensures
        ({
            let entry = default_version_entry(version);
            let r = with_entry(s, entry);
            has_entry(r) && with_entry(r, entry) == r && contains_text(r, entry)
        }),
    decreases s.len(),
{
    let entry = default_version_entry(version);
    let r = with_entry(s, entry);
    let k = before(s, '\n') as int;
    lemma_entry_end(s);
    if entry_end(s) is Some {
        let rest = s.skip(entry_end(s)->0);
        lemma_entry_at_start(version, rest);
        assert(r.skip(entry.len() as int) =~= rest);
        assert(r.subrange(0, entry.len() as int) =~= entry);
        assert(occurs_at(r, entry, 0));
    } else {
        let rest = s.skip(k + 1);
        let changed = with_entry(rest, entry);
        lemma_with_entry_twice(rest, version);
        lemma_first_line_stays(s, version);
        let i = choose|i: int| occurs_at(changed, entry, i);
        assert(r.subrange(k + 1 + i, k + 1 + i + entry.len()) =~= changed.subrange(
            i,
            i + entry.len(),
        ));
        assert(occurs_at(r, entry, k + 1 + i));
    }
}

/// A setting at the end of a text that has none is found, and is the first.
proof fn lemma_appended_entry(s: Seq<char>, version: Seq<char>)
    requires
        !version.contains('\n'),
        !has_entry(s),
    ensures
        ({
            let entry = default_version_entry(version);
            let r = s + "\n"@ + entry + "\n"@;
            has_entry(r) && with_entry(r, entry) == r
        }),
    decreases s.len(),
{
    reveal_strlit("\n");
    reveal_strlit("default_version");
    reveal_strlit("default_version = '");
    let key = "default_version"@;
    let entry = default_version_entry(version);
    let r = s + "\n"@ + entry + "\n"@;
    let k = before(s, '\n') as int;
    lemma_before_bound(s, '\n');
    assert forall|j: int| 0 <= j < k implies r[j] != '\n' by {
        assert(r[j] == s[j]);
    }
    assert(r[k] == '\n') by {
        if k < s.len() {
            assert(r[k] == s[k]);
        }
    }
    lemma_before(r, '\n', k);
    let rest = r.skip(k + 1);
    assert(entry_end(r) is None) by {
        if entry_end(r) is Some {
            let n = key.len() as int;
            assert(r.take(n) == key);
            if k < n {
                assert(r.take(n)[k] == r[k]);
                assert(key[k] != '\n');
            }
            assert(s.take(n) =~= r.take(n));
            let tail = s.skip(n);
            let more = "\n"@ + entry + "\n"@;
            assert(r.skip(n) =~= tail + more);
            lemma_space_run(tail);
            lemma_space_run(r.skip(n));
            let m = space_run(tail) as int;
            let q = space_run(r.skip(n)) as int;
            if m < tail.len() {
                assert((tail + more)[m] == tail[m]);
                if m < q {
                    assert(is_space(r.skip(n)[m]));
                }
                if q < m {
                    assert(is_space(tail[q]));
                    assert(r.skip(n)[q] == tail[q]);
                }
                assert(s[n + m] == tail[m]);
                assert(r[n + m] == r.skip(n)[m]);
            } else {
                assert(r.skip(n)[m] == '\n');
                assert(r.skip(n)[m + 1] == entry[0]);
                assert(!is_space(r.skip(n)[m + 1]));
                if q < m {
                    assert(is_space(tail[q]));
                    assert(r.skip(n)[q] == tail[q]);
                }
                if q > m + 1 {
                    assert(is_space(r.skip(n)[m + 1]));
                }
                assert(q == m + 1);
                assert(r[n + q] == r.skip(n)[q]);
            }
        }
    }
    if k < s.len() {
        lemma_appended_entry(s.skip(k + 1), version);
        assert(rest =~= s.skip(k + 1) + "\n"@ + entry + "\n"@);
    } else {
        assert(rest =~= entry + "\n"@);
        lemma_entry_at_start(version, "\n"@);
        assert(rest.skip(entry.len() as int) =~= "\n"@);
        assert(has_entry(rest));
        assert(with_entry(rest, entry) =~= rest);
    }
    assert(r =~= r.take(k + 1) + rest);
}

/// After an update the control file holds the new setting, and another update with
/// the same version changes nothing.
pub proof fn law_update_sets_version_once(content: Seq<char>, version: Seq<char>)
    requires
        !version.contains('\n'),
    ensures
        has_entry(updated_control(content, version)),
        contains_text(updated_control(content, version), default_version_entry(version)),
        updated_control(updated_control(content, version), version) == updated_control(
            content,
            version,
        ),
{
    let entry = default_version_entry(version);
    let r = updated_control(content, version);
    if has_entry(content) {
        lemma_with_entry_twice(content, version);
    } else {
        lemma_appended_entry(content, version);
        let k = content.len() as int + "\n"@.len();
        assert(r.subrange(k, k + entry.len()) =~= entry);
        assert(occurs_at(r, entry, k));
    }
}

/// An update replaces one setting, which ends with its line, or adds one at the end:
/// what stands before and after it is kept.
pub proof fn law_update_keeps_the_rest(content: Seq<char>, version: Seq<char>) -> (r: (
    Seq<char>,
    Seq<char>,
    Seq<char>,
))
    ensures
        has_entry(content) ==> {
            let (lead, setting, rest) = r;
            &&& content == lead + setting + rest
            &&& updated_control(content, version) == lead + default_version_entry(version) + rest
            &&& starts_with(setting, "default_version"@)
            &&& lead.len() == 0 || lead.last() == '\n'
            &&& rest.len() == 0 || rest[0] == '\n'
        },
        !has_entry(content) ==> updated_control(content, version) == content + "\n"@
            + default_version_entry(version) + "\n"@,
    decreases content.len(),
{
    let entry = default_version_entry(version);
    let k = before(content, '\n') as int;
    lemma_entry_end(content);
    lemma_before_bound(content, '\n');
    if !has_entry(content) {
        (seq![], seq![], seq![])
    } else if entry_end(content) is Some {
        let end = entry_end(content)->0;
        let setting = content.take(end);
        let rest = content.skip(end);
        assert(content =~= seq![] + setting + rest);
        assert(with_entry(content, entry) =~= seq![] + entry + rest);
        assert(starts_with(setting, "default_version"@)) by {
            reveal_strlit("default_version");
            let n = "default_version"@.len() as int;
            lemma_space_run(content.skip(n));
            assert(setting.take(n) =~= content.take(n));
        }
        (seq![], setting, rest)
    } else {
        let line = content.take(k + 1);
        let (lead, setting, rest) = law_update_keeps_the_rest(content.skip(k + 1), version);
        assert(content =~= line + content.skip(k + 1));
        assert(content =~= line + lead + setting + rest);
        assert(with_entry(content, entry) =~= line + lead + entry + rest);
        assert((line + lead).last() == '\n');
        (line + lead, setting, rest)
    }
}

/// Lines before a setting keep that they are not one.
proof fn lemma_no_entry_before(lead: Seq<char>, line: Seq<char>)
    requires
        lead.len() > 0,
        lead.last() == '\n',
        entry_end(lead) is None,
        line.len() > 0,
        line[0] == 'd',
    ensures
        entry_end(lead + line) is None,
{
    reveal_strlit("default_version");
    let key = "default_version"@;
    let n = key.len() as int;
    let s = lead + line;
    if starts_with(s, key) {
        if lead.len() < n {
            assert(s.take(n)[lead.len() - 1] == key[lead.len() - 1]);
            assert(s[lead.len() - 1] == '\n');
        } else {
            assert(lead.take(n) =~= s.take(n));
            let (a, b) = (lead.skip(n), s.skip(n));
            lemma_space_run(a);
            lemma_space_run(b);
            let m = space_run(a) as int;
            assert(b =~= a + line);
            assert forall|k: int| 0 <= k < m implies is_space(#[trigger] b[k]) by {
                assert(b[k] == a[k]);
            }
            if m < a.len() {
                assert(b[m] == a[m]);
            } else {
                assert(b[m] == 'd');
            }
            lemma_gap(b, m);
            assert(s[n + m] == b[m]);
            if m < a.len() {
                assert(lead[n + m] == a[m]);
            }
        }
    }
}

/// An update writes the version, in single quotes, in place of the first setting, whatever
/// that setting was, and keeps every character before and after that line.
pub proof fn law_update_replaces_first_setting(
    lead: Seq<char>,
    gap: Seq<char>,
    value: Seq<char>,
    rest: Seq<char>,
    version: Seq<char>,
)
    requires
        lead.len() == 0 || lead.last() == '\n',
        !has_entry(lead),
        forall|k: int| 0 <= k < gap.len() ==> is_space(#[trigger] gap[k]),
        !value.contains('\n'),
        rest.len() == 0 || rest[0] == '\n',
    ensures
        updated_control(lead + ("default_version"@ + gap + "="@ + value + rest), version) == lead
            + "default_version = '"@ + version + "'"@ + rest,
{
    let line = "default_version"@ + gap + "="@ + value + rest;
    let entry = default_version_entry(version);
    law_settings(lead, gap, value, rest);
    lemma_with_entry_after(lead, gap, value, rest, entry);
    assert(lead + (entry + rest) =~= lead + "default_version = '"@ + version + "'"@ + rest);
}

proof fn lemma_with_entry_after(
    lead: Seq<char>,
    gap: Seq<char>,
    value: Seq<char>,
    rest: Seq<char>,
    entry: Seq<char>,
)
    requires
        lead.len() == 0 || lead.last() == '\n',
        !has_entry(lead),
        forall|k: int| 0 <= k < gap.len() ==> is_space(#[trigger] gap[k]),
        !value.contains('\n'),
        rest.len() == 0 || rest[0] == '\n',
    ensures
        with_entry(lead + ("default_version"@ + gap + "="@ + value + rest), entry) == lead + (entry
            + rest),
    decreases lead.len(),
{
    reveal_strlit("default_version");
    reveal_strlit("=");
    let setting = "default_version"@ + gap + "="@ + value;
    let line = setting + rest;
    let s = lead + line;
    if lead.len() == 0 {
        law_settings(seq![], gap, value, rest);
        assert(s =~= line);
        assert(line.skip(setting.len() as int) =~= rest);
        assert(entry + rest =~= lead + (entry + rest));
    } else {
        assert(line[0] == 'd');
        lemma_no_entry_before(lead, line);
        let k = before(lead, '\n') as int;
        lemma_before_bound(lead, '\n');
        if k >= lead.len() {
            assert(lead[lead.len() - 1] != '\n');
        }
        assert forall|j: int| 0 <= j < k implies s[j] != '\n' by {
            assert(s[j] == lead[j]);
        }
        assert(s[k] == lead[k]);
        lemma_before(s, '\n', k);
        let more = lead.skip(k + 1);
        assert(s.skip(k + 1) =~= more + line);
        if more.len() > 0 {
            assert(more.last() == lead.last());
        }
        lemma_with_entry_after(more, gap, value, rest, entry);
        assert(s.take(k + 1) + (more + (entry + rest)) =~= lead + (entry + rest));
    }
}

/// Without a setting an update keeps the whole text and adds a line with the version in
/// single quotes.
pub proof fn law_update_adds_missing_setting(content: Seq<char>, version: Seq<char>)
    requires
        !has_entry(content),
    ensures
        updated_control(content, version) == content + "\ndefault_version = '"@ + version + "'\n"@,
{
    reveal_strlit("\ndefault_version = '");
    reveal_strlit("default_version = '");
    reveal_strlit("'\n");
    reveal_strlit("'");
    reveal_strlit("\n");
    assert("\ndefault_version = '"@ =~= "\n"@ + "default_version = '"@);
    assert("'\n"@ =~= "'"@ + "\n"@);
    assert(updated_control(content, version) =~= content + "\ndefault_version = '"@ + version
        + "'\n"@);
}

}
