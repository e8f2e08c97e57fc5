//! The patterns that file names and SQL text are searched for, and the searches
//! themselves, which the `regex` crate performs.

use vstd::prelude::*;
use crate::text::{
    before, contains_text, digit_run, ends_with, is_digit, is_space, lemma_before,
    lemma_before_bound, lemma_space_run, occurs_at, single_spaced, space_run, starts_with,
};

verus! {

/// A number and a dot at the beginning of a file name.
pub const NUMBER_PREFIX: &'static str = r"^(\d+)\.";

/// A comment that lists prerequisites. In a line comment the list stands in the same line.
pub const DEPENDS_ON: &'static str = r"(?i)(?:--[^\S\n]*depends-on:[^\S\n]*|/\*\s*depends-on:\s*)([^\n*]+?)(?:\*/|\n|$)";

/// A character of a word, at the beginning of a text.
pub const WORD_CHARACTER: &'static str = r"^\w";

/// A statement that creates, alters or drops an object. Words that modify the kind, and
/// conditions before the name, are passed over.
pub const STATEMENT: &'static str = r#"(?i)^(CREATE(?:\s+OR\s+REPLACE)?|ALTER|DROP)\s+(?:(?:GLOBAL|LOCAL|TEMPORARY|TEMP|UNLOGGED|RECURSIVE|UNIQUE|CONSTRAINT|TRUSTED|PROCEDURAL)\s+)*(MATERIALIZED\s+VIEW|FOREIGN\s+TABLE|FOREIGN\s+DATA\s+WRAPPER|EVENT\s+TRIGGER|ACCESS\s+METHOD|OPERATOR\s+CLASS|OPERATOR\s+FAMILY|TEXT\s+SEARCH\s+[A-Z]+|[A-Z]+)\s+(?:CONCURRENTLY\s+)?(?:IF\s+(?:NOT\s+)?EXISTS\s+)?(?:ONLY\s+)?((?:"[^"]*"|[^\s(,])+)(?:\s*\((.*?)\))?"#;

/// The default value of an argument.
pub const DEFAULT_VALUE: &'static str = r"(?i)\s+(DEFAULT|=)\s+.*$";

/// The line of a control file that sets the default version.
pub const DEFAULT_VERSION: &'static str = r"(?m)^default_version\s*=.*$";

/// What follows the extension's name in the pattern for upgrade scripts.
pub const UPGRADE_TAIL: &'static str = r"--.+--(.+)\.sql$";

/// The patterns above that stand for themselves.
pub open spec fn is_fixed_pattern(p: Seq<char>) -> bool {
    ||| p == NUMBER_PREFIX@
    ||| p == DEPENDS_ON@
    ||| p == WORD_CHARACTER@
    ||| p == STATEMENT@
    ||| p == DEFAULT_VALUE@
    ||| p == DEFAULT_VERSION@
}

// ---------------------------------------------------------------------------
// Groups of a match
// ---------------------------------------------------------------------------

/// The texts of the groups of one match; the whole match comes first.
pub open spec fn group_texts(groups: Seq<Option<String>>) -> Seq<Option<Seq<char>>> {
    Seq::new(
        groups.len(),
        |i: int|
            match groups[i] {
                Some(s) => Some(s@),
                None => None,
            },
    )
}

/// The texts of the groups of several matches.
pub open spec fn all_group_texts(matches: Seq<Vec<Option<String>>>) -> Seq<Seq<Option<Seq<char>>>> {
    Seq::new(matches.len(), |i: int| group_texts(matches[i]@))
}

/// The texts of the groups of a match, where there is one.
pub open spec fn found_texts(found: Option<Vec<Option<String>>>) -> Option<Seq<Option<Seq<char>>>> {
    match found {
        Some(groups) => Some(group_texts(groups@)),
        None => None,
    }
}

// ---------------------------------------------------------------------------
// What the patterns find
// ---------------------------------------------------------------------------

/// Whether `s` begins with decimal digits that a dot follows.
pub open spec fn has_number_prefix(s: Seq<char>) -> bool {
    let k = digit_run(s) as int;
    0 < k < s.len() && s[k] == '.'
}

/// Whether `number` is a text of digits that begins `s` and that a dot follows.
/// Beyond ASCII the pattern takes the digits of other scripts too.
pub open spec fn is_number_group(s: Seq<char>, number: Seq<char>) -> bool {
    &&& 0 < number.len() < s.len()
    &&& s.take(number.len() as int) == number
    &&& s[number.len() as int] == '.'
    &&& forall|i: int|
        0 <= i < number.len() && (#[trigger] number[i]) as u32 <= 0x7F ==> is_digit(number[i])
}

/// Whether a list of prerequisites can stand in a comment as it is.
pub open spec fn is_plain_list(list: Seq<char>) -> bool {
    &&& list.len() > 0
    &&& !is_space(list[0])
    &&& !list.contains('\n')
    &&& !list.contains('*')
}

/// Whether `s` is white space.
pub open spec fn is_white(s: Seq<char>) -> bool {
    forall|i: int| 0 <= i < s.len() ==> is_space(#[trigger] s[i])
}

/// Whether `s` is white space in one line.
pub open spec fn is_blank(s: Seq<char>) -> bool {
    is_white(s) && !s.contains('\n')
}

/// A letter of a keyword, whatever its case. The long s is an s too.
pub open spec fn keyword_letter(c: char) -> char {
    if c == '\u{17F}' {
        's'
    } else {
        ascii_lower(c)
    }
}

/// `s` with its letters as they are in a keyword.
pub open spec fn keyword_letters(s: Seq<char>) -> Seq<char> {
    s.map_values(|c: char| keyword_letter(c))
}

/// Whether `s` is the keyword of comments that list prerequisites, whatever its case.
pub open spec fn is_keyword(s: Seq<char>) -> bool {
    keyword_letters(s) == "depends-on:"@
}

/// Whether that keyword occurs in `s`.
pub open spec fn has_keyword(s: Seq<char>) -> bool {
    contains_text(keyword_letters(s), "depends-on:"@)
}

/// A comment that lists prerequisites, and what follows it: the sign that begins the
/// comment, the keyword with white space around it, the list, and the sign that ends it.
pub open spec fn directive(
    sign: Seq<char>,
    before: Seq<char>,
    keyword: Seq<char>,
    after: Seq<char>,
    list: Seq<char>,
    end: Seq<char>,
    rest: Seq<char>,
) -> Seq<char> {
    sign + before + keyword + after + list + end + rest
}

/// Whether the parts of a comment that lists prerequisites can be told apart. In a line
/// comment the white space is in one line; the list ends with the comment, with its line
/// or with the text.
pub open spec fn is_directive(
    sign: Seq<char>,
    before: Seq<char>,
    keyword: Seq<char>,
    after: Seq<char>,
    list: Seq<char>,
    end: Seq<char>,
    rest: Seq<char>,
) -> bool {
    &&& sign == "--"@ && is_blank(before) && is_blank(after) || sign == "/*"@ && is_white(before)
        && is_white(after)
    &&& is_keyword(keyword)
    &&& is_plain_list(list)
    &&& end == "\n"@ || end == "*/"@ || end == ""@ && rest == ""@
}

/// A line comment with the keyword but without a list, and what follows it.
pub open spec fn empty_directive(
    before: Seq<char>,
    keyword: Seq<char>,
    after: Seq<char>,
    rest: Seq<char>,
) -> Seq<char> {
    "--"@ + before + keyword + after + "\n"@ + rest
}

/// Whether the parts of such a comment can be told apart.
pub open spec fn is_empty_directive(
    before: Seq<char>,
    keyword: Seq<char>,
    after: Seq<char>,
) -> bool {
    is_blank(before) && is_keyword(keyword) && is_blank(after)
}

/// Whether no comment can begin in `s`.
pub open spec fn has_no_comment_sign(s: Seq<char>) -> bool {
    !s.contains('-') && !s.contains('/')
}

/// Whether no comment that begins in `lead` lists prerequisites, whatever follows: the
/// first character in it that is not white space is another.
pub open spec fn begins_no_directive(lead: Seq<char>) -> bool {
    &&& lead.len() > 0 ==> lead.last() != '-' && lead.last() != '/'
    &&& forall|i: int|
        #![trigger occurs_at(lead, "--"@, i)]
        #![trigger occurs_at(lead, "/*"@, i)]
        occurs_at(lead, "--"@, i) || occurs_at(lead, "/*"@, i) ==> {
            let k = i + 2 + space_run(lead.skip(i + 2));
            k < lead.len() && lead[k] != 'd' && lead[k] != 'D'
        }
}

/// The ASCII letters, digits and the underscore.
pub open spec fn is_ascii_word(c: char) -> bool {
    'a' <= c <= 'z' || 'A' <= c <= 'Z' || is_digit(c) || c == '_'
}

/// The verbs of the statements that are found.
pub open spec fn is_verb(verb: Seq<char>) -> bool {
    verb == "CREATE"@ || verb == "CREATE OR REPLACE"@ || verb == "ALTER"@ || verb == "DROP"@
}

/// A word that modifies the kind of an object, and a blank; or nothing.
pub open spec fn is_modifier(modifier: Seq<char>) -> bool {
    ||| modifier == ""@
    ||| modifier == "TEMP "@
    ||| modifier == "TEMPORARY "@
    ||| modifier == "UNLOGGED "@
    ||| modifier == "RECURSIVE "@
    ||| modifier == "UNIQUE "@
    ||| modifier == "CONSTRAINT "@
}

/// Whether a word before the kind of an object modifies it.
pub open spec fn is_modifying_word(word: Seq<char>) -> bool {
    ||| word == "GLOBAL"@
    ||| word == "LOCAL"@
    ||| word == "TEMPORARY"@
    ||| word == "TEMP"@
    ||| word == "UNLOGGED"@
    ||| word == "RECURSIVE"@
    ||| word == "UNIQUE"@
    ||| word == "CONSTRAINT"@
    ||| word == "TRUSTED"@
    ||| word == "PROCEDURAL"@
}

/// Whether a word can begin a kind of object that has more than one word.
pub open spec fn begins_longer_kind(word: Seq<char>) -> bool {
    ||| word == "MATERIALIZED"@
    ||| word == "FOREIGN"@
    ||| word == "EVENT"@
    ||| word == "ACCESS"@
    ||| word == "OPERATOR"@
    ||| word == "TEXT"@
}

/// Whether a kind of object, before this name, is told apart from other words.
pub open spec fn is_usual_kind(kind: Seq<char>, name: Seq<char>) -> bool {
    ||| kind == "MATERIALIZED VIEW"@
    ||| kind == "FOREIGN TABLE"@
    ||| kind == "OPERATOR"@ && name[0] != 'C' && name[0] != 'c' && name[0] != 'F' && name[0] != 'f'
    ||| {
        &&& kind.len() > 0 && kind != "OR"@
        &&& forall|i: int| 0 <= i < kind.len() ==> 'A' <= #[trigger] kind[i] <= 'Z'
        &&& !is_modifying_word(kind)
        &&& !begins_longer_kind(kind)
    }
}

/// What stands between the kind of an object and its name: a blank, or a condition.
pub open spec fn is_condition(condition: Seq<char>) -> bool {
    ||| condition == " "@
    ||| condition == " IF EXISTS "@
    ||| condition == " IF NOT EXISTS "@
    ||| condition == " ONLY "@
    ||| condition == " IF EXISTS ONLY "@
    ||| condition == " CONCURRENTLY "@
}

/// Whether a name is no word of a condition.
pub open spec fn is_usual_name(name: Seq<char>) -> bool {
    let word = upper_letters(name);
    word != "IF"@ && word != "ONLY"@ && word != "CONCURRENTLY"@ && word != "ON"@
}

/// Whether a name ends where white space, a parenthesis or a comma follows: it holds none
/// of them, or stands between double quotes.
pub open spec fn is_bounded_name(name: Seq<char>) -> bool {
    ||| name.len() > 0 && forall|i: int|
        0 <= i < name.len() ==> !is_space(#[trigger] name[i]) && name[i] != '(' && name[i] != ','
            && name[i] != '"'
    ||| name.len() >= 2 && name[0] == '"' && name.last() == '"' && !name.subrange(
        1,
        name.len() - 1,
    ).contains('"')
}

/// A statement in its usual form: a verb, perhaps a modifier, the kind of object, perhaps
/// a condition, the name, and what follows it.
pub open spec fn usual_statement(
    verb: Seq<char>,
    modifier: Seq<char>,
    kind: Seq<char>,
    condition: Seq<char>,
    name: Seq<char>,
    rest: Seq<char>,
) -> Seq<char> {
    verb + " "@ + modifier + kind + condition + name + rest
}

/// `s` with its ASCII letters in upper case.
pub open spec fn upper_letters(s: Seq<char>) -> Seq<char> {
    s.map_values(|c: char| ascii_upper(c))
}

/// Whether the parts of a statement in its usual form can be told apart. The case of the
/// keywords plays no part.
pub open spec fn is_usual_statement(
    verb: Seq<char>,
    modifier: Seq<char>,
    kind: Seq<char>,
    condition: Seq<char>,
    name: Seq<char>,
    rest: Seq<char>,
) -> bool {
    &&& is_verb(upper_letters(verb))
    &&& is_modifier(upper_letters(modifier))
    &&& is_usual_kind(upper_letters(kind), name)
    &&& is_condition(upper_letters(condition))
    &&& is_bounded_name(name) && is_usual_name(name)
    &&& rest.len() == 0 || is_space(rest[0]) || rest[0] == '(' || rest[0] == ','
}

/// What stands in the parentheses that `rest` begins with, up to the first one that
/// closes.
pub open spec fn parenthesized(rest: Seq<char>) -> Option<Seq<char>> {
    let t = rest.skip(space_run(rest) as int);
    let k = before(t.skip(1), ')') as int;
    if t.len() > 0 && t[0] == '(' && k + 1 < t.len() && !t.subrange(1, k + 1).contains('\n') {
        Some(t.subrange(1, k + 1))
    } else {
        None
    }
}

/// Whether the white space in `s` is single blanks.
pub open spec fn is_single_spaced(s: Seq<char>) -> bool {
    forall|i: int|
        0 <= i < s.len() && is_space(#[trigger] s[i]) ==> s[i] == ' ' && (i + 1 < s.len()
            ==> !is_space(s[i + 1]))
}

/// An ASCII letter in upper case; another character as it is.
pub open spec fn ascii_upper(c: char) -> char {
    if 'a' <= c <= 'z' {
        (c as int - 32) as char
    } else {
        c
    }
}

/// An ASCII letter in lower case; another character as it is.
pub open spec fn ascii_lower(c: char) -> char {
    if 'A' <= c <= 'Z' {
        (c as int + 32) as char
    } else {
        c
    }
}

/// Whether a default value begins with the blank at index `i`.
pub open spec fn default_begins(s: Seq<char>, i: int) -> bool {
    &&& 0 <= i
    &&& i + 2 < s.len()
    &&& s[i] == ' '
    &&& {
        ||| s[i + 1] == '=' && s[i + 2] == ' '
        ||| {
            &&& i + 8 < s.len()
            &&& s.subrange(i + 1, i + 8).map_values(|c: char| ascii_upper(c)) == "DEFAULT"@
            &&& s[i + 8] == ' '
        }
    }
}

/// The index from `i` on at which a default value begins, or the length of `s`.
pub open spec fn before_default(s: Seq<char>, i: int) -> int
    decreases s.len() - i,
{
    if i >= s.len() {
        s.len() as int
    } else if default_begins(s, i) {
        i
    } else {
        before_default(s, i + 1)
    }
}

/// Where the setting of the default version that begins `s` ends.
pub open spec fn entry_end(s: Seq<char>) -> Option<int> {
    let key = "default_version"@;
    let sign: int = key.len() as int + space_run(s.skip(key.len() as int));
    if starts_with(s, key) && sign < s.len() && s[sign] == '=' {
        Some(sign + 1 + before(s.skip(sign + 1), '\n'))
    } else {
        None
    }
}

/// Whether a line of `s` begins a setting of the default version.
pub open spec fn has_entry(s: Seq<char>) -> bool
    decreases s.len(),
{
    let k = before(s, '\n') as int;
    entry_end(s) is Some || k < s.len() && has_entry(s.skip(k + 1))
}

/// `s` with the first setting of the default version replaced.
pub open spec fn with_entry(s: Seq<char>, entry: Seq<char>) -> Seq<char>
    decreases s.len(),
{
    let k = before(s, '\n') as int;
    match entry_end(s) {
        Some(end) => entry + s.skip(end),
        None => if k < s.len() {
            s.take(k + 1) + with_entry(s.skip(k + 1), entry)
        } else {
            s
        },
    }
}

/// Whether a character has a meaning of its own in a pattern.
pub open spec fn is_pattern_sign(c: char) -> bool {
    ||| c == '\\' || c == '.' || c == '+' || c == '*' || c == '?' || c == '(' || c == ')'
    ||| c == '|' || c == '[' || c == ']' || c == '{' || c == '}' || c == '^' || c == '$'
    ||| c == '#' || c == '&' || c == '-' || c == '~'
}

/// The pattern that matches `s` and nothing else.
pub open spec fn escaped(s: Seq<char>) -> Seq<char>
    decreases s.len(),
{
    if s.len() == 0 {
        s
    } else if is_pattern_sign(s.last()) {
        escaped(s.drop_last()).push('\\').push(s.last())
    } else {
        escaped(s.drop_last()).push(s.last())
    }
}

/// The pattern of the names of an extension's upgrade scripts.
pub open spec fn upgrade_pattern(extname: Seq<char>) -> Seq<char> {
    "^"@ + escaped(extname) + UPGRADE_TAIL@
}

/// The last index up to `k`, but not the first, of two dashes in `s` that
/// something follows.
pub open spec fn last_dashes(s: Seq<char>, k: int) -> Option<int>
    decreases k,
{
    if k < 1 {
        None
    } else if occurs_at(s, "--"@, k) && k + 2 < s.len() {
        Some(k)
    } else {
        last_dashes(s, k - 1)
    }
}

/// The version that an upgrade script leads to, by its name: what stands between
/// the last two dashes and the suffix in `<extname>--<old>--<new>.sql`.
pub open spec fn upgrade_target(extname: Seq<char>, name: Seq<char>) -> Option<Seq<char>> {
    let head = extname + "--"@;
    let tail = ".sql"@;
    let versions = name.subrange(head.len() as int, name.len() - tail.len());
    if starts_with(name, head) && ends_with(name, tail) && head.len() + tail.len() <= name.len()
        && !versions.contains('\n') {
        match last_dashes(versions, versions.len() as int) {
            Some(k) => Some(versions.skip(k + 2)),
            None => None,
        }
    } else {
        None
    }
}

// ---------------------------------------------------------------------------
// Searches
// ---------------------------------------------------------------------------

/// Whether `pattern` compiles: it is well formed, and small enough.
pub uninterp spec fn regex_accepts(pattern: Seq<char>) -> bool;

/// The groups of the first match of `pattern` in `text`.
pub uninterp spec fn regex_captures(pattern: Seq<char>, text: Seq<char>) -> Option<
    Seq<Option<Seq<char>>>,
>;

/// The groups of the matches of `pattern` in `text`, from left to right.
pub uninterp spec fn regex_captures_iter(pattern: Seq<char>, text: Seq<char>) -> Seq<
    Seq<Option<Seq<char>>>,
>;

/// The groups of the comments in `text` that list prerequisites: none where the keyword or
/// the signs of a comment are missing.
pub open spec fn directive_matches(text: Seq<char>) -> Seq<Seq<Option<Seq<char>>>> {
    if !has_keyword(text) || has_no_comment_sign(text) {
        seq![]
    } else {
        regex_captures_iter(DEPENDS_ON@, text)
    }
}

/// The characters of words: of ASCII the letters, the digits and the underscore.
pub open spec fn is_word_char(c: char) -> bool {
    if c as u32 <= 0x7F {
        is_ascii_word(c)
    } else {
        regex_captures(WORD_CHARACTER@, seq![c]) is Some
    }
}

/// `text` with `replacement` for the first match of `pattern`.
pub uninterp spec fn regex_replaced(
    pattern: Seq<char>,
    text: Seq<char>,
    replacement: Seq<char>,
) -> Seq<char>;

/// `regex::Regex::new` and then `regex::Regex::captures`: the groups of the leftmost
/// match, or nothing where the pattern does not compile. Claimed beside that: the
/// fixed patterns compile, and so does the pattern for the upgrade scripts of an
/// extension whose name is no longer than PostgreSQL allows; the number prefix is
/// found where ASCII digits and a dot begin the text, and what it captures begins
/// the text, ends before a dot and has only digits among its ASCII characters; the
/// pattern for statements has four groups, the first three take part in every match,
/// the first is one of the verbs, and in a statement of the usual form, whatever the case
/// of its keywords, they are its parts; the pattern for the characters of words finds the
/// ASCII letters, digits and the underscore, and no other ASCII character; the pattern for
/// upgrade scripts captures the target version.
#[verifier::external_body]
pub(crate) fn captures(pattern: &str, text: &str) -> (r: Option<Option<Vec<Option<String>>>>)
    ensures
        r is Some <==> regex_accepts(pattern@),
        r matches Some(found) ==> found_texts(found) == regex_captures(pattern@, text@),
        is_fixed_pattern(pattern@) ==> r is Some,
        forall|extname: Seq<char>|
            extname.len() <= 63 && #[trigger] upgrade_pattern(extname) == pattern@ ==> r is Some,
        r matches Some(found) ==> pattern@ == NUMBER_PREFIX@ && has_number_prefix(text@)
            ==> found_texts(found) == Some(
            seq![
                Some(text@.take(digit_run(text@) as int + 1)),
                Some(text@.take(digit_run(text@) as int)),
            ],
        ),
        r matches Some(found) ==> pattern@ == NUMBER_PREFIX@ ==> (found_texts(found) matches Some(
            groups,
        ) ==> groups.len() == 2 && (groups[1] matches Some(number) && is_number_group(
            text@,
            number,
        ))),
        r matches Some(found) ==> pattern@ == WORD_CHARACTER@ && text@.len() == 1
            && text@[0] as u32 <= 0x7F ==> (found is Some <==> is_ascii_word(text@[0])),
        r matches Some(found) ==> pattern@ == STATEMENT@ ==> (found_texts(found) matches Some(
            groups,
        ) ==> groups.len() == 5 && groups[1] is Some && groups[2] is Some && groups[3] is Some
            && is_verb(upper_letters(single_spaced(groups[1]->0)))),
        r matches Some(found) ==> pattern@ == STATEMENT@ ==> forall|
            verb: Seq<char>,
            modifier: Seq<char>,
            kind: Seq<char>,
            condition: Seq<char>,
            name: Seq<char>,
            rest: Seq<char>,
        |
            text@ == #[trigger] usual_statement(verb, modifier, kind, condition, name, rest)
                && is_usual_statement(verb, modifier, kind, condition, name, rest) ==> (found_texts(
                found,
            ) matches Some(groups) && groups.skip(1) == seq![
                Some(verb),
                Some(kind),
                Some(name),
                parenthesized(rest),
            ]),
        r matches Some(found) ==> forall|extname: Seq<char>| #[trigger]
            upgrade_pattern(extname) == pattern@ ==> found_texts(found) == match upgrade_target(
                extname,
                text@,
            ) {
                Some(target) => Some(seq![Some(text@), Some(target)]),
                None => None,
            },
{
    match regex::Regex::new(pattern) {
        Ok(re) => Some(
            re.captures(text).map(
                |groups| groups.iter().map(|g| g.map(|m| m.as_str().to_string())).collect(),
            ),
        ),
        Err(_) => None,
    }
}

/// `regex::Regex::captures_iter`, with one of the fixed patterns: the groups of the
/// matches, from left to right. Claimed beside that of comments that list
/// prerequisites: what is captured is not empty, and holds neither a line break nor
/// an asterisk; such a comment at the beginning of a text is found, whatever the case of
/// its keyword, and the search goes on after it; one without a list gives at most a
/// blank; in text without the keyword or without the signs of a comment, and among
/// comments that begin otherwise, nothing is found.
#[verifier::external_body]
pub(crate) fn captures_iter(pattern: &str, text: &str) -> (r: Vec<Vec<Option<String>>>)
    requires
        is_fixed_pattern(pattern@),
    ensures
        all_group_texts(r@) == regex_captures_iter(pattern@, text@),
        pattern@ == DEPENDS_ON@ ==> forall|i: int|
            0 <= i < r@.len() ==> (#[trigger] all_group_texts(r@)[i]).len() == 2 && (
            all_group_texts(r@)[i][1] matches Some(list) && list.len() > 0 && !list.contains('\n')
                && !list.contains('*')),
        pattern@ == DEPENDS_ON@ && has_no_comment_sign(text@) ==> r@.len() == 0,
        pattern@ == DEPENDS_ON@ && !has_keyword(text@) ==> r@.len() == 0,
        pattern@ == DEPENDS_ON@ ==> forall|
            before: Seq<char>,
            keyword: Seq<char>,
            after: Seq<char>,
            rest: Seq<char>,
        |
            text@ == #[trigger] empty_directive(before, keyword, after, rest)
                && is_empty_directive(before, keyword, after) ==> all_group_texts(r@) == (
            if after.len() == 0 {
                seq![]
            } else {
                seq![
                    seq![
                        Some("--"@ + before + keyword + after + "\n"@),
                        Some(seq![after.last()]),
                    ],
                ]
            }) + directive_matches(rest),
        pattern@ == DEPENDS_ON@ ==> forall|lead: Seq<char>, rest: Seq<char>|
            text@ == #[trigger] (lead + rest) && begins_no_directive(lead) ==> all_group_texts(r@)
                == directive_matches(rest),
        pattern@ == DEPENDS_ON@ ==> forall|
            sign: Seq<char>,
            before: Seq<char>,
            keyword: Seq<char>,
            after: Seq<char>,
            list: Seq<char>,
            end: Seq<char>,
            rest: Seq<char>,
        |
            text@ == #[trigger] directive(sign, before, keyword, after, list, end, rest)
                && is_directive(sign, before, keyword, after, list, end, rest)
                ==> all_group_texts(r@) == seq![
                seq![Some(sign + before + keyword + after + list + end), Some(list)],
            ] + directive_matches(rest),
{
    let re = regex::Regex::new(pattern).unwrap();
    re.captures_iter(text).map(
        |groups| groups.iter().map(|g| g.map(|m| m.as_str().to_string())).collect(),
    ).collect()
}

/// `regex::Regex::replace`, with one of the fixed patterns, and the replacement taken
/// literally (`regex::NoExpand`). Claimed beside that: where the white space of an argument
/// is single blanks, its default value goes with everything after it; the replacement takes
/// the place of the first setting of the default version.
#[verifier::external_body]
pub(crate) fn replace(pattern: &str, text: &str, replacement: &str) -> (r: String)
    requires
        is_fixed_pattern(pattern@),
    ensures
        r@ == regex_replaced(pattern@, text@, replacement@),
        pattern@ == DEFAULT_VALUE@ && replacement@ == ""@ && is_single_spaced(text@) ==> r@
            == text@.take(before_default(text@, 0)),
        pattern@ == DEFAULT_VERSION@ ==> r@ == with_entry(text@, replacement@),
{
    regex::Regex::new(pattern).unwrap().replace(text, regex::NoExpand(replacement)).to_string()
}

/// `regex::Regex::is_match`, with the pattern for the default version: whether a control
/// file sets it.
#[verifier::external_body]
pub(crate) fn is_match(pattern: &str, text: &str) -> (r: bool)
    requires
        pattern@ == DEFAULT_VERSION@,
    ensures
        r == has_entry(text@),
{
    regex::Regex::new(pattern).unwrap().is_match(text)
}

/// `regex::escape` puts a backslash before each character with a meaning of its own.
pub assume_specification[ regex::escape ](pattern: &str) -> (r: String)
    ensures
        r@ == escaped(pattern@),
;

// ---------------------------------------------------------------------------
// Letter case
// ---------------------------------------------------------------------------

/// Whether `s` is made of ASCII characters.
pub open spec fn is_ascii_text(s: Seq<char>) -> bool {
    forall|i: int| 0 <= i < s.len() ==> (#[trigger] s[i]) as u32 <= 0x7F
}

/// `s` in upper case, by Unicode's rules.
pub uninterp spec fn uppercased(s: Seq<char>) -> Seq<char>;

/// `s` in lower case, by Unicode's rules.
pub uninterp spec fn lowercased(s: Seq<char>) -> Seq<char>;

/// `s` in upper case: of ASCII text the letters `a` to `z` change.
pub open spec fn upper_text(s: Seq<char>) -> Seq<char> {
    if is_ascii_text(s) {
        s.map_values(|c: char| ascii_upper(c))
    } else {
        uppercased(s)
    }
}

/// `s` in lower case: of ASCII text the letters `A` to `Z` change.
pub open spec fn lower_text(s: Seq<char>) -> Seq<char> {
    if is_ascii_text(s) {
        s.map_values(|c: char| ascii_lower(c))
    } else {
        lowercased(s)
    }
}

/// `str::to_uppercase` maps a text to upper case by Unicode's rules. Of ASCII text it
/// changes the letters `a` to `z`.
pub assume_specification[ str::to_uppercase ](s: &str) -> (r: String)
    ensures
        r@ == uppercased(s@),
        is_ascii_text(s@) ==> r@ == s@.map_values(|c: char| ascii_upper(c)),
;

/// `str::to_lowercase` maps a text to lower case by Unicode's rules. Of ASCII text it
/// changes the letters `A` to `Z`.
pub assume_specification[ str::to_lowercase ](s: &str) -> (r: String)
    ensures
        r@ == lowercased(s@),
        is_ascii_text(s@) ==> r@ == s@.map_values(|c: char| ascii_lower(c)),
;

// ---------------------------------------------------------------------------
// Laws
// ---------------------------------------------------------------------------

/// The patterns are these: what is claimed of the searches is claimed of them.
pub proof fn law_patterns()
    ensures
        NUMBER_PREFIX@ == r"^(\d+)\."@,
        DEPENDS_ON@
            == r"(?i)(?:--[^\S\n]*depends-on:[^\S\n]*|/\*\s*depends-on:\s*)([^\n*]+?)(?:\*/|\n|$)"@,
        WORD_CHARACTER@ == r"^\w"@,
        STATEMENT@
            == r#"(?i)^(CREATE(?:\s+OR\s+REPLACE)?|ALTER|DROP)\s+(?:(?:GLOBAL|LOCAL|TEMPORARY|TEMP|UNLOGGED|RECURSIVE|UNIQUE|CONSTRAINT|TRUSTED|PROCEDURAL)\s+)*(MATERIALIZED\s+VIEW|FOREIGN\s+TABLE|FOREIGN\s+DATA\s+WRAPPER|EVENT\s+TRIGGER|ACCESS\s+METHOD|OPERATOR\s+CLASS|OPERATOR\s+FAMILY|TEXT\s+SEARCH\s+[A-Z]+|[A-Z]+)\s+(?:CONCURRENTLY\s+)?(?:IF\s+(?:NOT\s+)?EXISTS\s+)?(?:ONLY\s+)?((?:"[^"]*"|[^\s(,])+)(?:\s*\((.*?)\))?"#@,
        DEFAULT_VALUE@ == r"(?i)\s+(DEFAULT|=)\s+.*$"@,
        DEFAULT_VERSION@ == r"(?m)^default_version\s*=.*$"@,
        UPGRADE_TAIL@ == r"--.+--(.+)\.sql$"@,
{
}

/// The two cases of an ASCII letter are thirty-two apart; other characters have none.
pub proof fn law_letter_case(s: Seq<char>, i: int)
    requires
        0 <= i < s.len(),
    ensures
        upper_letters(s).len() == s.len(),
        upper_letters(s)[i] as int == (if 0x61 <= s[i] as int <= 0x7A {
            s[i] as int - 32
        } else {
            s[i] as int
        }),
        (forall|k: int| 0 <= k < s.len() ==> (#[trigger] s[k]) as u32 <= 0x7F) ==> {
            &&& upper_text(s) == upper_letters(s)
            &&& lower_text(s).len() == s.len()
            &&& lower_text(s)[i] as int == (if 0x41 <= s[i] as int <= 0x5A {
                s[i] as int + 32
            } else {
                s[i] as int
            })
        },
{
    if forall|k: int| 0 <= k < s.len() ==> (#[trigger] s[k]) as u32 <= 0x7F {
        assert(is_ascii_text(s));
    }
}

/// What is in parentheses goes from the first that opens, before which only white space
/// stands, to the first that closes.
pub proof fn law_parenthesized(gap: Seq<char>, inner: Seq<char>, more: Seq<char>)
    requires
        forall|k: int| 0 <= k < gap.len() ==> is_space(#[trigger] gap[k]),
        !inner.contains(')'),
        !inner.contains('\n'),
    ensures
        parenthesized(gap + seq!['('] + inner + seq![')'] + more) == Some(inner),
        more.len() == 0 || (!is_space(more[0]) && more[0] != '(') ==> parenthesized(gap + more)
            is None,
{
    let rest = gap + seq!['('] + inner + seq![')'] + more;
    lemma_gap(rest, gap.len() as int);
    let t = rest.skip(gap.len() as int);
    assert(t =~= seq!['('] + inner + seq![')'] + more);
    let u = t.skip(1);
    assert forall|j: int| 0 <= j < inner.len() implies u[j] != ')' by {
        assert(u[j] == inner[j]);
        assert(inner.contains(inner[j]));
    }
    lemma_before(u, ')', inner.len() as int);
    assert(t.subrange(1, inner.len() as int + 1) =~= inner);
    if more.len() == 0 || (!is_space(more[0]) && more[0] != '(') {
        lemma_gap(gap + more, gap.len() as int);
    }
}

/// White space is counted up to what follows it.
pub proof fn lemma_gap(s: Seq<char>, n: int)
    requires
        0 <= n <= s.len(),
        forall|k: int| 0 <= k < n ==> is_space(#[trigger] s[k]),
        n < s.len() ==> !is_space(s[n]),
    ensures
        space_run(s) == n,
{
    lemma_space_run(s);
    let b = space_run(s) as int;
    if b < n {
        assert(is_space(s[b]));
    }
    if n < b {
        assert(is_space(s[n]));
    }
}

/// What a default value takes away goes from a blank before the word or the sign to the end:
/// what stands before the first such blank is left.
pub proof fn law_default_values(lead: Seq<char>, sign: Seq<char>, value: Seq<char>)
    requires
        upper_letters(sign) == "DEFAULT"@ || sign == "="@,
        forall|i: int|
            0 <= i < lead.len() ==> !#[trigger] default_begins(
                lead + seq![' '] + sign + seq![' '] + value,
                i,
            ),
    ensures
        before_default(lead + seq![' '] + sign + seq![' '] + value, 0) == lead.len(),
{
    reveal_strlit("DEFAULT");
    reveal_strlit("=");
    let s = lead + seq![' '] + sign + seq![' '] + value;
    let n = lead.len() as int;
    assert(sign.len() == upper_letters(sign).len());
    assert(s[n] == ' ');
    if sign == "="@ {
        assert(s[n + 1] == sign[0] && s[n + 2] == ' ');
    } else {
        assert(s.subrange(n + 1, n + 8) =~= sign);
        assert(s[n + 8] == ' ');
    }
    assert(default_begins(s, n));
    lemma_before_default(s, 0, n);
}

proof fn lemma_before_default(s: Seq<char>, i: int, n: int)
    requires
        0 <= i <= n < s.len(),
        forall|k: int| i <= k < n ==> !#[trigger] default_begins(s, k),
        default_begins(s, n),
    ensures
        before_default(s, i) == n,
    decreases n - i,
{
    if i < n {
        lemma_before_default(s, i + 1, n);
    }
}

/// A setting of the default version is a line that begins with its key, perhaps white space,
/// and an equals sign.
pub proof fn law_settings(lead: Seq<char>, gap: Seq<char>, value: Seq<char>, rest: Seq<char>)
    requires
        lead.len() == 0 || lead.last() == '\n',
        forall|k: int| 0 <= k < gap.len() ==> is_space(#[trigger] gap[k]),
        !value.contains('\n'),
        rest.len() == 0 || rest[0] == '\n',
    ensures
        has_entry(lead + ("default_version"@ + gap + "="@ + value + rest)),
        entry_end("default_version"@ + gap + "="@ + value + rest) == Some(
            ("default_version"@ + gap + "="@ + value).len() as int,
        ),
    decreases lead.len(),
{
    reveal_strlit("default_version");
    reveal_strlit("=");
    let key = "default_version"@;
    let line = key + gap + "="@ + value + rest;
    let n = key.len() as int;
    let after = line.skip(n);
    assert(line.take(n) =~= key);
    assert(after =~= gap + "="@ + value + rest);
    assert(after[gap.len() as int] == '=');
    lemma_gap(after, gap.len() as int);
    let sign = n + gap.len();
    assert(line[sign] == '=');
    let tail = line.skip(sign + 1);
    assert(tail =~= value + rest);
    assert forall|j: int| 0 <= j < value.len() implies tail[j] != '\n' by {
        assert(tail[j] == value[j]);
        assert(value.contains(value[j]));
    }
    if value.len() < tail.len() {
        assert(tail[value.len() as int] == rest[0]);
    }
    lemma_before(tail, '\n', value.len() as int);
    let s = lead + line;
    if lead.len() == 0 {
        assert(s =~= line);
    } else {
        lemma_before_bound(s, '\n');
        let k = before(s, '\n') as int;
        if k >= lead.len() {
            assert(s[lead.len() - 1] == lead.last());
        }
        let more = lead.skip(k + 1);
        assert(s.skip(k + 1) =~= more + line);
        if more.len() > 0 {
            assert(more.last() == lead.last());
        }
        law_settings(more, gap, value, rest);
    }
}

/// Where a text has a setting of the default version, one of its lines is one.
pub proof fn law_only_settings(s: Seq<char>) -> (r: (Seq<char>, Seq<char>, Seq<char>))
    requires
        has_entry(s),
    ensures
        s == r.0 + ("default_version"@ + r.1 + "="@ + r.2),
        r.0.len() == 0 || r.0.last() == '\n',
        forall|k: int| 0 <= k < r.1.len() ==> is_space(#[trigger] (r.1)[k]),
    decreases s.len(),
{
    reveal_strlit("default_version");
    reveal_strlit("=");
    let key = "default_version"@;
    let n = key.len() as int;
    if entry_end(s) is Some {
        let after = s.skip(n);
        lemma_space_run(after);
        let m = space_run(after) as int;
        let gap = after.take(m);
        let rest = s.skip(n + m + 1);
        assert forall|k: int| 0 <= k < gap.len() implies is_space(#[trigger] gap[k]) by {
            assert(gap[k] == after[k]);
        }
        assert(s =~= s.take(n) + (gap + "="@ + rest));
        assert(s =~= seq![] + (key + gap + "="@ + rest));
        (seq![], gap, rest)
    } else {
        let k = before(s, '\n') as int;
        lemma_before_bound(s, '\n');
        let (lead, gap, rest) = law_only_settings(s.skip(k + 1));
        let all = s.take(k + 1) + lead;
        assert(s =~= s.take(k + 1) + s.skip(k + 1));
        assert(s =~= all + (key + gap + "="@ + rest));
        assert(s.take(k + 1).last() == '\n');
        (all, gap, rest)
    }
}

}
