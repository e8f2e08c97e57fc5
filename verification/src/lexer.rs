//! SQL text without comments, and its pieces between semicolons that are not quoted.

use vstd::prelude::*;
use vstd::string::*;
use crate::pattern::{captures, is_word_char, WORD_CHARACTER};
use crate::text::{
    before, chars_of, contains_text, copy_range, extend_chars, find_char, is_digit, join,
    law_join_first, lemma_before_bound, occurs_at, rows, split, starts_with, string_of,
};

verus! {

// ---------------------------------------------------------------------------
// Words and quotes
// ---------------------------------------------------------------------------

/// The characters of identifiers: ASCII letters and digits, the underscore, and what is
/// beyond ASCII.
pub open spec fn is_identifier_char(c: char) -> bool {
    ||| 'a' <= c <= 'z'
    ||| 'A' <= c <= 'Z'
    ||| is_digit(c)
    ||| c == '_'
    ||| c as u32 > 0x7F
}

/// The number of leading identifier characters. In a word that goes on, dollar signs count
/// too.
pub open spec fn identifier_run(s: Seq<char>, with_dollars: bool) -> nat
    decreases s.len(),
{
    if s.len() > 0 && (is_identifier_char(s[0]) || with_dollars && s[0] == '$') {
        1 + identifier_run(s.skip(1), with_dollars)
    } else {
        0
    }
}

/// The index of the first `p` in `s`, or the length of `s`.
pub open spec fn before_text(s: Seq<char>, p: Seq<char>) -> nat
    decreases s.len(),
{
    if s.len() == 0 || starts_with(s, p) {
        0
    } else {
        1 + before_text(s.skip(1), p)
    }
}

/// The length of the delimiter of a dollar-quoted text that begins `s`: a dollar sign, a tag
/// that may be empty and does not begin with a digit, and a dollar sign.
pub open spec fn delimiter_len(s: Seq<char>) -> Option<int> {
    let k = identifier_run(s.skip(1), false) as int;
    if s.len() > 0 && s[0] == '$' && k + 1 < s.len() && s[k + 1] == '$' && !is_digit(s[1]) {
        Some(k + 2)
    } else {
        None
    }
}

/// The number of characters before the quote that ends an escape string, or all of them: a
/// backslash takes the next character along, and a quote another quote.
pub open spec fn before_unescaped(s: Seq<char>) -> nat
    decreases s.len(),
{
    if s.len() == 0 {
        0
    } else if s.len() > 1 && (s[0] == '\\' || s[0] == '\'' && s[1] == '\'') {
        2 + before_unescaped(s.skip(2))
    } else if s[0] == '\'' {
        0
    } else {
        1 + before_unescaped(s.skip(1))
    }
}

/// The length of a text between two `q` that begins `s`.
pub open spec fn quoted_len(s: Seq<char>, q: char) -> Option<int> {
    let k = before(s.skip(1), q) as int;
    if s.len() > 0 && s[0] == q && k + 1 < s.len() {
        Some(k + 2)
    } else {
        None
    }
}

/// The length of an escape string that begins `s`: a lone E before a quote, and what it
/// quotes.
pub open spec fn escape_string_len(s: Seq<char>) -> Option<int> {
    let k = before_unescaped(s.skip(2)) as int;
    if s.len() > 1 && (s[0] == 'E' || s[0] == 'e') && s[1] == '\'' && k + 2 < s.len() {
        Some(k + 3)
    } else {
        None
    }
}

/// The length of a dollar-quoted text that begins `s`.
pub open spec fn dollar_quoted_len(s: Seq<char>) -> Option<int> {
    match delimiter_len(s) {
        Some(d) => {
            let k = before_text(s.skip(d), s.take(d)) as int;
            if d + k < s.len() {
                Some(d + k + d)
            } else {
                None
            }
        },
        None => None,
    }
}

/// The length of a quoted text that begins `s`. What does not end is not quoted.
pub open spec fn quotation_len(s: Seq<char>) -> Option<int> {
    if quoted_len(s, '\'') is Some {
        quoted_len(s, '\'')
    } else if quoted_len(s, '"') is Some {
        quoted_len(s, '"')
    } else if escape_string_len(s) is Some {
        escape_string_len(s)
    } else {
        dollar_quoted_len(s)
    }
}

/// The length of what begins `s` and belongs together: a quoted text, a word, or one
/// character.
pub open spec fn unit_len(s: Seq<char>) -> int {
    match quotation_len(s) {
        Some(n) => n,
        None => if is_identifier_char(s[0]) {
            1 + identifier_run(s.skip(1), true) as int
        } else {
            1
        },
    }
}

/// A run of identifier characters ends where it ends.
pub proof fn lemma_identifier_run(s: Seq<char>, with_dollars: bool)
    ensures
        identifier_run(s, with_dollars) <= s.len(),
        forall|k: int|
            0 <= k < identifier_run(s, with_dollars) ==> is_identifier_char(#[trigger] s[k])
                || with_dollars && s[k] == '$',
        identifier_run(s, with_dollars) < s.len() ==> {
            let c = s[identifier_run(s, with_dollars) as int];
            !is_identifier_char(c) && !(with_dollars && c == '$')
        },
    decreases s.len(),
{
    if s.len() > 0 && (is_identifier_char(s[0]) || with_dollars && s[0] == '$') {
        lemma_identifier_run(s.skip(1), with_dollars);
        assert forall|k: int| 0 <= k < identifier_run(s, with_dollars) implies is_identifier_char(
            #[trigger] s[k],
        ) || with_dollars && s[k] == '$' by {
            if k > 0 {
                assert(s[k] == s.skip(1)[k - 1]);
            }
        }
    }
}

/// The first `p` has room for all its characters.
pub proof fn lemma_before_text(s: Seq<char>, p: Seq<char>)
    requires
        p.len() > 0,
    ensures
        before_text(s, p) <= s.len(),
        before_text(s, p) < s.len() ==> before_text(s, p) + p.len() <= s.len(),
    decreases s.len(),
{
    if s.len() > 0 && !starts_with(s, p) {
        lemma_before_text(s.skip(1), p);
    }
}

/// The end of an escape string is in the text.
pub proof fn lemma_before_unescaped(s: Seq<char>)
    ensures
        before_unescaped(s) <= s.len(),
    decreases s.len(),
{
    if s.len() > 1 && (s[0] == '\\' || s[0] == '\'' && s[1] == '\'') {
        lemma_before_unescaped(s.skip(2));
    } else if s.len() > 0 && s[0] != '\'' {
        lemma_before_unescaped(s.skip(1));
    }
}

/// What belongs together has a character, and no more than there are.
pub proof fn lemma_unit_len(s: Seq<char>)
    requires
        s.len() > 0,
    ensures
        1 <= unit_len(s) <= s.len(),
{
    lemma_before_bound(s.skip(1), '\'');
    lemma_before_bound(s.skip(1), '"');
    lemma_identifier_run(s.skip(1), true);
    lemma_identifier_run(s.skip(1), false);
    if delimiter_len(s) is Some {
        let d = delimiter_len(s)->0;
        lemma_before_text(s.skip(d), s.take(d));
    }
}

// ---------------------------------------------------------------------------
// Comments
// ---------------------------------------------------------------------------

/// The length of a comment that begins `s`, or of a command of the interactive terminal,
/// which goes on to the end of its line. A block comment that does not end is none.
pub open spec fn comment_len(s: Seq<char>) -> int {
    let block = before_text(s.skip(2), "*/"@) as int;
    if starts_with(s, "--"@) {
        2 + before(s.skip(2), '\n') as int
    } else if starts_with(s, "/*"@) && block + 2 < s.len() {
        block + 4
    } else if s.len() > 1 && s[0] == '\\' && is_word_char(s[1]) {
        1 + before(s.skip(1), '\n') as int
    } else {
        0
    }
}

/// Whether `s` would go on with a word that stood directly before it, or with a quote that
/// the word marks.
pub open spec fn continues_word(s: Seq<char>) -> bool {
    s.len() > 0 && (is_identifier_char(s[0]) || s[0] == '$' || s[0] == '\'')
}

/// Whether what begins `s` and belongs together is a word, or ends like one.
pub open spec fn begins_with_word(s: Seq<char>) -> bool {
    let last = s[unit_len(s) - 1];
    quotation_len(s) is None && (is_identifier_char(last) || last == '$')
}

/// A comment has no more characters than there are.
pub proof fn lemma_comment_len(s: Seq<char>)
    ensures
        0 <= comment_len(s) <= s.len(),
{
    reveal_strlit("--");
    reveal_strlit("/*");
    reveal_strlit("*/");
    if s.len() > 1 {
        lemma_before_bound(s.skip(2), '\n');
        lemma_before_bound(s.skip(1), '\n');
        lemma_before_text(s.skip(2), "*/"@);
    }
}

/// `s` without comments and without commands of the interactive terminal. What is quoted is
/// kept. A comment between two words leaves a blank; `after_word` tells whether a word stands
/// before `s`.
pub open spec fn stripped_after(after_word: bool, s: Seq<char>) -> Seq<char>
    decreases s.len(),
{
    if s.len() == 0 {
        s
    } else {
        proof {
            lemma_comment_len(s);
            lemma_unit_len(s);
        }
        let rest = s.skip(comment_len(s));
        if comment_len(s) > 0 && after_word && continues_word(rest) {
            seq![' '] + stripped_after(false, rest)
        } else if comment_len(s) > 0 {
            stripped_after(after_word, rest)
        } else {
            s.take(unit_len(s)) + stripped_after(begins_with_word(s), s.skip(unit_len(s)))
        }
    }
}

/// A text without comments and without commands of the interactive terminal.
pub open spec fn stripped_content(s: Seq<char>) -> Seq<char> {
    stripped_after(false, s)
}

// ---------------------------------------------------------------------------
// Pieces
// ---------------------------------------------------------------------------

/// The number of characters before the first semicolon that is not quoted, or all of them.
pub open spec fn top_level_len(s: Seq<char>) -> int
    decreases s.len(),
{
    if s.len() == 0 || s[0] == ';' {
        0
    } else {
        proof {
            lemma_unit_len(s);
        }
        unit_len(s) + top_level_len(s.skip(unit_len(s)))
    }
}

/// The first semicolon that is not quoted is in the text.
pub proof fn lemma_top_level_len(s: Seq<char>)
    ensures
        0 <= top_level_len(s) <= s.len(),
    decreases s.len(),
{
    if s.len() > 0 && s[0] != ';' {
        lemma_unit_len(s);
        lemma_top_level_len(s.skip(unit_len(s)));
    }
}

/// The pieces of `s` between the semicolons that are not quoted.
pub open spec fn split_top_level(s: Seq<char>) -> Seq<Seq<char>>
    decreases s.len(),
{
    let k = top_level_len(s);
    proof {
        lemma_top_level_len(s);
    }
    if k >= s.len() {
        seq![s]
    } else {
        seq![s.take(k)] + split_top_level(s.skip(k + 1))
    }
}

// ---------------------------------------------------------------------------
// The operations
// ---------------------------------------------------------------------------

/// Tells whether a character can be in an identifier.
fn identifier_char(c: char) -> (r: bool)
    ensures
        r == is_identifier_char(c),
{
    ('a' <= c && c <= 'z') || ('A' <= c && c <= 'Z') || ('0' <= c && c <= '9') || c == '_' || c as u32
        > 0x7F
}

/// Where the identifier characters from `from` on end.
fn identifier_end(s: &[char], from: usize, with_dollars: bool) -> (r: usize)
    requires
        from <= s@.len(),
    ensures
        from <= r <= s@.len(),
        r == from + identifier_run(s@.skip(from as int), with_dollars),
{
    let mut i: usize = from;
    while i < s.len() && (identifier_char(s[i]) || (with_dollars && s[i] == '$'))
        invariant
            from <= i <= s@.len(),
            identifier_run(s@.skip(from as int), with_dollars) == (i - from) + identifier_run(
                s@.skip(i as int),
                with_dollars,
            ),
        decreases s@.len() - i,
    {
        assert(s@.skip(i as int)[0] == s@[i as int]);
        assert(s@.skip(i as int).skip(1) =~= s@.skip(i + 1));
        i += 1;
    }
    proof {
        if i < s@.len() {
            assert(s@.skip(i as int)[0] == s@[i as int]);
        }
    }
    i
}

/// Tells whether `p` stands at index `i`.
fn stands_at(s: &[char], p: &[char], i: usize) -> (r: bool)
    requires
        i <= s@.len(),
    ensures
        r == starts_with(s@.skip(i as int), p@),
{
    let ghost rest = s@.skip(i as int);
    if p.len() > s.len() - i {
        return false;
    }
    let mut k: usize = 0;
    while k < p.len()
        invariant
            rest == s@.skip(i as int),
            i + p.len() <= s.len(),
            k <= p@.len(),
            forall|j: int| 0 <= j < k ==> rest[j] == p@[j],
        decreases p@.len() - k,
    {
        assert(rest[k as int] == s@[i + k]);
        if s[i + k] != p[k] {
            assert(rest.take(p@.len() as int)[k as int] == rest[k as int]);
            return false;
        }
        k += 1;
    }
    assert(rest.take(p@.len() as int) =~= p@);
    true
}

/// The index of the first `p` from `from` on, or the length.
fn find_text(s: &[char], p: &[char], from: usize) -> (r: usize)
    requires
        from <= s@.len(),
    ensures
        from <= r <= s@.len(),
        r == from + before_text(s@.skip(from as int), p@),
{
    let mut i: usize = from;
    while i < s.len() && !stands_at(s, p, i)
        invariant
            from <= i <= s@.len(),
            before_text(s@.skip(from as int), p@) == (i - from) + before_text(
                s@.skip(i as int),
                p@,
            ),
        decreases s@.len() - i,
    {
        assert(s@.skip(i as int).skip(1) =~= s@.skip(i + 1));
        i += 1;
    }
    i
}

/// The length of the delimiter at index `i`.
fn find_delimiter(s: &[char], i: usize) -> (r: Option<usize>)
    requires
        i < s@.len(),
    ensures
        match r {
            Some(d) => delimiter_len(s@.skip(i as int)) == Some(d as int) && i + d <= s@.len(),
            None => delimiter_len(s@.skip(i as int)) is None,
        },
{
    let ghost rest = s@.skip(i as int);
    assert(rest[0] == s@[i as int]);
    if s[i] != '$' {
        return None;
    }
    let end = identifier_end(s, i + 1, false);
    assert(rest.skip(1) =~= s@.skip(i + 1));
    if end < s.len() && s[end] == '$' {
        assert(rest[end - i] == s@[end as int]);
        assert(rest[1] == s@[i + 1]);
        if !('0' <= s[i + 1] && s[i + 1] <= '9') {
            return Some(end + 1 - i);
        }
    } else if end < s.len() {
        assert(rest[end - i] == s@[end as int]);
    }
    None
}

/// The end of the text between two `q` that begins at index `i`.
fn quoted_end(s: &[char], i: usize, q: char) -> (r: Option<usize>)
    requires
        i < s@.len(),
    ensures
        match r {
            Some(end) => i < end <= s@.len() && quoted_len(s@.skip(i as int), q) == Some(end - i),
            None => quoted_len(s@.skip(i as int), q) is None,
        },
{
    let ghost rest = s@.skip(i as int);
    assert(rest[0] == s@[i as int]);
    if s[i] != q {
        return None;
    }
    let end = find_char(s, q, i + 1);
    assert(rest.skip(1) =~= s@.skip(i + 1));
    if end < s.len() {
        Some(end + 1)
    } else {
        None
    }
}

/// The index of the quote that ends an escape string, from `from` on, or the length.
fn find_unescaped(s: &[char], from: usize) -> (r: usize)
    requires
        from <= s@.len(),
    ensures
        from <= r <= s@.len(),
        r == from + before_unescaped(s@.skip(from as int)),
{
    let mut i: usize = from;
    while i < s.len()
        invariant
            from <= i <= s@.len(),
            before_unescaped(s@.skip(from as int)) == (i - from) + before_unescaped(
                s@.skip(i as int),
            ),
        decreases s@.len() - i,
    {
        let ghost rest = s@.skip(i as int);
        proof {
            assert(rest[0] == s@[i as int]);
            assert(rest.skip(1) =~= s@.skip(i + 1));
            if i + 1 < s@.len() {
                assert(rest[1] == s@[i + 1]);
                assert(rest.skip(2) =~= s@.skip(i + 2));
            }
        }
        if i + 1 < s.len() && (s[i] == '\\' || (s[i] == '\'' && s[i + 1] == '\'')) {
            i += 2;
        } else if s[i] == '\'' {
            return i;
        } else {
            i += 1;
        }
    }
    assert(s@.skip(i as int).len() == 0);
    i
}

/// The end of the escape string that begins at index `i`.
fn escape_string_end(s: &[char], i: usize) -> (r: Option<usize>)
    requires
        i < s@.len(),
    ensures
        match r {
            Some(end) => i < end <= s@.len() && escape_string_len(s@.skip(i as int)) == Some(
                end - i,
            ),
            None => escape_string_len(s@.skip(i as int)) is None,
        },
{
    let ghost rest = s@.skip(i as int);
    assert(rest[0] == s@[i as int]);
    if s.len() - i < 2 || (s[i] != 'E' && s[i] != 'e') {
        return None;
    }
    assert(rest[1] == s@[i + 1]);
    if s[i + 1] != '\'' {
        return None;
    }
    let end = find_unescaped(s, i + 2);
    assert(rest.skip(2) =~= s@.skip(i + 2));
    if end < s.len() {
        Some(end + 1)
    } else {
        None
    }
}

/// The end of the dollar-quoted text that begins at index `i`.
fn dollar_quoted_end(s: &[char], i: usize) -> (r: Option<usize>)
    requires
        i < s@.len(),
    ensures
        match r {
            Some(end) => i < end <= s@.len() && dollar_quoted_len(s@.skip(i as int)) == Some(
                end - i,
            ),
            None => dollar_quoted_len(s@.skip(i as int)) is None,
        },
{
    let ghost rest = s@.skip(i as int);
    let len = s.len();
    match find_delimiter(s, i) {
        Some(d) => {
            let delimiter = copy_range(s, i, i + d);
            let end = find_text(s, &delimiter, i + d);
            proof {
                assert(delimiter@ =~= rest.take(d as int));
                assert(rest.skip(d as int) =~= s@.skip(i + d));
                lemma_identifier_run(rest.skip(1), false);
                lemma_before_text(rest.skip(d as int), rest.take(d as int));
            }
            if end < len {
                Some(end + d)
            } else {
                None
            }
        },
        None => None,
    }
}

/// The end of the quoted text that begins at index `i`.
fn quotation_end(s: &[char], i: usize) -> (r: Option<usize>)
    requires
        i < s@.len(),
    ensures
        match r {
            Some(end) => i < end <= s@.len() && quotation_len(s@.skip(i as int)) == Some(end - i),
            None => quotation_len(s@.skip(i as int)) is None,
        },
{
    if let Some(end) = quoted_end(s, i, '\'') {
        return Some(end);
    }
    if let Some(end) = quoted_end(s, i, '"') {
        return Some(end);
    }
    if let Some(end) = escape_string_end(s, i) {
        return Some(end);
    }
    dollar_quoted_end(s, i)
}

/// Where what begins at index `i` and belongs together ends.
fn unit_end(s: &[char], i: usize) -> (r: usize)
    requires
        i < s@.len(),
    ensures
        i < r <= s@.len(),
        r == i + unit_len(s@.skip(i as int)),
{
    let ghost rest = s@.skip(i as int);
    proof {
        lemma_unit_len(rest);
        assert(rest[0] == s@[i as int]);
        assert(rest.skip(1) =~= s@.skip(i + 1));
    }
    if let Some(end) = quotation_end(s, i) {
        return end;
    }
    if identifier_char(s[i]) {
        return identifier_end(s, i + 1, true);
    }
    i + 1
}

/// Tells whether a character can be in a word.
fn word_char(c: char) -> (r: bool)
    ensures
        r == is_word_char(c),
{
    let mut one: Vec<char> = Vec::new();
    one.push(c);
    let text = string_of(&one);
    assert(text@ =~= seq![c]);
    match captures(WORD_CHARACTER, text.as_str()) {
        Some(found) => found.is_some(),
        None => false,
    }
}

/// Where a comment that begins at index `i` ends, or `i` where none does.
fn comment_end(s: &[char], i: usize) -> (r: usize)
    requires
        i < s@.len(),
    ensures
        i <= r <= s@.len(),
        r == i + comment_len(s@.skip(i as int)),
{
    let ghost rest = s@.skip(i as int);
    proof {
        reveal_strlit("--");
        reveal_strlit("/*");
        reveal_strlit("*/");
        lemma_comment_len(rest);
    }
    let len = s.len();
    let line_start = chars_of("--");
    let block_start = chars_of("/*");
    let block_end = chars_of("*/");
    if stands_at(s, &line_start, i) {
        assert(rest.len() >= 2);
        assert(rest.skip(2) =~= s@.skip(i + 2));
        return find_char(s, '\n', i + 2);
    }
    if stands_at(s, &block_start, i) {
        assert(rest.len() >= 2);
        assert(rest.skip(2) =~= s@.skip(i + 2));
        let end = find_text(s, &block_end, i + 2);
        if end < len {
            return end + 2;
        }
        assert(rest.take(2)[0] == rest[0]);
        return i;
    }
    assert(rest[0] == s@[i as int]);
    if s[i] == '\\' && i + 1 < len && word_char(s[i + 1]) {
        assert(rest[1] == s@[i + 1]);
        assert(rest.skip(1) =~= s@.skip(i + 1));
        return find_char(s, '\n', i + 1);
    }
    proof {
        if i + 1 < s@.len() {
            assert(rest[1] == s@[i + 1]);
        }
    }
    i
}

/// Removes comments and commands of the interactive terminal.
pub fn strip_content(content: &str) -> (r: String)
    ensures
        r@ == stripped_content(content@),
{
    let s = chars_of(content);
    let mut out: Vec<char> = Vec::new();
    let mut after_word = false;
    let mut i: usize = 0;
    assert(s@.skip(0) =~= s@);
    assert(out@ + stripped_content(s@) =~= stripped_content(s@));
    while i < s.len()
        invariant
            i <= s@.len(),
            out@ + stripped_after(after_word, s@.skip(i as int)) == stripped_content(s@),
        decreases s@.len() - i,
    {
        let ghost rest = s@.skip(i as int);
        let ghost earlier = out@;
        let end = comment_end(&s, i);
        if end > i {
            let ghost next = s@.skip(end as int);
            assert(rest.skip(end - i) =~= next);
            let mut goes_on = false;
            if end < s.len() {
                assert(next[0] == s@[end as int]);
                goes_on = identifier_char(s[end]) || s[end] == '$' || s[end] == '\'';
            }
            if after_word && goes_on {
                out.push(' ');
                after_word = false;
                assert(out@ + stripped_after(false, next) =~= earlier + (seq![' ']
                    + stripped_after(false, next)));
            }
            i = end;
        } else {
            let is_quoted = quotation_end(&s, i).is_some();
            let end = unit_end(&s, i);
            let last = s[end - 1];
            assert(rest[end - i - 1] == last);
            after_word = !is_quoted && (identifier_char(last) || last == '$');
            extend_chars(&mut out, &copy_range(&s, i, end));
            proof {
                assert(rest.skip(end - i) =~= s@.skip(end as int));
                let tail = stripped_after(after_word, s@.skip(end as int));
                assert(s@.subrange(i as int, end as int) =~= rest.take(end - i));
                assert(out@ + tail =~= earlier + (rest.take(end - i) + tail));
            }
            i = end;
        }
    }
    assert(s@.skip(i as int) =~= seq![]);
    assert(out@ + stripped_after(after_word, s@.skip(i as int)) =~= out@);
    string_of(&out)
}

/// The index of the first semicolon from `from` on that is not quoted, or the length.
fn top_level_end(s: &[char], from: usize) -> (r: usize)
    requires
        from <= s@.len(),
    ensures
        from <= r <= s@.len(),
        r == from + top_level_len(s@.skip(from as int)),
{
    let mut i: usize = from;
    while i < s.len() && s[i] != ';'
        invariant
            from <= i <= s@.len(),
            top_level_len(s@.skip(from as int)) == (i - from) + top_level_len(s@.skip(i as int)),
        decreases s@.len() - i,
    {
        let ghost rest = s@.skip(i as int);
        assert(rest[0] == s@[i as int]);
        let end = unit_end(s, i);
        assert(rest.skip(end - i) =~= s@.skip(end as int));
        i = end;
    }
    proof {
        if i < s@.len() {
            assert(s@.skip(i as int)[0] == s@[i as int]);
        }
    }
    i
}

/// The pieces of a text between the semicolons that are not quoted.
pub fn split_statements(s: &[char]) -> (r: Vec<Vec<char>>)
    ensures
        rows(r@) == split_top_level(s@),
{
    let mut out: Vec<Vec<char>> = Vec::new();
    let mut start: usize = 0;
    assert(s@.skip(0) =~= s@);
    assert(rows(out@) + split_top_level(s@) =~= split_top_level(s@));
    loop
        invariant
            start <= s@.len(),
            rows(out@) + split_top_level(s@.skip(start as int)) == split_top_level(s@),
        decreases s@.len() - start,
    {
        let end = top_level_end(s, start);
        let ghost rest = s@.skip(start as int);
        let piece = copy_range(s, start, end);
        let ghost earlier = rows(out@);
        out.push(piece);
        proof {
            assert(piece@ =~= rest.take(end - start));
            assert(rows(out@) =~= earlier + seq![piece@]);
        }
        if end == s.len() {
            proof {
                assert(rest.take(end - start) =~= rest);
                assert(split_top_level(rest) =~= seq![rest]);
            }
            return out;
        }
        proof {
            assert(rest.skip(end - start + 1) =~= s@.skip(end + 1));
            let tail = split_top_level(s@.skip(end + 1));
            assert(split_top_level(rest) == seq![piece@] + tail);
            assert(earlier + (seq![piece@] + tail) =~= (earlier + seq![piece@]) + tail);
        }
        start = end + 1;
    }
}

// ---------------------------------------------------------------------------
// Laws
// ---------------------------------------------------------------------------

/// Whether nothing in `s` begins a quoted text.
pub open spec fn quotes_nothing(s: Seq<char>) -> bool {
    !s.contains('\'') && !s.contains('"') && !s.contains('$')
}

/// A text between two quotes.
pub open spec fn quoted(q: char, body: Seq<char>) -> Seq<char> {
    seq![q] + body + seq![q]
}

/// An escape string.
pub open spec fn escape_string(mark: char, body: Seq<char>) -> Seq<char> {
    seq![mark, '\''] + body + seq!['\'']
}

/// Whether an escape string can hold `body`: a backslash does not end it, and a quote does
/// not stand alone, but behind a backslash or before another quote.
pub open spec fn is_escape_body(body: Seq<char>) -> bool
    decreases body.len(),
{
    if body.len() == 0 {
        true
    } else if body.len() > 1 && (body[0] == '\\' || body[0] == '\'' && body[1] == '\'') {
        is_escape_body(body.skip(2))
    } else {
        body[0] != '\\' && body[0] != '\'' && is_escape_body(body.skip(1))
    }
}

/// Whether a quote that follows `s` begins an escape string: a lone E ends `s`.
pub open spec fn ends_in_escape_mark(s: Seq<char>) -> bool {
    &&& s.len() > 0 && (s.last() == 'E' || s.last() == 'e')
    &&& s.len() == 1 || !is_identifier_char(s[s.len() - 2])
}

/// The delimiter of a dollar-quoted text.
pub open spec fn delimiter(tag: Seq<char>) -> Seq<char> {
    seq!['$'] + tag + seq!['$']
}

/// A text between two dollar quotes with the same tag.
pub open spec fn dollar_quoted(tag: Seq<char>, body: Seq<char>) -> Seq<char> {
    delimiter(tag) + body + delimiter(tag)
}

/// Whether a dollar quote can have this tag.
pub open spec fn is_tag(tag: Seq<char>) -> bool {
    &&& forall|i: int| 0 <= i < tag.len() ==> is_identifier_char(#[trigger] tag[i])
    &&& tag.len() > 0 ==> !is_digit(tag[0])
}

proof fn lemma_skip_before(s: Seq<char>, c: char, k: int)
    requires
        0 <= k <= s.len(),
        forall|i: int| 0 <= i < k ==> #[trigger] s[i] != c,
    ensures
        before(s, c) == k + before(s.skip(k), c),
    decreases k,
{
    if k > 0 {
        lemma_skip_before(s, c, k - 1);
        let t = s.skip(k - 1);
        assert(t[0] == s[k - 1]);
        assert(t.skip(1) =~= s.skip(k));
    } else {
        assert(s.skip(0) =~= s);
    }
}

proof fn lemma_skip_before_text(s: Seq<char>, p: Seq<char>, k: int)
    requires
        0 <= k <= s.len(),
        p.len() > 0,
        forall|i: int| 0 <= i < k ==> #[trigger] s[i] != p[0],
    ensures
        before_text(s, p) == k + before_text(s.skip(k), p),
    decreases k,
{
    if k > 0 {
        lemma_skip_before_text(s, p, k - 1);
        let t = s.skip(k - 1);
        assert(t[0] == s[k - 1]);
        assert(!starts_with(t, p)) by {
            if starts_with(t, p) {
                assert(t.take(p.len() as int)[0] == t[0]);
            }
        }
        assert(t.skip(1) =~= s.skip(k));
    } else {
        assert(s.skip(0) =~= s);
    }
}

proof fn lemma_tag_run(tag: Seq<char>, rest: Seq<char>)
    requires
        is_tag(tag),
        rest.len() > 0,
        rest[0] == '$',
    ensures
        identifier_run(tag + rest, false) == tag.len(),
    decreases tag.len(),
{
    let s = tag + rest;
    lemma_identifier_run(s, false);
    let k = identifier_run(s, false) as int;
    assert(s[tag.len() as int] == rest[0]);
    if k < tag.len() {
        assert(s[k] == tag[k]);
    }
}

/// What stands between two quotes belongs together.
proof fn lemma_quoted_unit(q: char, body: Seq<char>, rest: Seq<char>)
    requires
        q == '\'' || q == '"',
        !body.contains(q),
    ensures
        unit_len(quoted(q, body) + rest) == quoted(q, body).len(),
        comment_len(quoted(q, body) + rest) == 0,
{
    reveal_strlit("--");
    reveal_strlit("/*");
    let s = quoted(q, body) + rest;
    let t = s.skip(1);
    assert(s[0] == q);
    assert(quoted_len(s, '\'') is None || q == '\'');
    assert forall|i: int| 0 <= i < body.len() implies #[trigger] t[i] != q by {
        assert(t[i] == body[i]);
        assert(body.contains(body[i]));
    }
    lemma_skip_before(t, q, body.len() as int);
    assert(t.skip(body.len() as int)[0] == q);
    assert(s.take(2)[0] == s[0]);
}

/// The body of an escape string ends where its quote stands.
proof fn lemma_escape_body(body: Seq<char>, rest: Seq<char>)
    requires
        is_escape_body(body),
        rest.len() > 0 ==> rest[0] != '\'',
    ensures
        before_unescaped(body + seq!['\''] + rest) == body.len(),
    decreases body.len(),
{
    let s = body + seq!['\''] + rest;
    if body.len() == 0 {
        assert(s[0] == '\'');
        if s.len() > 1 {
            assert(s[1] == rest[0]);
        }
    } else {
        assert(s[0] == body[0]);
        if body.len() > 1 && (body[0] == '\\' || body[0] == '\'' && body[1] == '\'') {
            assert(s[1] == body[1]);
            lemma_escape_body(body.skip(2), rest);
            assert(s.skip(2) =~= body.skip(2) + seq!['\''] + rest);
        } else {
            lemma_escape_body(body.skip(1), rest);
            assert(s.skip(1) =~= body.skip(1) + seq!['\''] + rest);
        }
    }
}

/// An escape string belongs together.
proof fn lemma_escape_string_unit(mark: char, body: Seq<char>, rest: Seq<char>)
    requires
        mark == 'E' || mark == 'e',
        is_escape_body(body),
        rest.len() > 0 ==> rest[0] != '\'',
    ensures
        unit_len(escape_string(mark, body) + rest) == escape_string(mark, body).len(),
        comment_len(escape_string(mark, body) + rest) == 0,
{
    reveal_strlit("--");
    reveal_strlit("/*");
    let s = escape_string(mark, body) + rest;
    assert(s[0] == mark && s[1] == '\'');
    assert(s.skip(2) =~= body + seq!['\''] + rest);
    lemma_escape_body(body, rest);
    assert(s.take(2)[0] == s[0]);
}

/// What stands between two dollar quotes with the same tag belongs together.
proof fn lemma_dollar_quoted_unit(tag: Seq<char>, body: Seq<char>, rest: Seq<char>)
    requires
        is_tag(tag),
        !body.contains('$'),
    ensures
        unit_len(dollar_quoted(tag, body) + rest) == dollar_quoted(tag, body).len(),
        comment_len(dollar_quoted(tag, body) + rest) == 0,
{
    reveal_strlit("--");
    reveal_strlit("/*");
    let s = dollar_quoted(tag, body) + rest;
    let mark = delimiter(tag);
    let d = mark.len() as int;
    let k = tag.len() as int;
    assert(s[0] == '$');
    assert(s.skip(1) =~= tag + s.skip(k + 1));
    assert(s.skip(k + 1)[0] == '$');
    lemma_tag_run(tag, s.skip(k + 1));
    if k > 0 {
        assert(s[1] == tag[0]);
    }
    assert(delimiter_len(s) == Some(d));
    assert(s.take(d) =~= mark);
    let t = s.skip(d);
    assert forall|i: int| 0 <= i < body.len() implies #[trigger] t[i] != mark[0] by {
        assert(t[i] == body[i]);
        assert(body.contains(body[i]));
    }
    lemma_skip_before_text(t, mark, body.len() as int);
    assert(t.skip(body.len() as int).take(d) =~= mark);
    assert(starts_with(t.skip(body.len() as int), mark));
    assert(s.take(2)[0] == s[0]);
}

/// Text that quotes nothing is passed over up to what follows it, where a word does not
/// reach into that.
proof fn lemma_passed_over(lead: Seq<char>, rest: Seq<char>)
    requires
        quotes_nothing(lead),
        !lead.contains(';'),
        lead.len() == 0 || !is_identifier_char(lead.last()) || rest.len() == 0 || (
        !is_identifier_char(rest[0]) && rest[0] != '$'),
        rest.len() > 0 && rest[0] == '\'' ==> !ends_in_escape_mark(lead),
    ensures
        top_level_len(lead + rest) == lead.len() + top_level_len(rest),
    decreases lead.len(),
{
    let s = lead + rest;
    if lead.len() == 0 {
        assert(s =~= rest);
    } else {
        assert(s[0] == lead[0]);
        assert(lead.contains(lead[0]));
        assert(lead.contains(lead.last()));
        lemma_unit_len(s);
        lemma_identifier_run(s.skip(1), true);
        let u = unit_len(s);
        if s.len() > 1 && s[1] == '\'' {
            assert(lead.len() == 1) by {
                if lead.len() > 1 {
                    assert(lead[1] == s[1]);
                    assert(lead.contains(lead[1]));
                }
            }
            assert(s[1] == rest[0]);
        }
        assert(quotation_len(s) is None);
        assert(u <= lead.len()) by {
            if is_identifier_char(s[0]) && u > lead.len() {
                let p = if is_identifier_char(lead.last()) {
                    lead.len() as int
                } else {
                    lead.len() - 1
                };
                assert(s.skip(1)[p - 1] == s[p]);
            }
        }
        let tail = lead.skip(u);
        assert(s.skip(u) =~= tail + rest);
        assert forall|c: char| #[trigger] tail.contains(c) implies lead.contains(c) by {
            assert(lead[tail.index_of(c) + u] == c);
        }
        if tail.len() > 0 {
            assert(tail.last() == lead.last());
            if tail.len() == 1 && lead.len() > 1 {
                assert(s[u] == lead[u]);
                assert(s.skip(1)[u - 1] == s[u]);
            } else if tail.len() > 1 {
                assert(tail[tail.len() - 2] == lead[lead.len() - 2]);
            }
        }
        lemma_passed_over(tail, rest);
    }
}

/// Where nothing is quoted, a text is split at its semicolons.
pub proof fn law_unquoted_text_is_split_at_semicolons(s: Seq<char>)
    requires
        quotes_nothing(s),
    ensures
        split_top_level(s) == split(s, ';'),
    decreases s.len(),
{
    lemma_before_bound(s, ';');
    let k = before(s, ';') as int;
    let lead = s.take(k);
    let rest = s.skip(k);
    assert(lead + rest =~= s);
    assert forall|c: char| #[trigger] lead.contains(c) implies s.contains(c) by {
        assert(s[lead.index_of(c)] == c);
    }
    assert(!lead.contains(';')) by {
        if lead.contains(';') {
            let i = lead.index_of(';');
            assert(s[i] == ';');
        }
    }
    if k < s.len() {
        assert(rest[0] == s[k]);
    }
    lemma_passed_over(lead, rest);
    assert(top_level_len(rest) == 0);
    if k < s.len() {
        let tail = s.skip(k + 1);
        assert forall|c: char| #[trigger] tail.contains(c) implies s.contains(c) by {
            assert(s[tail.index_of(c) + k + 1] == c);
        }
        law_unquoted_text_is_split_at_semicolons(tail);
    }
}

/// Semicolons between two dollar quotes, as in the body of a function, do not split a text.
pub proof fn law_dollar_quoted_text_is_not_split(
    lead: Seq<char>,
    tag: Seq<char>,
    body: Seq<char>,
    rest: Seq<char>,
)
    requires
        quotes_nothing(lead),
        !lead.contains(';'),
        lead.len() > 0 ==> !is_identifier_char(lead.last()),
        is_tag(tag),
        !body.contains('$'),
        quotes_nothing(rest),
        !rest.contains(';'),
    ensures
        split_top_level(lead + dollar_quoted(tag, body) + rest) == seq![
            lead + dollar_quoted(tag, body) + rest,
        ],
{
    let unit = dollar_quoted(tag, body);
    let tail = unit + rest;
    lemma_dollar_quoted_unit(tag, body, rest);
    assert(lead + unit + rest =~= lead + tail);
    lemma_passed_over(lead, tail);
    assert(tail[0] == '$');
    assert(tail.skip(unit.len() as int) =~= rest);
    lemma_passed_over(rest, seq![]);
    assert(rest + Seq::<char>::empty() =~= rest);
}

/// Semicolons between two quotes do not split a text.
pub proof fn law_quoted_text_is_not_split(
    lead: Seq<char>,
    q: char,
    body: Seq<char>,
    rest: Seq<char>,
)
    requires
        quotes_nothing(lead),
        !lead.contains(';'),
        q == '\'' && !ends_in_escape_mark(lead) || q == '"',
        !body.contains(q),
        quotes_nothing(rest),
        !rest.contains(';'),
    ensures
        split_top_level(lead + quoted(q, body) + rest) == seq![lead + quoted(q, body) + rest],
{
    let unit = quoted(q, body);
    let tail = unit + rest;
    lemma_quoted_unit(q, body, rest);
    assert(lead + unit + rest =~= lead + tail);
    assert(tail[0] == q);
    lemma_passed_over(lead, tail);
    assert(tail.skip(unit.len() as int) =~= rest);
    lemma_passed_over(rest, seq![]);
    assert(rest + Seq::<char>::empty() =~= rest);
}

/// Semicolons in an escape string do not split a text, whatever its backslashes take along.
pub proof fn law_escape_string_is_not_split(
    lead: Seq<char>,
    mark: char,
    body: Seq<char>,
    rest: Seq<char>,
)
    requires
        quotes_nothing(lead),
        !lead.contains(';'),
        lead.len() > 0 ==> !is_identifier_char(lead.last()),
        mark == 'E' || mark == 'e',
        is_escape_body(body),
        quotes_nothing(rest),
        !rest.contains(';'),
    ensures
        split_top_level(lead + escape_string(mark, body) + rest) == seq![
            lead + escape_string(mark, body) + rest,
        ],
{
    let unit = escape_string(mark, body);
    let tail = unit + rest;
    if rest.len() > 0 {
        assert(rest.contains(rest[0]));
    }
    lemma_escape_string_unit(mark, body, rest);
    assert(lead + unit + rest =~= lead + tail);
    assert(tail[0] == mark);
    lemma_passed_over(lead, tail);
    assert(tail.skip(unit.len() as int) =~= rest);
    lemma_passed_over(rest, seq![]);
    assert(rest + Seq::<char>::empty() =~= rest);
}

proof fn lemma_plain_text_is_kept(after_word: bool, s: Seq<char>)
    requires
        !contains_text(s, "--"@),
        !contains_text(s, "/*"@),
        !s.contains('\\'),
    ensures
        stripped_after(after_word, s) == s,
    decreases s.len(),
{
    reveal_strlit("--");
    reveal_strlit("/*");
    if s.len() > 0 {
        assert(s.contains(s[0]));
        assert(comment_len(s) == 0) by {
            if starts_with(s, "--"@) {
                assert(s.subrange(0, 2) =~= s.take(2));
                assert(occurs_at(s, "--"@, 0));
            }
            if starts_with(s, "/*"@) {
                assert(s.subrange(0, 2) =~= s.take(2));
                assert(occurs_at(s, "/*"@, 0));
            }
        }
        lemma_unit_len(s);
        let u = unit_len(s);
        let tail = s.skip(u);
        assert forall|p: Seq<char>| p.len() == 2 && #[trigger] contains_text(
            tail,
            p,
        ) implies contains_text(s, p) by {
            let i = choose|i: int| occurs_at(tail, p, i);
            assert(s.subrange(i + u, i + u + 2) =~= tail.subrange(i, i + 2));
            assert(occurs_at(s, p, i + u));
        }
        assert(!tail.contains('\\')) by {
            if tail.contains('\\') {
                assert(s[tail.index_of('\\') + u] == '\\');
            }
        }
        lemma_plain_text_is_kept(begins_with_word(s), tail);
        assert(s.take(u) + tail =~= s);
    }
}

/// Text without the signs of comments and commands is kept as it is.
pub proof fn law_plain_text_is_kept(s: Seq<char>)
    requires
        !contains_text(s, "--"@),
        !contains_text(s, "/*"@),
        !s.contains('\\'),
    ensures
        stripped_content(s) == s,
{
    lemma_plain_text_is_kept(false, s);
}

/// What is quoted is kept, whatever it holds, and the rest is stripped.
pub proof fn law_quoted_text_is_kept(
    q: char,
    body: Seq<char>,
    tag: Seq<char>,
    dollar_body: Seq<char>,
    mark: char,
    escape_body: Seq<char>,
    rest: Seq<char>,
)
    requires
        q == '\'' || q == '"',
        !body.contains(q),
        is_tag(tag),
        !dollar_body.contains('$'),
        mark == 'E' || mark == 'e',
        is_escape_body(escape_body),
    ensures
        stripped_content(quoted(q, body) + rest) == quoted(q, body) + stripped_content(rest),
        rest.len() == 0 || rest[0] != '\'' ==> stripped_content(
            escape_string(mark, escape_body) + rest,
        ) == escape_string(mark, escape_body) + stripped_content(rest),
        stripped_content(dollar_quoted(tag, dollar_body) + rest) == dollar_quoted(tag, dollar_body)
            + stripped_content(rest),
{
    let unit = quoted(q, body);
    lemma_quoted_unit(q, body, rest);
    assert((unit + rest).take(unit.len() as int) =~= unit);
    assert((unit + rest).skip(unit.len() as int) =~= rest);
    let other = dollar_quoted(tag, dollar_body);
    lemma_dollar_quoted_unit(tag, dollar_body, rest);
    assert((other + rest).take(other.len() as int) =~= other);
    assert((other + rest).skip(other.len() as int) =~= rest);
    if rest.len() == 0 || rest[0] != '\'' {
        let string = escape_string(mark, escape_body);
        lemma_escape_string_unit(mark, escape_body, rest);
        assert((string + rest).take(string.len() as int) =~= string);
        assert((string + rest).skip(string.len() as int) =~= rest);
    }
}

/// A comment goes, up to the end of its line or up to its delimiter.
pub proof fn law_comments_go(comment: Seq<char>, rest: Seq<char>)
    ensures
        !comment.contains('\n') ==> stripped_content("--"@ + comment + seq!['\n'] + rest)
            == stripped_content(seq!['\n'] + rest),
        !comment.contains('*') ==> stripped_content("/*"@ + comment + "*/"@ + rest)
            == stripped_content(rest),
{
    reveal_strlit("--");
    reveal_strlit("/*");
    reveal_strlit("*/");
    if !comment.contains('\n') {
        let s = "--"@ + comment + seq!['\n'] + rest;
        let t = s.skip(2);
        assert(s.take(2) =~= "--"@);
        assert forall|i: int| 0 <= i < comment.len() implies #[trigger] t[i] != '\n' by {
            assert(t[i] == comment[i]);
            assert(comment.contains(comment[i]));
        }
        lemma_skip_before(t, '\n', comment.len() as int);
        assert(t.skip(comment.len() as int)[0] == '\n');
        assert(s.skip(2 + comment.len() as int) =~= seq!['\n'] + rest);
    }
    if !comment.contains('*') {
        let s = "/*"@ + comment + "*/"@ + rest;
        let t = s.skip(2);
        assert(s.take(2) =~= "/*"@);
        assert(s.take(2)[0] == '/');
        assert forall|i: int| 0 <= i < comment.len() implies #[trigger] t[i] != "*/"@[0] by {
            assert(t[i] == comment[i]);
            assert(comment.contains(comment[i]));
        }
        lemma_skip_before_text(t, "*/"@, comment.len() as int);
        assert(t.skip(comment.len() as int).take(2) =~= "*/"@);
        assert(s.skip(4 + comment.len() as int) =~= rest);
    }
}

/// A comment between two words separates them.
pub proof fn law_comments_separate_words(word: Seq<char>, comment: Seq<char>, rest: Seq<char>)
    requires
        word.len() > 0,
        forall|i: int| 0 <= i < word.len() ==> is_identifier_char(#[trigger] word[i]),
        !comment.contains('*'),
        rest.len() > 0,
        is_identifier_char(rest[0]),
    ensures
        stripped_content(word + ("/*"@ + comment + "*/"@ + rest)) == word + seq![' ']
            + stripped_content(rest),
{
    reveal_strlit("--");
    reveal_strlit("/*");
    reveal_strlit("*/");
    let t = "/*"@ + comment + "*/"@ + rest;
    let s = word + t;
    assert(s[0] == word[0]);
    assert(s[word.len() as int] == t[0] && t[0] == '/');
    assert(comment_len(s) == 0) by {
        assert(s.take(2)[0] == s[0]);
    }
    let run = identifier_run(s.skip(1), true) as int;
    lemma_identifier_run(s.skip(1), true);
    assert(s.skip(1)[word.len() - 1] == '/');
    if run < word.len() - 1 {
        assert(s.skip(1)[run] == word[run + 1]);
    }
    if word.len() > 1 {
        assert(s[1] == word[1]);
    } else {
        assert(s[1] == '/');
    }
    assert(unit_len(s) == word.len());
    assert(s[word.len() - 1] == word.last());
    assert(s.take(word.len() as int) =~= word);
    assert(s.skip(word.len() as int) =~= t);
    let u = t.skip(2);
    assert(t.take(2) =~= "/*"@);
    assert(t.take(2)[0] == '/');
    assert forall|i: int| 0 <= i < comment.len() implies #[trigger] u[i] != "*/"@[0] by {
        assert(u[i] == comment[i]);
        assert(comment.contains(comment[i]));
    }
    lemma_skip_before_text(u, "*/"@, comment.len() as int);
    assert(u.skip(comment.len() as int).take(2) =~= "*/"@);
    assert(t.skip(4 + comment.len() as int) =~= rest);
    assert(stripped_after(true, t) == seq![' '] + stripped_after(false, rest));
    assert(word + (seq![' '] + stripped_content(rest)) =~= word + seq![' '] + stripped_content(
        rest,
    ));
}

/// The pieces of a text are all of it: with the semicolons between them they give it back.
pub proof fn law_pieces_make_up_the_text(s: Seq<char>)
    ensures
        split_top_level(s).len() > 0,
        join(split_top_level(s), ";"@) == s,
    decreases s.len(),
{
    reveal_strlit(";");
    lemma_top_level_len(s);
    let k = top_level_len(s);
    if k < s.len() {
        let rest = s.skip(k + 1);
        law_pieces_make_up_the_text(rest);
        law_join_first(s.take(k), split_top_level(rest), ";"@);
        lemma_top_level_ends(s);
        assert(s =~= s.take(k) + ";"@ + rest);
    } else {
        assert(split_top_level(s) =~= seq![s]);
    }
}

/// What is not quoted ends at a semicolon or with the text.
proof fn lemma_top_level_ends(s: Seq<char>)
    ensures
        0 <= top_level_len(s) <= s.len(),
        top_level_len(s) < s.len() ==> s[top_level_len(s)] == ';',
    decreases s.len(),
{
    if s.len() > 0 && s[0] != ';' {
        lemma_unit_len(s);
        lemma_top_level_ends(s.skip(unit_len(s)));
    }
}

/// A semicolon behind text that quotes nothing ends a piece, and what follows it is split by
/// itself.
pub proof fn law_semicolon_ends_a_piece(lead: Seq<char>, rest: Seq<char>)
    requires
        quotes_nothing(lead),
        !lead.contains(';'),
    ensures
        split_top_level(lead + seq![';'] + rest) == seq![lead] + split_top_level(rest),
{
    let s = lead + seq![';'] + rest;
    let tail = seq![';'] + rest;
    assert(s =~= lead + tail);
    assert(tail[0] == ';');
    lemma_passed_over(lead, tail);
    assert(s.take(lead.len() as int) =~= lead);
    assert(s.skip(lead.len() as int + 1) =~= rest);
}

/// A quoted text belongs whole to the piece that it stands in, whatever it holds, and what
/// follows it is split as it would be by itself.
pub proof fn law_quoted_text_stays_in_its_piece(
    lead: Seq<char>,
    q: char,
    body: Seq<char>,
    rest: Seq<char>,
)
    requires
        quotes_nothing(lead),
        !lead.contains(';'),
        q == '\'' && !ends_in_escape_mark(lead) || q == '"',
        !body.contains(q),
    ensures
        split_top_level(lead + (quoted(q, body) + rest)) == seq![
            lead + quoted(q, body) + split_top_level(rest)[0],
        ] + split_top_level(rest).skip(1),
{
    let unit = quoted(q, body);
    lemma_quoted_unit(q, body, rest);
    assert((unit + rest)[0] == q);
    lemma_passed_over(lead, unit + rest);
    assert((unit + rest).skip(unit.len() as int) =~= rest);
    assert(lead + unit + rest =~= lead + (unit + rest));
    lemma_first_piece(lead + unit, rest);
}

/// So does an escape string, whatever its backslashes take along.
pub proof fn law_escape_string_stays_in_its_piece(
    lead: Seq<char>,
    mark: char,
    body: Seq<char>,
    rest: Seq<char>,
)
    requires
        quotes_nothing(lead),
        !lead.contains(';'),
        lead.len() > 0 ==> !is_identifier_char(lead.last()),
        mark == 'E' || mark == 'e',
        is_escape_body(body),
        rest.len() > 0 ==> rest[0] != '\'',
    ensures
        split_top_level(lead + (escape_string(mark, body) + rest)) == seq![
            lead + escape_string(mark, body) + split_top_level(rest)[0],
        ] + split_top_level(rest).skip(1),
{
    let unit = escape_string(mark, body);
    lemma_escape_string_unit(mark, body, rest);
    assert((unit + rest)[0] == mark);
    lemma_passed_over(lead, unit + rest);
    assert((unit + rest).skip(unit.len() as int) =~= rest);
    assert(lead + unit + rest =~= lead + (unit + rest));
    lemma_first_piece(lead + unit, rest);
}

/// Whether a text between dollar quotes can hold `body`: it may hold dollar signs, but the
/// delimiter with this tag begins nowhere in it.
pub open spec fn is_dollar_body(tag: Seq<char>, body: Seq<char>) -> bool {
    forall|i: int|
        0 <= i < body.len() ==> !#[trigger] occurs_at(body + delimiter(tag), delimiter(tag), i)
}

/// So does the body of a function between dollar quotes, whatever dollar signs it holds.
pub proof fn law_dollar_quoted_text_stays_in_its_piece(
    lead: Seq<char>,
    tag: Seq<char>,
    body: Seq<char>,
    rest: Seq<char>,
)
    requires
        quotes_nothing(lead),
        !lead.contains(';'),
        lead.len() > 0 ==> !is_identifier_char(lead.last()),
        is_tag(tag),
        is_dollar_body(tag, body),
    ensures
        split_top_level(lead + (dollar_quoted(tag, body) + rest)) == seq![
            lead + dollar_quoted(tag, body) + split_top_level(rest)[0],
        ] + split_top_level(rest).skip(1),
{
    let unit = dollar_quoted(tag, body);
    lemma_dollar_body_unit(tag, body, rest);
    assert((unit + rest)[0] == '$');
    lemma_passed_over(lead, unit + rest);
    assert((unit + rest).skip(unit.len() as int) =~= rest);
    assert(lead + unit + rest =~= lead + (unit + rest));
    lemma_first_piece(lead + unit, rest);
}

/// What stands between dollar quotes is kept, whatever dollar signs and signs of comments it
/// holds, and the rest is stripped.
pub proof fn law_dollar_quoted_text_is_kept(tag: Seq<char>, body: Seq<char>, rest: Seq<char>)
    requires
        is_tag(tag),
        is_dollar_body(tag, body),
    ensures
        stripped_content(dollar_quoted(tag, body) + rest) == dollar_quoted(tag, body)
            + stripped_content(rest),
{
    let unit = dollar_quoted(tag, body);
    let s = unit + rest;
    lemma_dollar_body_unit(tag, body, rest);
    assert(s[0] == '$');
    assert(s.take(unit.len() as int) =~= unit);
    assert(s.skip(unit.len() as int) =~= rest);
}

/// What stands between two dollar quotes with the same tag belongs together.
proof fn lemma_dollar_body_unit(tag: Seq<char>, body: Seq<char>, rest: Seq<char>)
    requires
        is_tag(tag),
        is_dollar_body(tag, body),
    ensures
        unit_len(dollar_quoted(tag, body) + rest) == dollar_quoted(tag, body).len(),
        comment_len(dollar_quoted(tag, body) + rest) == 0,
        quotation_len(dollar_quoted(tag, body) + rest) is Some,
{
    reveal_strlit("--");
    reveal_strlit("/*");
    let s = dollar_quoted(tag, body) + rest;
    let mark = delimiter(tag);
    let d = mark.len() as int;
    let k = tag.len() as int;
    assert(s[0] == '$');
    assert(s.skip(1) =~= tag + s.skip(k + 1));
    assert(s.skip(k + 1)[0] == '$');
    lemma_tag_run(tag, s.skip(k + 1));
    if k > 0 {
        assert(s[1] == tag[0]);
    }
    assert(delimiter_len(s) == Some(d));
    assert(s.take(d) =~= mark);
    assert(s.skip(d) =~= body + mark + rest);
    lemma_first_mark(body, mark, rest, 0);
    assert(s.skip(d).skip(0) =~= s.skip(d));
    assert(s.take(2)[0] == s[0]);
}

proof fn lemma_first_mark(body: Seq<char>, mark: Seq<char>, rest: Seq<char>, from: int)
    requires
        mark.len() > 0,
        0 <= from <= body.len(),
        forall|i: int| from <= i < body.len() ==> !#[trigger] occurs_at(body + mark, mark, i),
    ensures
        before_text((body + mark + rest).skip(from), mark) == body.len() - from,
    decreases body.len() - from,
{
    let s = body + mark + rest;
    let t = s.skip(from);
    let n = mark.len() as int;
    if from == body.len() {
        assert(t.take(n) =~= mark);
    } else {
        if starts_with(t, mark) {
            assert((body + mark).subrange(from, from + n) =~= t.take(n));
            assert(occurs_at(body + mark, mark, from));
        }
        lemma_first_mark(body, mark, rest, from + 1);
        assert(t.skip(1) =~= s.skip(from + 1));
    }
}

/// A dollar sign within a word quotes nothing: a semicolon behind the word ends the piece.
pub proof fn law_dollars_in_words_quote_nothing(word: Seq<char>, rest: Seq<char>)
    requires
        word.len() > 0,
        is_identifier_char(word[0]),
        forall|i: int|
            0 <= i < word.len() ==> is_identifier_char(#[trigger] word[i]) || word[i] == '$',
    ensures
        split_top_level(word + seq![';'] + rest) == seq![word] + split_top_level(rest),
{
    let s = word + seq![';'] + rest;
    let n = word.len() as int;
    assert(s[0] == word[0]);
    if n > 1 {
        assert(s[1] == word[1]);
    } else {
        assert(s[1] == ';');
    }
    assert(quotation_len(s) is None);
    let run = identifier_run(s.skip(1), true) as int;
    lemma_identifier_run(s.skip(1), true);
    assert(s.skip(1)[n - 1] == ';');
    if run < n - 1 {
        assert(s.skip(1)[run] == word[run + 1]);
    }
    assert(unit_len(s) == n);
    assert(s[0] != ';');
    let tail = s.skip(n);
    assert(tail[0] == ';');
    assert(top_level_len(tail) == 0);
    assert(top_level_len(s) == n);
    assert(s.take(n) =~= word);
    assert(s.skip(n + 1) =~= rest);
}

/// What is passed over before a text goes to its first piece.
proof fn lemma_first_piece(head: Seq<char>, rest: Seq<char>)
    requires
        top_level_len(head + rest) == head.len() + top_level_len(rest),
    ensures
        split_top_level(head + rest) == seq![head + split_top_level(rest)[0]] + split_top_level(
            rest,
        ).skip(1),
{
    let s = head + rest;
    let k = top_level_len(rest);
    lemma_top_level_len(rest);
    if k < rest.len() {
        assert(s.take(head.len() + k) =~= head + rest.take(k));
        assert(s.skip(head.len() + k + 1) =~= rest.skip(k + 1));
        assert(split_top_level(rest).skip(1) =~= split_top_level(rest.skip(k + 1)));
    } else {
        assert(split_top_level(rest).skip(1) =~= Seq::<Seq<char>>::empty());
    }
    assert(split_top_level(s) =~= seq![head + split_top_level(rest)[0]] + split_top_level(
        rest,
    ).skip(1));
}

/// Text without quotes and without the signs of comments and commands is kept, and what
/// follows it is stripped as it would be by itself, where no word and no sign reaches from one
/// into the other.
pub proof fn law_text_is_stripped_in_turn(lead: Seq<char>, rest: Seq<char>)
    requires
        quotes_nothing(lead),
        !contains_text(lead, "--"@),
        !contains_text(lead, "/*"@),
        !lead.contains('\\'),
        lead.len() > 0 ==> !is_identifier_char(lead.last()) && lead.last() != '-' && lead.last()
            != '/',
    ensures
        stripped_content(lead + rest) == lead + stripped_content(rest),
{
    lemma_lead_is_kept(false, lead, rest);
}

proof fn lemma_lead_is_kept(after_word: bool, lead: Seq<char>, rest: Seq<char>)
    requires
        quotes_nothing(lead),
        !contains_text(lead, "--"@),
        !contains_text(lead, "/*"@),
        !lead.contains('\\'),
        lead.len() > 0 ==> !is_identifier_char(lead.last()) && lead.last() != '-' && lead.last()
            != '/',
        lead.len() == 0 ==> !after_word,
    ensures
        stripped_after(after_word, lead + rest) == lead + stripped_after(false, rest),
    decreases lead.len(),
{
    reveal_strlit("--");
    reveal_strlit("/*");
    let s = lead + rest;
    if lead.len() == 0 {
        assert(s =~= rest);
    } else {
        assert(s[0] == lead[0]);
        assert(lead.contains(lead[0]));
        assert(lead.contains(lead.last()));
        assert(comment_len(s) == 0) by {
            if starts_with(s, "--"@) || starts_with(s, "/*"@) {
                assert(s.take(2)[0] == s[0] && s.take(2)[1] == s[1]);
                if lead.len() > 1 {
                    assert(lead.subrange(0, 2) =~= s.take(2));
                    assert(occurs_at(lead, s.take(2), 0));
                }
            }
        }
        lemma_unit_len(s);
        lemma_identifier_run(s.skip(1), true);
        let u = unit_len(s);
        if s.len() > 1 && s[1] == '\'' && lead.len() > 1 {
            assert(lead[1] == s[1]);
            assert(lead.contains(lead[1]));
        }
        assert(quotation_len(s) is None);
        assert(u <= lead.len()) by {
            if is_identifier_char(s[0]) && u >= lead.len() {
                assert(lead.last() != '$');
                if lead.len() > 1 {
                    assert(s.skip(1)[lead.len() - 2] == s[lead.len() - 1]);
                }
            }
        }
        let tail = lead.skip(u);
        assert(s.skip(u) =~= tail + rest);
        assert forall|c: char| #[trigger] tail.contains(c) implies lead.contains(c) by {
            assert(lead[tail.index_of(c) + u] == c);
        }
        assert forall|p: Seq<char>| p.len() == 2 && #[trigger] contains_text(
            tail,
            p,
        ) implies contains_text(lead, p) by {
            let i = choose|i: int| occurs_at(tail, p, i);
            assert(lead.subrange(i + u, i + u + 2) =~= tail.subrange(i, i + 2));
            assert(occurs_at(lead, p, i + u));
        }
        if tail.len() > 0 {
            assert(tail.last() == lead.last());
        } else {
            assert(s[u - 1] == lead.last());
        }
        lemma_lead_is_kept(begins_with_word(s), tail, rest);
        assert(s.take(u) =~= lead.take(u));
        assert(s.take(u) + (tail + stripped_after(false, rest)) =~= lead + stripped_after(
            false,
            rest,
        ));
    }
}

/// A block comment goes up to its first delimiter, whatever it holds before that. One that
/// does not end is none, and only its first character is passed over.
pub proof fn law_block_comments_go(comment: Seq<char>, rest: Seq<char>)
    requires
        !contains_text(comment, "*/"@),
    ensures
        stripped_content("/*"@ + comment + "*/"@ + rest) == stripped_content(rest),
        stripped_content("/*"@ + comment) == "/"@ + stripped_content("*"@ + comment),
{
    reveal_strlit("--");
    reveal_strlit("/*");
    reveal_strlit("*/");
    reveal_strlit("/");
    reveal_strlit("*");
    let s = "/*"@ + comment + "*/"@ + rest;
    assert(s.take(2) =~= "/*"@);
    assert(s.take(2)[0] == '/');
    assert(s.skip(2) =~= comment + ("*/"@ + rest));
    lemma_first_delimiter(comment, rest);
    assert(s.skip(comment.len() as int + 4) =~= rest);
    let open = "/*"@ + comment;
    assert(open[0] == '/' && open[1] == '*');
    assert(open.take(2) =~= "/*"@);
    assert(open.take(2)[0] == '/');
    assert(open.skip(2) =~= comment);
    lemma_no_delimiter(comment);
    assert(open.skip(1) =~= "*"@ + comment);
    assert(open.take(1) =~= "/"@);
}

proof fn lemma_first_delimiter(comment: Seq<char>, rest: Seq<char>)
    requires
        !contains_text(comment, "*/"@),
    ensures
        before_text(comment + ("*/"@ + rest), "*/"@) == comment.len(),
    decreases comment.len(),
{
    reveal_strlit("*/");
    let s = comment + ("*/"@ + rest);
    if comment.len() == 0 {
        assert(s.take(2) =~= "*/"@);
    } else {
        if starts_with(s, "*/"@) {
            assert(s.take(2)[0] == comment[0] && s.take(2)[1] == s[1]);
            if comment.len() > 1 {
                assert(comment.subrange(0, 2) =~= s.take(2));
                assert(occurs_at(comment, "*/"@, 0));
            }
        }
        let tail = comment.skip(1);
        lemma_no_delimiter_later(comment);
        lemma_first_delimiter(tail, rest);
        assert(s.skip(1) =~= tail + ("*/"@ + rest));
    }
}

proof fn lemma_no_delimiter(comment: Seq<char>)
    requires
        !contains_text(comment, "*/"@),
    ensures
        before_text(comment, "*/"@) == comment.len(),
    decreases comment.len(),
{
    reveal_strlit("*/");
    if comment.len() > 0 {
        if starts_with(comment, "*/"@) {
            assert(comment.subrange(0, 2) =~= comment.take(2));
            assert(occurs_at(comment, "*/"@, 0));
        }
        lemma_no_delimiter_later(comment);
        lemma_no_delimiter(comment.skip(1));
    }
}

proof fn lemma_no_delimiter_later(comment: Seq<char>)
    requires
        comment.len() > 0,
        !contains_text(comment, "*/"@),
    ensures
        !contains_text(comment.skip(1), "*/"@),
{
    reveal_strlit("*/");
    let tail = comment.skip(1);
    if contains_text(tail, "*/"@) {
        let i = choose|i: int| occurs_at(tail, "*/"@, i);
        assert(comment.subrange(i + 1, i + 3) =~= tail.subrange(i, i + 2));
        assert(occurs_at(comment, "*/"@, i + 1));
    }
}

/// A command of the interactive terminal, a backslash before a word, goes with the rest of its
/// line. A line comment at the end of a text goes with the text.
pub proof fn law_commands_go(c: char, command: Seq<char>, rest: Seq<char>)
    requires
        !command.contains('\n'),
    ensures
        'a' <= c <= 'z' || 'A' <= c <= 'Z' || is_digit(c) || c == '_' ==> stripped_content(
            seq!['\\', c] + command + seq!['\n'] + rest,
        ) == stripped_content(seq!['\n'] + rest),
        stripped_content("--"@ + command) == Seq::<char>::empty(),
{
    reveal_strlit("--");
    reveal_strlit("/*");
    let s = seq!['\\', c] + command + seq!['\n'] + rest;
    assert(s[0] == '\\' && s[1] == c);
    if 'a' <= c <= 'z' || 'A' <= c <= 'Z' || is_digit(c) || c == '_' {
        let t = s.skip(1);
        let n = command.len() as int + 1;
        assert(s.take(2)[0] == '\\');
        assert forall|i: int| 0 <= i < n implies #[trigger] t[i] != '\n' by {
            if i > 0 {
                assert(t[i] == command[i - 1]);
                assert(command.contains(command[i - 1]));
            }
        }
        lemma_skip_before(t, '\n', n);
        assert(t.skip(n)[0] == '\n');
        assert(s.skip(n + 1) =~= seq!['\n'] + rest);
    }
    let line = "--"@ + command;
    let t = line.skip(2);
    assert(line.take(2) =~= "--"@);
    assert(t =~= command);
    assert forall|i: int| 0 <= i < t.len() implies #[trigger] t[i] != '\n' by {
        assert(command.contains(command[i]));
    }
    lemma_skip_before(t, '\n', t.len() as int);
    assert(t.skip(t.len() as int).len() == 0);
    assert(comment_len(line) == line.len());
    let nothing = line.skip(line.len() as int);
    assert(nothing =~= Seq::<char>::empty());
    assert(stripped_after(false, nothing) == nothing);
}

/// A quote that does not end quotes nothing: it is kept, and what follows it is stripped.
pub proof fn law_open_quotes_quote_nothing(q: char, body: Seq<char>)
    requires
        q == '\'' || q == '"',
        !body.contains(q),
    ensures
        stripped_content(seq![q] + body) == seq![q] + stripped_content(body),
{
    reveal_strlit("--");
    reveal_strlit("/*");
    let s = seq![q] + body;
    assert(s[0] == q);
    assert(s.skip(1) =~= body);
    lemma_before_bound(body, q);
    if before(body, q) < body.len() {
        assert(body.contains(body[before(body, q) as int]));
    }
    assert(s.take(2)[0] == q || s.len() < 2);
    assert(quotation_len(s) is None);
    assert(s.take(1) =~= seq![q]);
}

/// A comment behind a word leaves nothing where no word follows it.
pub proof fn law_comments_after_words_go(word: Seq<char>, comment: Seq<char>, rest: Seq<char>)
    requires
        word.len() > 0,
        forall|i: int| 0 <= i < word.len() ==> is_identifier_char(#[trigger] word[i]),
        !contains_text(comment, "*/"@),
        rest.len() > 0,
        !is_identifier_char(rest[0]) && rest[0] != '$' && rest[0] != '\'',
        rest[0] != '-' && rest[0] != '/' && rest[0] != '\\',
    ensures
        stripped_content(word + ("/*"@ + comment + "*/"@ + rest)) == word + stripped_content(rest),
{
    reveal_strlit("--");
    reveal_strlit("/*");
    reveal_strlit("*/");
    let t = "/*"@ + comment + "*/"@ + rest;
    let s = word + t;
    assert(s[0] == word[0]);
    assert(s[word.len() as int] == t[0] && t[0] == '/');
    assert(comment_len(s) == 0) by {
        assert(s.take(2)[0] == s[0]);
    }
    let run = identifier_run(s.skip(1), true) as int;
    lemma_identifier_run(s.skip(1), true);
    assert(s.skip(1)[word.len() - 1] == '/');
    if run < word.len() - 1 {
        assert(s.skip(1)[run] == word[run + 1]);
    }
    if word.len() > 1 {
        assert(s[1] == word[1]);
    } else {
        assert(s[1] == '/');
    }
    assert(unit_len(s) == word.len());
    assert(s[word.len() - 1] == word.last());
    assert(s.take(word.len() as int) =~= word);
    assert(s.skip(word.len() as int) =~= t);
    assert(t.take(2) =~= "/*"@);
    assert(t.take(2)[0] == '/');
    assert(t.skip(2) =~= comment + ("*/"@ + rest));
    lemma_first_delimiter(comment, rest);
    assert(t.skip(4 + comment.len() as int) =~= rest);
    assert(comment_len(rest) == 0) by {
        if rest.len() > 1 {
            assert(rest.take(2)[0] == rest[0]);
        }
    }
    assert(stripped_after(true, t) == stripped_after(true, rest));
}

}
