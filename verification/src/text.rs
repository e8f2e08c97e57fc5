//! Text as sequences of characters: splitting, trimming, joining and comparing.

use vstd::prelude::*;
use vstd::string::*;

verus! {

/// `String::push` appends one character to the end of a string.
pub assume_specification[ String::push ](s: &mut String, c: char)
    ensures
        final(s)@ == old(s)@.push(c),
;

// ---------------------------------------------------------------------------
// What the operations mean
// ---------------------------------------------------------------------------

/// The characters with Unicode's `White_Space` property.
pub open spec fn is_space(c: char) -> bool {
    ||| '\u{9}' <= c <= '\u{D}'
    ||| c == ' '
    ||| c == '\u{85}'
    ||| c == '\u{A0}'
    ||| c == '\u{1680}'
    ||| '\u{2000}' <= c <= '\u{200A}'
    ||| c == '\u{2028}'
    ||| c == '\u{2029}'
    ||| c == '\u{202F}'
    ||| c == '\u{205F}'
    ||| c == '\u{3000}'
}

/// The decimal digits `0` to `9`.
pub open spec fn is_digit(c: char) -> bool {
    '0' <= c <= '9'
}

/// The number of characters before the first `c`, or all of them.
pub open spec fn before(s: Seq<char>, c: char) -> nat
    decreases s.len(),
{
    if s.len() == 0 || s[0] == c {
        0
    } else {
        1 + before(s.skip(1), c)
    }
}

/// The number of leading white-space characters.
pub open spec fn space_run(s: Seq<char>) -> nat
    decreases s.len(),
{
    if s.len() == 0 || !is_space(s[0]) {
        0
    } else {
        1 + space_run(s.skip(1))
    }
}

/// The number of leading characters that are not white space.
pub open spec fn word_run(s: Seq<char>) -> nat
    decreases s.len(),
{
    if s.len() == 0 || is_space(s[0]) {
        0
    } else {
        1 + word_run(s.skip(1))
    }
}

/// The number of leading decimal digits.
pub open spec fn digit_run(s: Seq<char>) -> nat
    decreases s.len(),
{
    if s.len() == 0 || !is_digit(s[0]) {
        0
    } else {
        1 + digit_run(s.skip(1))
    }
}

/// `s` without leading white space.
pub open spec fn trim_start(s: Seq<char>) -> Seq<char> {
    s.skip(space_run(s) as int)
}

/// `s` without trailing white space.
pub open spec fn trim_end(s: Seq<char>) -> Seq<char>
    decreases s.len(),
{
    if s.len() == 0 || !is_space(s.last()) {
        s
    } else {
        trim_end(s.drop_last())
    }
}

/// `s` without leading and trailing white space.
pub open spec fn trim(s: Seq<char>) -> Seq<char> {
    trim_end(trim_start(s))
}

/// `s` without leading occurrences of `c`.
pub open spec fn trim_start_matches(s: Seq<char>, c: char) -> Seq<char>
    decreases s.len(),
{
    if s.len() == 0 || s[0] != c {
        s
    } else {
        trim_start_matches(s.skip(1), c)
    }
}

/// The pieces of `s` between the occurrences of `c`.
pub open spec fn split(s: Seq<char>, c: char) -> Seq<Seq<char>>
    decreases s.len(),
{
    let k = before(s, c) as int;
    if k >= s.len() {
        seq![s]
    } else {
        seq![s.take(k)] + split(s.skip(k + 1), c)
    }
}

/// The maximal runs of characters that are not white space.
pub open spec fn words(s: Seq<char>) -> Seq<Seq<char>>
    decreases s.len(),
{
    let t = trim_start(s);
    let k = word_run(t) as int;
    if t.len() == 0 {
        seq![]
    } else {
        proof {
            lemma_space_run(s);
            lemma_word_run(t);
        }
        seq![t.take(k)] + words(t.skip(k))
    }
}

/// The parts one after another, with `sep` between two neighbours.
pub open spec fn join(parts: Seq<Seq<char>>, sep: Seq<char>) -> Seq<char>
    decreases parts.len(),
{
    if parts.len() == 0 {
        seq![]
    } else if parts.len() == 1 {
        parts[0]
    } else {
        join(parts.drop_last(), sep) + sep + parts.last()
    }
}

/// `s` with single blanks for its white space, and none around it.
pub open spec fn single_spaced(s: Seq<char>) -> Seq<char> {
    join(words(s), " "@)
}

/// Whether `s` begins with `p`.
pub open spec fn starts_with(s: Seq<char>, p: Seq<char>) -> bool {
    p.len() <= s.len() && s.take(p.len() as int) == p
}

/// Whether `s` ends with `p`.
pub open spec fn ends_with(s: Seq<char>, p: Seq<char>) -> bool {
    p.len() <= s.len() && s.skip(s.len() - p.len()) == p
}

/// Whether `p` occurs in `s` at index `i`.
pub open spec fn occurs_at(s: Seq<char>, p: Seq<char>, i: int) -> bool {
    0 <= i && i + p.len() <= s.len() && s.subrange(i, i + p.len()) == p
}

/// Whether `p` occurs in `s`.
pub open spec fn contains_text(s: Seq<char>, p: Seq<char>) -> bool {
    exists|i: int| occurs_at(s, p, i)
}

/// `s` without any `c`.
pub open spec fn without_char(s: Seq<char>, c: char) -> Seq<char>
    decreases s.len(),
{
    if s.len() == 0 {
        seq![]
    } else if s.last() == c {
        without_char(s.drop_last(), c)
    } else {
        without_char(s.drop_last(), c).push(s.last())
    }
}

/// Lexicographic order by code points.
pub open spec fn text_less(a: Seq<char>, b: Seq<char>) -> bool
    decreases a.len(),
{
    if b.len() == 0 {
        false
    } else if a.len() == 0 {
        true
    } else if a[0] != b[0] {
        a[0] < b[0]
    } else {
        text_less(a.skip(1), b.skip(1))
    }
}

/// The contents of a vector of strings.
pub open spec fn texts(v: Seq<String>) -> Seq<Seq<char>> {
    Seq::new(v.len(), |i: int| v[i]@)
}

/// The contents of a vector of character vectors.
pub open spec fn rows(v: Seq<Vec<char>>) -> Seq<Seq<char>> {
    Seq::new(v.len(), |i: int| v[i]@)
}

// ---------------------------------------------------------------------------
// The order of texts
// ---------------------------------------------------------------------------

/// Of two different texts exactly one precedes the other, and none precedes itself.
pub proof fn lemma_text_less_total(a: Seq<char>, b: Seq<char>)
    ensures
        text_less(a, b) ==> !text_less(b, a) && a != b,
        a != b ==> text_less(a, b) || text_less(b, a),
    decreases a.len(),
{
    if a.len() > 0 && b.len() > 0 && a[0] == b[0] {
        lemma_text_less_total(a.skip(1), b.skip(1));
        if a.skip(1) == b.skip(1) {
            assert(a =~= seq![a[0]] + a.skip(1));
            assert(b =~= seq![b[0]] + b.skip(1));
        }
    } else if a.len() == 0 && b.len() == 0 {
        assert(a =~= b);
    }
}

/// The order of texts is transitive.
pub proof fn lemma_text_less_transitive(a: Seq<char>, b: Seq<char>, c: Seq<char>)
    requires
        text_less(a, b),
        text_less(b, c),
    ensures
        text_less(a, c),
    decreases a.len(),
{
    if a.len() > 0 && a[0] == b[0] && b[0] == c[0] {
        lemma_text_less_transitive(a.skip(1), b.skip(1), c.skip(1));
    }
}

// ---------------------------------------------------------------------------
// The operations
// ---------------------------------------------------------------------------

/// The characters of a string.
pub fn chars_of(s: &str) -> (r: Vec<char>)
    ensures
        r@ == s@,
{
    let mut out: Vec<char> = Vec::new();
    for c in it: s.chars()
        invariant
            out@ == it.seq().take(it.index()),
            it.seq() == s@,
    {
        out.push(c);
    }
    out
}

/// The string made of the given characters.
pub fn string_of(chars: &[char]) -> (r: String)
    ensures
        r@ == chars@,
{
    let mut out = String::new();
    for i in 0..chars.len()
        invariant
            out@ == chars@.take(i as int),
    {
        out.push(chars[i]);
    }
    out
}

/// Tells whether a character is white space.
pub fn char_is_space(c: char) -> (r: bool)
    ensures
        r == is_space(c),
{
    ('\u{9}' <= c && c <= '\u{D}') || c == ' ' || c == '\u{85}' || c == '\u{A0}' || c == '\u{1680}'
        || ('\u{2000}' <= c && c <= '\u{200A}') || c == '\u{2028}' || c == '\u{2029}' || c
        == '\u{202F}' || c == '\u{205F}' || c == '\u{3000}'
}

/// A copy of the characters from `from` up to `to`.
pub fn copy_range(s: &[char], from: usize, to: usize) -> (r: Vec<char>)
    requires
        from <= to <= s@.len(),
    ensures
        r@ == s@.subrange(from as int, to as int),
{
    let mut out: Vec<char> = Vec::new();
    let mut i: usize = from;
    while i < to
        invariant
            from <= i <= to <= s@.len(),
            out@ == s@.subrange(from as int, i as int),
        decreases to - i,
    {
        out.push(s[i]);
        i += 1;
        assert(s@.subrange(from as int, i as int) =~= s@.subrange(from as int, i - 1).push(
            s@[i - 1],
        ));
    }
    out
}

/// Tells whether two character slices hold the same text.
pub fn same_chars(a: &[char], b: &[char]) -> (r: bool)
    ensures
        r == (a@ == b@),
{
    if a.len() != b.len() {
        return false;
    }
    let mut i: usize = 0;
    while i < a.len()
        invariant
            i <= a@.len() == b@.len(),
            forall|k: int| 0 <= k < i ==> a@[k] == b@[k],
        decreases a@.len() - i,
    {
        if a[i] != b[i] {
            return false;
        }
        i += 1;
    }
    assert(a@ =~= b@);
    true
}

/// Tells whether two strings hold the same text.
pub fn same_text(a: &str, b: &str) -> (r: bool)
    ensures
        r == (a@ == b@),
{
    same_chars(&chars_of(a), &chars_of(b))
}

/// `space_run` counts leading white space, and ends where it ends.
pub proof fn lemma_space_run(s: Seq<char>)
    ensures
        space_run(s) <= s.len(),
        forall|k: int| 0 <= k < space_run(s) ==> is_space(#[trigger] s[k]),
        space_run(s) < s.len() ==> !is_space(s[space_run(s) as int]),
    decreases s.len(),
{
    if s.len() > 0 && is_space(s[0]) {
        lemma_space_run(s.skip(1));
        assert forall|k: int| 0 <= k < space_run(s) implies is_space(#[trigger] s[k]) by {
            if k > 0 {
                assert(s[k] == s.skip(1)[k - 1]);
            }
        }
    }
}

/// `word_run` counts leading characters that are not white space.
pub proof fn lemma_word_run(s: Seq<char>)
    ensures
        word_run(s) <= s.len(),
        forall|k: int| 0 <= k < word_run(s) ==> !is_space(#[trigger] s[k]),
        word_run(s) < s.len() ==> is_space(s[word_run(s) as int]),
        s.len() > 0 && !is_space(s[0]) ==> word_run(s) > 0,
    decreases s.len(),
{
    if s.len() > 0 && !is_space(s[0]) {
        lemma_word_run(s.skip(1));
        assert forall|k: int| 0 <= k < word_run(s) implies !is_space(#[trigger] s[k]) by {
            if k > 0 {
                assert(s[k] == s.skip(1)[k - 1]);
            }
        }
    }
}

/// `digit_run` counts leading digits, and ends where they end.
pub proof fn lemma_digit_run(s: Seq<char>)
    ensures
        digit_run(s) <= s.len(),
        forall|k: int| 0 <= k < digit_run(s) ==> is_digit(#[trigger] s[k]),
        digit_run(s) < s.len() ==> !is_digit(s[digit_run(s) as int]),
    decreases s.len(),
{
    if s.len() > 0 && is_digit(s[0]) {
        lemma_digit_run(s.skip(1));
        assert forall|k: int| 0 <= k < digit_run(s) implies is_digit(#[trigger] s[k]) by {
            if k > 0 {
                assert(s[k] == s.skip(1)[k - 1]);
            }
        }
    }
}

/// Trailing white space is all that `trim_end` takes away.
pub proof fn lemma_trim_end(s: Seq<char>, k: int)
    requires
        0 <= k <= s.len(),
        forall|j: int| k <= j < s.len() ==> is_space(#[trigger] s[j]),
        k > 0 ==> !is_space(s[k - 1]),
    ensures
        trim_end(s) == s.take(k),
    decreases s.len(),
{
    if k < s.len() {
        assert(is_space(s[s.len() - 1]));
        let d = s.drop_last();
        assert forall|j: int| k <= j < d.len() implies is_space(#[trigger] d[j]) by {
            assert(d[j] == s[j]);
        }
        lemma_trim_end(d, k);
        assert(d.take(k) =~= s.take(k));
    } else {
        assert(s.take(k) =~= s);
    }
}

proof fn lemma_space_run_is(s: Seq<char>, k: int)
    requires
        0 <= k <= s.len(),
        forall|j: int| 0 <= j < k ==> is_space(#[trigger] s[j]),
        k < s.len() ==> !is_space(s[k]),
    ensures
        space_run(s) == k,
{
    lemma_space_run(s);
    let b = space_run(s) as int;
    if b < k {
        assert(is_space(s[b]));
    }
    if k < b {
        assert(is_space(s[k]));
    }
}

proof fn lemma_word_run_is(s: Seq<char>, k: int)
    requires
        0 <= k <= s.len(),
        forall|j: int| 0 <= j < k ==> !is_space(#[trigger] s[j]),
        k < s.len() ==> is_space(s[k]),
    ensures
        word_run(s) == k,
{
    lemma_word_run(s);
    let b = word_run(s) as int;
    if b < k {
        assert(!is_space(s[b]));
    }
    if k < b {
        assert(!is_space(s[k]));
    }
}

/// No `c` stands before the first one.
pub proof fn lemma_before_bound(s: Seq<char>, c: char)
    ensures
        before(s, c) <= s.len(),
        before(s, c) < s.len() ==> s[before(s, c) as int] == c,
        forall|k: int| 0 <= k < before(s, c) ==> s[k] != c,
    decreases s.len(),
{
    if s.len() > 0 && s[0] != c {
        lemma_before_bound(s.skip(1), c);
        assert forall|k: int| 0 <= k < before(s, c) implies s[k] != c by {
            if k > 0 {
                assert(s[k] == s.skip(1)[k - 1]);
            }
        }
    }
}

/// `before` is the index of the first `c`.
pub proof fn lemma_before(s: Seq<char>, c: char, k: int)
    requires
        0 <= k <= s.len(),
        forall|j: int| 0 <= j < k ==> s[j] != c,
        k < s.len() ==> s[k] == c,
    ensures
        before(s, c) == k,
{
    lemma_before_bound(s, c);
    let b = before(s, c) as int;
    if b < k {
        assert(s[b] == c);
    }
    if k < b {
        assert(s[k] != c);
    }
}

/// `trim` takes white space away on both sides, and nothing else.
pub proof fn lemma_trim(left: Seq<char>, core: Seq<char>, right: Seq<char>)
    requires
        forall|k: int| 0 <= k < left.len() ==> is_space(#[trigger] left[k]),
        forall|k: int| 0 <= k < right.len() ==> is_space(#[trigger] right[k]),
        core.len() > 0,
        !is_space(core[0]),
        !is_space(core.last()),
    ensures
        trim(left + core + right) == core,
{
    let s = left + core + right;
    let n = left.len() as int;
    assert forall|j: int| 0 <= j < n implies is_space(#[trigger] s[j]) by {
        assert(s[j] == left[j]);
    }
    assert(s[n] == core[0]);
    lemma_space_run_is(s, n);
    let t = s.skip(n);
    assert(t =~= core + right);
    assert forall|j: int| core.len() <= j < t.len() implies is_space(#[trigger] t[j]) by {
        assert(t[j] == right[j - core.len()]);
    }
    assert(t[core.len() - 1] == core.last());
    lemma_trim_end(t, core.len() as int);
    assert(t.take(core.len() as int) =~= core);
}

/// Leading occurrences of `c` are all that `trim_start_matches` takes away.
pub proof fn lemma_trim_start_matches(s: Seq<char>, c: char)
    ensures
        trim_start_matches(s, c).len() <= s.len(),
        s.skip(s.len() - trim_start_matches(s, c).len()) == trim_start_matches(s, c),
        forall|i: int| 0 <= i < s.len() - trim_start_matches(s, c).len() ==> s[i] == c,
    decreases s.len(),
{
    let t = trim_start_matches(s, c);
    if s.len() == 0 || s[0] != c {
        assert(s.skip(0) =~= s);
    } else {
        let rest = s.skip(1);
        lemma_trim_start_matches(rest, c);
        assert(s.skip(s.len() - t.len()) =~= rest.skip(rest.len() - t.len()));
        assert forall|i: int| 0 <= i < s.len() - t.len() implies s[i] == c by {
            if i > 0 {
                assert(s[i] == rest[i - 1]);
            }
        }
    }
}

/// What `trim` leaves does not begin or end with white space.
pub proof fn lemma_trim_is_bare(s: Seq<char>)
    ensures
        trim(s).len() > 0 ==> !is_space(trim(s)[0]) && !is_space(trim(s).last()),
{
    let t = trim_start(s);
    lemma_space_run(s);
    lemma_trim_end_is_prefix(t);
}

proof fn lemma_trim_end_is_prefix(t: Seq<char>)
    ensures
        trim_end(t).len() <= t.len(),
        trim_end(t) == t.take(trim_end(t).len() as int),
        trim_end(t).len() > 0 ==> !is_space(trim_end(t).last()),
    decreases t.len(),
{
    if t.len() > 0 && is_space(t.last()) {
        lemma_trim_end_is_prefix(t.drop_last());
        assert(t.drop_last().take(trim_end(t).len() as int) =~= t.take(trim_end(t).len() as int));
    } else {
        assert(t.take(t.len() as int) =~= t);
    }
}

/// Where the text begins and ends, but for leading and trailing white space.
pub fn trim_bounds(s: &[char]) -> (r: (usize, usize))
    ensures
        r.0 <= r.1 <= s@.len(),
        s@.subrange(r.0 as int, r.1 as int) == trim(s@),
{
    let mut from: usize = 0;
    while from < s.len() && char_is_space(s[from])
        invariant
            from <= s@.len(),
            forall|j: int| 0 <= j < from ==> is_space(#[trigger] s@[j]),
        decreases s@.len() - from,
    {
        from += 1;
    }
    proof {
        lemma_space_run_is(s@, from as int);
    }
    let mut to: usize = s.len();
    while to > from && char_is_space(s[to - 1])
        invariant
            from <= to <= s@.len(),
            forall|j: int| to <= j < s@.len() ==> is_space(#[trigger] s@[j]),
        decreases to,
    {
        to -= 1;
    }
    proof {
        let t = s@.skip(from as int);
        assert forall|j: int| to - from <= j < t.len() implies is_space(#[trigger] t[j]) by {
            assert(t[j] == s@[j + from]);
        }
        lemma_trim_end(t, to - from);
        assert(t.take(to - from) =~= s@.subrange(from as int, to as int));
    }
    (from, to)
}

/// The characters without leading and trailing white space.
pub fn trim_chars(s: &[char]) -> (r: Vec<char>)
    ensures
        r@ == trim(s@),
{
    let (from, to) = trim_bounds(s);
    copy_range(s, from, to)
}

/// The text without leading and trailing white space.
pub fn trim_text(s: &str) -> (r: String)
    ensures
        r@ == trim(s@),
{
    string_of(&trim_chars(&chars_of(s)))
}

/// The characters without leading occurrences of `c`.
pub fn trim_start_matches_chars(s: &[char], c: char) -> (r: Vec<char>)
    ensures
        r@ == trim_start_matches(s@, c),
{
    let mut from: usize = 0;
    assert(s@.skip(0) =~= s@);
    while from < s.len() && s[from] == c
        invariant
            from <= s@.len(),
            trim_start_matches(s@, c) == trim_start_matches(s@.skip(from as int), c),
        decreases s@.len() - from,
    {
        assert(s@.skip(from as int).skip(1) =~= s@.skip(from + 1));
        from += 1;
    }
    assert(s@.subrange(from as int, s@.len() as int) =~= s@.skip(from as int));
    copy_range(s, from, s.len())
}

/// The index of the first `c` at or after `from`, or the length.
pub fn find_char(s: &[char], c: char, from: usize) -> (r: usize)
    requires
        from <= s@.len(),
    ensures
        from <= r <= s@.len(),
        r == from + before(s@.skip(from as int), c),
{
    let mut i: usize = from;
    while i < s.len() && s[i] != c
        invariant
            from <= i <= s@.len(),
            forall|j: int| from <= j < i ==> s@[j] != c,
        decreases s@.len() - i,
    {
        i += 1;
    }
    proof {
        lemma_before(s@.skip(from as int), c, i - from);
    }
    i
}

/// The pieces between the occurrences of `c`.
pub fn split_chars(s: &[char], c: char) -> (r: Vec<Vec<char>>)
    ensures
        rows(r@) == split(s@, c),
{
    let mut out: Vec<Vec<char>> = Vec::new();
    let mut start: usize = 0;
    assert(s@.skip(0) =~= s@);
    assert(rows(out@) + split(s@, c) =~= split(s@, c));
    loop
        invariant
            start <= s@.len(),
            rows(out@) + split(s@.skip(start as int), c) == split(s@, c),
        decreases s@.len() - start,
    {
        let end = find_char(s, c, start);
        let ghost rest = s@.skip(start as int);
        let piece = copy_range(s, start, end);
        let ghost old_out = out@;
        out.push(piece);
        proof {
            assert(piece@ =~= rest.take(end - start));
            assert(rows(out@) =~= rows(old_out).push(piece@));
            assert(rows(old_out) + seq![piece@] =~= rows(out@));
        }
        if end == s.len() {
            proof {
                assert(rest.take(end - start) =~= rest);
                assert(split(rest, c) =~= seq![rest]);
            }
            return out;
        }
        proof {
            assert(rest.skip(end - start + 1) =~= s@.skip(end + 1));
            let tail = split(s@.skip(end + 1), c);
            assert(split(rest, c) == seq![piece@] + tail);
            assert(rows(old_out) + (seq![piece@] + tail) =~= (rows(old_out) + seq![piece@])
                + tail);
        }
        start = end + 1;
    }
}

/// The maximal runs of characters that are not white space.
pub fn words_of(s: &[char]) -> (r: Vec<Vec<char>>)
    ensures
        rows(r@) == words(s@),
{
    let mut out: Vec<Vec<char>> = Vec::new();
    let mut start: usize = 0;
    assert(s@.skip(0) =~= s@);
    assert(rows(out@) + words(s@) =~= words(s@));
    loop
        invariant
            start <= s@.len(),
            rows(out@) + words(s@.skip(start as int)) == words(s@),
        decreases s@.len() - start,
    {
        let ghost rest = s@.skip(start as int);
        let mut from: usize = start;
        while from < s.len() && char_is_space(s[from])
            invariant
                start <= from <= s@.len(),
                rest == s@.skip(start as int),
                forall|j: int| 0 <= j < from - start ==> is_space(#[trigger] rest[j]),
            decreases s@.len() - from,
        {
            assert(rest[from - start] == s@[from as int]);
            from += 1;
        }
        proof {
            if from < s@.len() {
                assert(rest[from - start] == s@[from as int]);
            }
            lemma_space_run_is(rest, from - start);
            assert(trim_start(rest) =~= s@.skip(from as int));
        }
        if from == s.len() {
            assert(words(rest) =~= seq![]);
            assert(rows(out@) + words(rest) =~= rows(out@));
            return out;
        }
        let ghost t = s@.skip(from as int);
        assert(t[0] == s@[from as int]);
        let mut to: usize = from;
        while to < s.len() && !char_is_space(s[to])
            invariant
                from <= to <= s@.len(),
                t == s@.skip(from as int),
                forall|j: int| 0 <= j < to - from ==> !is_space(#[trigger] t[j]),
            decreases s@.len() - to,
        {
            assert(t[to - from] == s@[to as int]);
            to += 1;
        }
        proof {
            if to < s@.len() {
                assert(t[to - from] == s@[to as int]);
            }
            lemma_word_run_is(t, to - from);
            lemma_word_run(t);
        }
        let piece = copy_range(s, from, to);
        let ghost old_out = out@;
        out.push(piece);
        proof {
            assert(piece@ =~= t.take(to - from));
            assert(rows(out@) =~= rows(old_out) + seq![piece@]);
            assert(t.skip(to - from) =~= s@.skip(to as int));
            let tail = words(s@.skip(to as int));
            assert(words(rest) == seq![piece@] + tail);
            assert(rows(old_out) + (seq![piece@] + tail) =~= (rows(old_out) + seq![piece@])
                + tail);
        }
        start = to;
    }
}

/// The parts one after another, with `sep` between two neighbours.
pub fn join_chars(parts: &Vec<Vec<char>>, sep: &str) -> (r: Vec<char>)
    ensures
        r@ == join(rows(parts@), sep@),
{
    let sep_chars = chars_of(sep);
    let mut out: Vec<char> = Vec::new();
    let mut i: usize = 0;
    while i < parts.len()
        invariant
            i <= parts@.len(),
            sep_chars@ == sep@,
            out@ == join(rows(parts@).take(i as int), sep@),
        decreases parts@.len() - i,
    {
        let ghost cur = rows(parts@).take(i + 1);
        assert(cur.drop_last() =~= rows(parts@).take(i as int));
        if i > 0 {
            extend_chars(&mut out, &sep_chars);
        }
        extend_chars(&mut out, &parts[i]);
        i += 1;
        assert(out@ =~= join(cur, sep@));
    }
    assert(rows(parts@).take(i as int) =~= rows(parts@));
    out
}

/// Appends characters.
pub fn extend_chars(out: &mut Vec<char>, more: &[char])
    ensures
        final(out)@ == old(out)@ + more@,
{
    let mut i: usize = 0;
    while i < more.len()
        invariant
            i <= more@.len(),
            out@ == old(out)@ + more@.take(i as int),
        decreases more@.len() - i,
    {
        out.push(more[i]);
        i += 1;
        assert(more@.take(i as int) =~= more@.take(i - 1).push(more@[i - 1]));
    }
    assert(more@.take(i as int) =~= more@);
}

/// The strings one after another, with `sep` between two neighbours.
pub fn join_texts(parts: &Vec<String>, sep: &str) -> (r: String)
    ensures
        r@ == join(texts(parts@), sep@),
{
    let mut out = String::new();
    let mut i: usize = 0;
    while i < parts.len()
        invariant
            i <= parts@.len(),
            out@ == join(texts(parts@).take(i as int), sep@),
        decreases parts@.len() - i,
    {
        let ghost cur = texts(parts@).take(i + 1);
        assert(cur.drop_last() =~= texts(parts@).take(i as int));
        if i > 0 {
            out.append(sep);
        }
        out.append(parts[i].as_str());
        i += 1;
        assert(out@ =~= join(cur, sep@));
    }
    assert(texts(parts@).take(i as int) =~= texts(parts@));
    out
}

/// Tells whether `p` occurs in `s` at index `i`.
fn occurs_at_chars(s: &[char], p: &[char], i: usize) -> (r: bool)
    requires
        i <= s@.len(),
    ensures
        r == occurs_at(s@, p@, i as int),
{
    if p.len() > s.len() - i {
        return false;
    }
    let mut k: usize = 0;
    while k < p.len()
        invariant
            i + p.len() <= s.len(),
            k <= p@.len(),
            forall|j: int| 0 <= j < k ==> s@[i + j] == p@[j],
        decreases p@.len() - k,
    {
        if s[i + k] != p[k] {
            proof {
                let w = s@.subrange(i as int, i + p@.len());
                assert(w[k as int] == s@[i + k]);
            }
            return false;
        }
        k += 1;
    }
    assert(s@.subrange(i as int, i + p@.len()) =~= p@);
    true
}

/// Tells whether `s` ends with `p`.
pub fn ends_with_text(s: &[char], p: &str) -> (r: bool)
    ensures
        r == ends_with(s@, p@),
{
    let p_chars = chars_of(p);
    if p_chars.len() > s.len() {
        return false;
    }
    proof {
        let i = s@.len() - p@.len();
        assert(s@.skip(i) =~= s@.subrange(i, i + p@.len()));
    }
    occurs_at_chars(s, &p_chars, s.len() - p_chars.len())
}

/// The characters without any `c`.
pub fn without_char_of(s: &[char], c: char) -> (r: Vec<char>)
    ensures
        r@ == without_char(s@, c),
{
    let mut out: Vec<char> = Vec::new();
    let mut i: usize = 0;
    while i < s.len()
        invariant
            i <= s@.len(),
            out@ == without_char(s@.take(i as int), c),
        decreases s@.len() - i,
    {
        assert(s@.take(i + 1).drop_last() =~= s@.take(i as int));
        if s[i] != c {
            out.push(s[i]);
        }
        i += 1;
    }
    assert(s@.take(i as int) =~= s@);
    out
}

/// Tells whether `a` precedes `b` by code points.
pub fn text_precedes(a: &str, b: &str) -> (r: bool)
    ensures
        r == text_less(a@, b@),
{
    let x = chars_of(a);
    let y = chars_of(b);
    let mut i: usize = 0;
    assert(x@.skip(0) =~= x@);
    assert(y@.skip(0) =~= y@);
    loop
        invariant
            x@ == a@,
            y@ == b@,
            i <= x@.len(),
            i <= y@.len(),
            text_less(x@, y@) == text_less(x@.skip(i as int), y@.skip(i as int)),
        decreases x@.len() - i,
    {
        if i == y.len() {
            return false;
        }
        if i == x.len() {
            return true;
        }
        assert(x@.skip(i as int)[0] == x@[i as int]);
        assert(y@.skip(i as int)[0] == y@[i as int]);
        if x[i] != y[i] {
            return x[i] < y[i];
        }
        assert(x@.skip(i as int).skip(1) =~= x@.skip(i + 1));
        assert(y@.skip(i as int).skip(1) =~= y@.skip(i + 1));
        i += 1;
    }
}

// ---------------------------------------------------------------------------
// Laws
// ---------------------------------------------------------------------------

/// White space is what Unicode lists as such: six characters of ASCII, and nineteen others.
pub proof fn law_white_space(c: char)
    ensures
        is_space(c) <==> {
            let n = c as u32;
            ||| 0x9 <= n <= 0xD || n == 0x20 || n == 0x85 || n == 0xA0 || n == 0x1680
            ||| 0x2000 <= n <= 0x200A || n == 0x2028 || n == 0x2029 || n == 0x202F
            ||| n == 0x205F || n == 0x3000
        },
{
}

/// Trimming gives back what stands between white space, whatever that holds inside.
pub proof fn law_trim(left: Seq<char>, core: Seq<char>, right: Seq<char>)
    requires
        forall|k: int| 0 <= k < left.len() ==> is_space(#[trigger] left[k]),
        forall|k: int| 0 <= k < right.len() ==> is_space(#[trigger] right[k]),
        core.len() > 0 ==> !is_space(core[0]) && !is_space(core.last()),
    ensures
        trim(left + core + right) == core,
{
    if core.len() > 0 {
        lemma_trim(left, core, right);
    } else {
        let s = left + core + right;
        assert forall|j: int| 0 <= j < s.len() implies is_space(#[trigger] s[j]) by {
            if j < left.len() {
                assert(s[j] == left[j]);
            } else {
                assert(s[j] == right[j - left.len()]);
            }
        }
        lemma_space_run_is(s, s.len() as int);
        assert(trim(s) =~= core);
    }
}

/// Every text is white space, what trimming leaves, and white space.
pub proof fn law_trim_leaves_the_middle(s: Seq<char>) -> (r: (Seq<char>, Seq<char>))
    ensures
        s == r.0 + trim(s) + r.1,
        forall|k: int| 0 <= k < r.0.len() ==> is_space(#[trigger] (r.0)[k]),
        forall|k: int| 0 <= k < r.1.len() ==> is_space(#[trigger] (r.1)[k]),
        trim(s).len() > 0 ==> !is_space(trim(s)[0]) && !is_space(trim(s).last()),
{
    let left = s.take(space_run(s) as int);
    let right = trim_start(s).skip(trim(s).len() as int);
    lemma_trim_parts(s);
    lemma_trim_is_bare(s);
    assert(forall|k: int| 0 <= k < left.len() ==> is_space(#[trigger] left[k])) by {
        lemma_space_run(s);
    }
    assert(forall|k: int| 0 <= k < right.len() ==> is_space(#[trigger] right[k])) by {
        lemma_trim_end_rest(trim_start(s));
    }
    (left, right)
}

/// A text is what trimming takes away before and after what it leaves.
proof fn lemma_trim_parts(s: Seq<char>)
    ensures
        s == s.take(space_run(s) as int) + trim(s) + trim_start(s).skip(trim(s).len() as int),
{
    let n = space_run(s) as int;
    let t = trim_start(s);
    let m = trim(s).len() as int;
    assert(0 <= n <= s.len()) by {
        lemma_space_run(s);
    }
    assert(trim(s) == t.take(m) && m <= t.len()) by {
        lemma_trim_end_is_prefix(t);
    }
    assert(s =~= s.take(n) + t.take(m) + t.skip(m));
}

/// What trimming takes away at the end is white space.
proof fn lemma_trim_end_rest(t: Seq<char>)
    ensures
        trim_end(t).len() <= t.len(),
        forall|k: int| trim_end(t).len() <= k < t.len() ==> is_space(#[trigger] t[k]),
        forall|k: int|
            0 <= k < t.skip(trim_end(t).len() as int).len() ==> is_space(
                #[trigger] t.skip(trim_end(t).len() as int)[k],
            ),
    decreases t.len(),
{
    if t.len() > 0 && is_space(t.last()) {
        let d = t.drop_last();
        lemma_trim_end_rest(d);
        assert forall|k: int| trim_end(t).len() <= k < t.len() implies is_space(#[trigger] t[k]) by {
            if k < d.len() {
                assert(d[k] == t[k]);
            }
        }
    }
    let m = trim_end(t).len() as int;
    assert forall|k: int| 0 <= k < t.skip(m).len() implies is_space(#[trigger] t.skip(m)[k]) by {
        assert(t.skip(m)[k] == t[k + m]);
    }
}

/// All leading occurrences of a character are taken away, and nothing else.
pub proof fn law_trim_start_matches(signs: Seq<char>, rest: Seq<char>, c: char)
    requires
        forall|k: int| 0 <= k < signs.len() ==> #[trigger] signs[k] == c,
        rest.len() > 0 ==> rest[0] != c,
    ensures
        trim_start_matches(signs + rest, c) == rest,
    decreases signs.len(),
{
    let s = signs + rest;
    if signs.len() > 0 {
        assert(s[0] == signs[0]);
        assert(s.skip(1) =~= signs.skip(1) + rest);
        law_trim_start_matches(signs.skip(1), rest, c);
    } else {
        assert(s =~= rest);
    }
}

/// Parts are joined one after another, with the separator between two neighbours.
pub proof fn law_join(parts: Seq<Seq<char>>, part: Seq<char>, sep: Seq<char>)
    ensures
        join(Seq::<Seq<char>>::empty(), sep) == Seq::<char>::empty(),
        join(seq![part], sep) == part,
        parts.len() > 0 ==> join(parts.push(part), sep) == join(parts, sep) + sep + part,
{
    if parts.len() > 0 {
        assert(parts.push(part).drop_last() =~= parts);
    }
}

/// The first of several parts comes first.
pub proof fn law_join_first(first: Seq<char>, parts: Seq<Seq<char>>, sep: Seq<char>)
    requires
        parts.len() > 0,
    ensures
        join(seq![first] + parts, sep) == first + sep + join(parts, sep),
    decreases parts.len(),
{
    let all = seq![first] + parts;
    assert(all.drop_last() =~= seq![first] + parts.drop_last());
    if parts.len() == 1 {
        assert(all.drop_last() =~= seq![first]);
        assert(join(all.drop_last(), sep) == first);
    } else {
        law_join_first(first, parts.drop_last(), sep);
        assert(join(all, sep) =~= first + sep + join(parts, sep));
    }
}

/// Splitting undoes joining: pieces without the separator come back, each one and in order.
pub proof fn law_split_undoes_join(pieces: Seq<Seq<char>>, c: char)
    requires
        pieces.len() > 0,
        forall|k: int| 0 <= k < pieces.len() ==> !(#[trigger] pieces[k]).contains(c),
    ensures
        split(join(pieces, seq![c]), c) == pieces,
    decreases pieces.len(),
{
    let s = join(pieces, seq![c]);
    let first = pieces[0];
    let k = first.len() as int;
    assert forall|j: int| 0 <= j < k implies first[j] != c by {
        assert(first.contains(first[j]));
    }
    if pieces.len() == 1 {
        assert(s == first);
        lemma_before(s, c, k);
        assert(split(s, c) =~= pieces);
    } else {
        let rest = pieces.skip(1);
        assert(pieces =~= seq![first] + rest);
        law_join_first(first, rest, seq![c]);
        assert forall|j: int| 0 <= j < k implies s[j] != c by {
            assert(s[j] == first[j]);
        }
        assert(s[k] == c);
        lemma_before(s, c, k);
        assert(s.take(k) =~= first);
        assert(s.skip(k + 1) =~= join(rest, seq![c]));
        assert forall|j: int| 0 <= j < rest.len() implies !(#[trigger] rest[j]).contains(c) by {
            assert(rest[j] == pieces[j + 1]);
        }
        law_split_undoes_join(rest, c);
        assert(split(s, c) =~= pieces);
    }
}

/// Joining undoes splitting, and no piece holds the separator.
pub proof fn law_join_undoes_split(s: Seq<char>, c: char)
    ensures
        split(s, c).len() > 0,
        join(split(s, c), seq![c]) == s,
        forall|k: int| 0 <= k < split(s, c).len() ==> !(#[trigger] split(s, c)[k]).contains(c),
    decreases s.len(),
{
    lemma_before_bound(s, c);
    let k = before(s, c) as int;
    let first = s.take(k);
    assert(!first.contains(c)) by {
        if first.contains(c) {
            assert(s[first.index_of(c)] == c);
        }
    }
    if k == s.len() {
        assert(first =~= s);
    } else {
        let rest = split(s.skip(k + 1), c);
        law_join_undoes_split(s.skip(k + 1), c);
        law_join_first(first, rest, seq![c]);
        assert(s =~= first + seq![c] + s.skip(k + 1));
        assert forall|j: int| 0 <= j < split(s, c).len() implies !(#[trigger] split(
            s,
            c,
        )[j]).contains(c) by {
            if j > 0 {
                assert(split(s, c)[j] == rest[j - 1]);
            }
        }
    }
}

/// A word, with white space before it and none in it, is read first, and then the words
/// after it. White space alone holds no word.
pub proof fn law_words(gap: Seq<char>, word: Seq<char>, rest: Seq<char>)
    requires
        forall|k: int| 0 <= k < gap.len() ==> is_space(#[trigger] gap[k]),
        forall|k: int| 0 <= k < word.len() ==> !is_space(#[trigger] word[k]),
        rest.len() > 0 ==> is_space(rest[0]),
    ensures
        word.len() > 0 ==> words(gap + word + rest) == seq![word] + words(rest),
        words(gap).len() == 0,
{
    assert(words(gap).len() == 0) by {
        lemma_space_run_is(gap, gap.len() as int);
        assert(trim_start(gap).len() == 0);
    }
    if word.len() > 0 {
        let s = gap + word + rest;
        let n = gap.len() as int;
        assert forall|j: int| 0 <= j < n implies is_space(#[trigger] s[j]) by {
            assert(s[j] == gap[j]);
        }
        assert(s[n] == word[0]);
        lemma_space_run_is(s, n);
        let t = s.skip(n);
        assert(t =~= word + rest);
        assert(trim_start(s) == t);
        let k = word.len() as int;
        assert forall|j: int| 0 <= j < k implies !is_space(#[trigger] t[j]) by {
            assert(t[j] == word[j]);
        }
        if k < t.len() {
            assert(t[k] == rest[0]);
        }
        lemma_word_run_is(t, k);
        assert(t.take(k) =~= word);
        assert(t.skip(k) =~= rest);
    }
}

/// A text in single blanks has its words, one blank between two neighbours, and nothing else.
pub proof fn law_single_spaced(gap: Seq<char>, word: Seq<char>, rest: Seq<char>)
    requires
        forall|k: int| 0 <= k < gap.len() ==> is_space(#[trigger] gap[k]),
        word.len() > 0,
        forall|k: int| 0 <= k < word.len() ==> !is_space(#[trigger] word[k]),
        rest.len() > 0 ==> is_space(rest[0]),
    ensures
        single_spaced(gap).len() == 0,
        single_spaced(gap + word + rest) == (if single_spaced(rest).len() == 0 {
            word
        } else {
            word + seq![' '] + single_spaced(rest)
        }),
{
    reveal_strlit(" ");
    law_words(gap, word, rest);
    assert(words(gap) =~= seq![]);
    lemma_words_are_not_empty(rest);
    assert(" "@ =~= seq![' ']);
    if words(rest).len() == 0 {
        assert(words(gap + word + rest) =~= seq![word]);
    } else {
        law_join_first(word, words(rest), " "@);
        lemma_join_len(words(rest), " "@);
    }
}

/// Joined parts are at least as long as the last of them.
proof fn lemma_join_len(parts: Seq<Seq<char>>, sep: Seq<char>)
    requires
        parts.len() > 0,
    ensures
        join(parts, sep).len() >= parts.last().len(),
{
}

proof fn lemma_words_are_not_empty(s: Seq<char>)
    ensures
        forall|k: int| 0 <= k < words(s).len() ==> (#[trigger] words(s)[k]).len() > 0,
    decreases s.len(),
{
    let t = trim_start(s);
    let n = word_run(t) as int;
    lemma_space_run(s);
    lemma_word_run(t);
    if t.len() > 0 {
        lemma_words_are_not_empty(t.skip(n));
        assert forall|k: int| 0 <= k < words(s).len() implies (#[trigger] words(s)[k]).len()
            > 0 by {
            if k > 0 {
                assert(words(s)[k] == words(t.skip(n))[k - 1]);
            }
        }
    }
}

/// A character is taken out wherever it stands, and the others stay in their order.
pub proof fn law_without_char(s: Seq<char>, t: Seq<char>, c: char, d: char)
    ensures
        without_char(s + t, c) == without_char(s, c) + without_char(t, c),
        without_char(seq![d], c) == (if d == c {
            Seq::<char>::empty()
        } else {
            seq![d]
        }),
    decreases t.len(),
{
    if t.len() == 0 {
        assert(s + t =~= s);
        assert(without_char(s, c) + without_char(t, c) =~= without_char(s, c));
    } else {
        law_without_char(s, t.drop_last(), c, d);
        assert((s + t).drop_last() =~= s + t.drop_last());
        assert(without_char(s + t, c) =~= without_char(s, c) + without_char(t, c));
    }
    assert(seq![d].drop_last() =~= seq![]);
    assert(without_char(seq![d].drop_last(), c) =~= seq![]);
    assert(without_char(seq![d], c) =~= (if d == c {
        Seq::<char>::empty()
    } else {
        seq![d]
    }));
}

/// Of two texts the one comes first that ends where they agree, or that has the smaller
/// character where they first differ.
pub proof fn law_text_order(common: Seq<char>, a: Seq<char>, b: Seq<char>)
    ensures
        text_less(common, common + b) <==> b.len() > 0,
        !text_less(common + b, common),
        a.len() > 0 && b.len() > 0 && a[0] != b[0] ==> (text_less(common + a, common + b) <==> (
        b[0] as int) > (a[0] as int)),
    decreases common.len(),
{
    if common.len() == 0 {
        assert(common + a =~= a);
        assert(common + b =~= b);
    } else {
        law_text_order(common.skip(1), a, b);
        assert((common + a).skip(1) =~= common.skip(1) + a);
        assert((common + b).skip(1) =~= common.skip(1) + b);
    }
}

/// A text is split at a separator into the pieces before it and the pieces after it.
pub proof fn law_split_at_separator(a: Seq<char>, b: Seq<char>, c: char)
    ensures
        split(a + seq![c] + b, c) == split(a, c) + split(b, c),
{
    let (x, y) = (split(a, c), split(b, c));
    law_join_undoes_split(a, c);
    law_join_undoes_split(b, c);
    lemma_join_of_both(x, y, seq![c]);
    assert forall|k: int| 0 <= k < (x + y).len() implies !(#[trigger] (x + y)[k]).contains(c) by {
        if k < x.len() {
            assert((x + y)[k] == x[k]);
        } else {
            assert((x + y)[k] == y[k - x.len()]);
        }
    }
    law_split_undoes_join(x + y, c);
}

proof fn lemma_join_of_both(x: Seq<Seq<char>>, y: Seq<Seq<char>>, sep: Seq<char>)
    requires
        x.len() > 0,
        y.len() > 0,
    ensures
        join(x + y, sep) == join(x, sep) + sep + join(y, sep),
    decreases y.len(),
{
    let all = x + y;
    assert(all.drop_last() =~= x + y.drop_last());
    if y.len() == 1 {
        assert(all.drop_last() =~= x);
        assert(join(all, sep) =~= join(x, sep) + sep + join(y, sep));
    } else {
        lemma_join_of_both(x, y.drop_last(), sep);
        assert(join(all, sep) =~= join(x, sep) + sep + join(y, sep));
    }
}

/// A text begins with its first characters, ends with its last ones, and holds those between
/// them; what it begins, ends or goes on with is there to be cut off.
pub proof fn law_beginnings_and_ends(a: Seq<char>, p: Seq<char>, b: Seq<char>, s: Seq<char>)
    ensures
        starts_with(p + b, p),
        ends_with(a + p, p),
        contains_text(a + p + b, p),
        starts_with(s, p) ==> s == p + s.skip(p.len() as int),
        ends_with(s, p) ==> s == s.take(s.len() - p.len()) + p,
{
    assert((p + b).take(p.len() as int) =~= p);
    assert((a + p).skip(a.len() as int) =~= p);
    let n = a.len() as int;
    assert((a + p + b).subrange(n, n + p.len()) =~= p);
    assert(occurs_at(a + p + b, p, n));
    if starts_with(s, p) {
        assert(s =~= s.take(p.len() as int) + s.skip(p.len() as int));
    }
    if ends_with(s, p) {
        assert(s =~= s.take(s.len() - p.len()) + s.skip(s.len() - p.len()));
    }
}

}
