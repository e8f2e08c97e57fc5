//! The statements of a fragment, and the objects that they touch.

use vstd::prelude::*;
use vstd::string::*;
use crate::lexer::{
    dollar_quoted, is_dollar_body, is_identifier_char, is_tag, law_dollar_quoted_text_is_not_split,
    law_dollar_quoted_text_stays_in_its_piece, law_plain_text_is_kept, law_semicolon_ends_a_piece,
    law_unquoted_text_is_split_at_semicolons, quotes_nothing, split_statements, split_top_level,
    strip_content, stripped_content,
};
use crate::pattern::{
    ascii_upper, before_default, captures, default_begins, found_texts, group_texts, is_ascii_text,
    is_single_spaced, is_usual_kind, is_usual_statement, is_verb, law_default_values, lower_text,
    parenthesized, regex_captures, regex_replaced, replace, upper_letters, upper_text,
    usual_statement, DEFAULT_VALUE, STATEMENT,
};
use crate::text::{
    chars_of, contains_text, is_space, join, join_chars, join_texts, law_split_at_separator,
    law_split_undoes_join, law_trim, law_words, lemma_before, lemma_space_run, lemma_word_run,
    occurs_at, rows, same_text, single_spaced, space_run, split, split_chars, string_of, texts,
    trim, trim_start, trim_text, without_char, without_char_of, word_run, words, words_of,
};
use crate::version::optional_str;

verus! {

/// A statement that creates, alters or drops an object.
#[derive(Debug, Clone, PartialEq, Eq)]
pub struct SqlStatement {
    pub verb: String,
    /// The kind of the object, its name, and the argument types of a function.
    pub signature: String,
    pub raw: String,
}

/// The contents of a `SqlStatement`.
pub struct StatementView {
    pub verb: Seq<char>,
    pub signature: Seq<char>,
    pub raw: Seq<char>,
}

impl View for SqlStatement {
    type V = StatementView;

    open spec fn view(&self) -> StatementView {
        StatementView { verb: self.verb@, signature: self.signature@, raw: self.raw@ }
    }
}

/// The contents of a vector of statements.
pub open spec fn statement_views(v: Seq<SqlStatement>) -> Seq<StatementView> {
    Seq::new(v.len(), |i: int| v[i]@)
}

// ---------------------------------------------------------------------------
// From a match to a statement
// ---------------------------------------------------------------------------

/// An argument without its default value.
pub open spec fn without_default(arg: Seq<char>) -> Seq<char> {
    if is_single_spaced(arg) {
        arg.take(before_default(arg, 0))
    } else {
        regex_replaced(DEFAULT_VALUE@, arg, ""@)
    }
}

/// The type of an argument: its last word, without quotes and in lower case.
pub open spec fn argument_type(arg: Seq<char>) -> Option<Seq<char>> {
    let tokens = words(without_default(trim(arg)));
    let name = lower_text(without_char(tokens.last(), '"'));
    if tokens.len() > 0 && name.len() > 0 {
        Some(name)
    } else {
        None
    }
}

/// The types of the arguments.
pub open spec fn argument_types(args: Seq<Seq<char>>) -> Seq<Seq<char>>
    decreases args.len(),
{
    if args.len() == 0 {
        seq![]
    } else {
        let types = argument_types(args.drop_last());
        match argument_type(args.last()) {
            Some(t) => types.push(t),
            None => types,
        }
    }
}

/// Whether objects of this kind are told apart by their argument types.
pub open spec fn has_arguments(kind: Seq<char>) -> bool {
    kind == "FUNCTION"@ || kind == "AGGREGATE"@ || kind == "PROCEDURE"@
}

/// What identifies an object: its kind, its name, and the argument types of a function.
pub open spec fn object_signature(
    kind: Seq<char>,
    name: Seq<char>,
    args: Option<Seq<char>>,
) -> Seq<char> {
    match args {
        Some(list) => if has_arguments(kind) {
            kind + " "@ + name + "("@ + join(argument_types(split(list, ',')), ", "@) + ")"@
        } else {
            kind + " "@ + name
        },
        None => kind + " "@ + name,
    }
}

/// The statement with the given text and parts.
pub open spec fn statement_from(
    raw: Seq<char>,
    verb: Seq<char>,
    kind: Seq<char>,
    name: Seq<char>,
    args: Option<Seq<char>>,
) -> StatementView {
    StatementView {
        verb: upper_text(single_spaced(verb)),
        signature: object_signature(
            upper_text(single_spaced(kind)),
            lower_text(without_char(name, '"')),
            args,
        ),
        raw,
    }
}

/// Writes a text with single blanks.
fn single_spaced_text(s: &str) -> (r: String)
    ensures
        r@ == single_spaced(s@),
{
    string_of(&join_chars(&words_of(&chars_of(s)), " "))
}

/// Takes the default value of an argument away.
fn strip_default(arg: &str) -> (r: String)
    ensures
        r@ == without_default(arg@),
{
    replace(DEFAULT_VALUE, arg, "")
}

/// Reads the type of an argument.
fn read_argument_type(arg: &str) -> (r: Option<String>)
    ensures
        match r {
            Some(t) => argument_type(arg@) == Some(t@),
            None => argument_type(arg@) is None,
        },
{
    let stripped = strip_default(trim_text(arg).as_str());
    let tokens = words_of(&chars_of(stripped.as_str()));
    let ghost list = rows(tokens@);
    if tokens.len() == 0 {
        return None;
    }
    let last = &tokens[tokens.len() - 1];
    assert(last@ == list.last());
    let name = string_of(&without_char_of(last, '"')).to_lowercase();
    if name.as_str().unicode_len() > 0 {
        Some(name)
    } else {
        None
    }
}

/// Reads the types of the arguments in a list.
fn read_argument_types(list: &str) -> (r: Vec<String>)
    ensures
        texts(r@) == argument_types(split(list@, ',')),
{
    let args = split_chars(&chars_of(list), ',');
    let ghost all = split(list@, ',');
    let mut types: Vec<String> = Vec::new();
    let mut i: usize = 0;
    assert(texts(types@) =~= seq![]);
    while i < args.len()
        invariant
            i <= args@.len(),
            rows(args@) == all,
            texts(types@) == argument_types(all.take(i as int)),
        decreases args@.len() - i,
    {
        let arg = string_of(&args[i]);
        proof {
            assert(arg@ == all[i as int]);
            assert(all.take(i + 1).drop_last() =~= all.take(i as int));
        }
        if let Some(t) = read_argument_type(arg.as_str()) {
            let ghost earlier = types@;
            types.push(t);
            assert(texts(types@) =~= texts(earlier).push(t@));
        }
        i += 1;
    }
    assert(all.take(i as int) =~= all);
    types
}

/// Makes a statement of the parts that were found in its text.
pub fn statement_from_parts(
    raw: String,
    verb: &str,
    kind: &str,
    name: &str,
    args: Option<&str>,
) -> (r: SqlStatement)
    ensures
        r@ == statement_from(raw@, verb@, kind@, name@, optional_str(args)),
{
    let verb_text = single_spaced_text(verb).to_uppercase();
    let kind_text = single_spaced_text(kind).to_uppercase();
    let name_text = string_of(&without_char_of(&chars_of(name), '"')).to_lowercase();
    let mut signature = kind_text.clone();
    signature.append(" ");
    signature.append(name_text.as_str());
    if let Some(list) = args {
        if same_text(kind_text.as_str(), "FUNCTION") || same_text(kind_text.as_str(), "AGGREGATE")
            || same_text(kind_text.as_str(), "PROCEDURE") {
            signature.append("(");
            signature.append(join_texts(&read_argument_types(list), ", ").as_str());
            signature.append(")");
        }
    }
    SqlStatement { verb: verb_text, signature, raw }
}

// ---------------------------------------------------------------------------
// From text to statements
// ---------------------------------------------------------------------------

/// Whether the word behind the kind of an object is no name: an index need not have one.
pub open spec fn is_unnamed(kind: Seq<char>, name: Seq<char>) -> bool {
    upper_letters(kind) == "INDEX"@ && upper_letters(name) == "ON"@
}

/// The statement that a text is, if it creates, alters or drops an object with a name.
pub open spec fn statement(text: Seq<char>) -> Option<StatementView> {
    match regex_captures(STATEMENT@, text) {
        Some(groups) => {
            let stmt = statement_from(text, groups[1]->0, groups[2]->0, groups[3]->0, groups[4]);
            if is_verb(stmt.verb) && !is_unnamed(groups[2]->0, groups[3]->0) {
                Some(stmt)
            } else {
                None
            }
        },
        None => None,
    }
}

/// A statement in its usual form, as it is read: its verb and its kind in upper case, and
/// its name in lower case and without quotes.
pub open spec fn usual_reading(
    text: Seq<char>,
    verb: Seq<char>,
    kind: Seq<char>,
    name: Seq<char>,
    rest: Seq<char>,
) -> StatementView {
    StatementView {
        verb: upper_letters(verb),
        signature: object_signature(
            upper_letters(kind),
            lower_text(without_char(name, '"')),
            parenthesized(rest),
        ),
        raw: text,
    }
}

/// Whether `text`, if it is a statement in its usual form, is read as such.
pub open spec fn is_read_as_usual(text: Seq<char>) -> bool {
    forall|
        verb: Seq<char>,
        modifier: Seq<char>,
        kind: Seq<char>,
        condition: Seq<char>,
        name: Seq<char>,
        rest: Seq<char>,
    |
        text == #[trigger] usual_statement(verb, modifier, kind, condition, name, rest)
            && is_usual_statement(verb, modifier, kind, condition, name, rest) ==> statement(text)
            == Some(usual_reading(text, verb, kind, name, rest))
}

/// The statements among the pieces of a text.
pub open spec fn statements(pieces: Seq<Seq<char>>) -> Seq<StatementView>
    decreases pieces.len(),
{
    if pieces.len() == 0 {
        seq![]
    } else {
        let earlier = statements(pieces.drop_last());
        let text = single_spaced(pieces.last());
        match statement(text) {
            Some(stmt) => if text.len() > 0 {
                earlier.push(stmt)
            } else {
                earlier
            },
            None => earlier,
        }
    }
}

/// The statements of a fragment: those at its top level.
pub open spec fn content_statements(content: Seq<char>) -> Seq<StatementView> {
    statements(split_top_level(stripped_content(content)))
}

/// A text whose letters in upper case are ASCII is ASCII.
proof fn lemma_ascii_origin(s: Seq<char>, upper: Seq<char>)
    requires
        upper_letters(s) == upper,
        is_ascii_text(upper),
    ensures
        upper_text(s) == upper,
{
    assert forall|i: int| 0 <= i < s.len() implies (#[trigger] s[i]) as u32 <= 0x7F by {
        assert(upper[i] == ascii_upper(s[i]));
    }
}

/// The verbs are ASCII text.
proof fn lemma_verb(spaced: Seq<char>)
    requires
        is_verb(upper_letters(spaced)),
    ensures
        is_verb(upper_text(spaced)),
{
    reveal_strlit("CREATE");
    reveal_strlit("CREATE OR REPLACE");
    reveal_strlit("ALTER");
    reveal_strlit("DROP");
    let upper = upper_letters(spaced);
    assert(is_ascii_text(upper));
    lemma_ascii_origin(spaced, upper);
}

/// The first part comes first.
proof fn lemma_join_first(first: Seq<char>, parts: Seq<Seq<char>>, sep: Seq<char>)
    requires
        parts.len() > 0,
    ensures
        join(seq![first] + parts, sep) == first + sep + join(parts, sep),
    decreases parts.len(),
{
    let all = seq![first] + parts;
    assert(all.drop_last() =~= seq![first] + parts.drop_last());
    if parts.len() == 1 {
        assert(all.drop_last() =~= seq![first]);
        assert(join(all.drop_last(), sep) == first);
    } else {
        lemma_join_first(first, parts.drop_last(), sep);
        assert(join(all, sep) =~= first + sep + join(parts, sep));
    }
}

/// A text whose white space is single blanks inside it stays as it is.
proof fn lemma_single_spaced(s: Seq<char>)
    requires
        s.len() > 0,
        is_single_spaced(s),
        !is_space(s[0]),
        !is_space(s.last()),
    ensures
        single_spaced(s) == s,
        words(s).len() > 0,
    decreases s.len(),
{
    reveal_strlit(" ");
    let k = word_run(s) as int;
    lemma_word_run(s);
    assert(space_run(s) == 0);
    assert(trim_start(s) =~= s);
    let rest = s.skip(k);
    if k == s.len() {
        assert(s.take(k) =~= s);
        assert(space_run(rest) == 0);
        assert(trim_start(rest).len() == 0);
        assert(words(rest).len() == 0);
        assert(words(s) =~= seq![s]);
    } else {
        let tail = s.skip(k + 1);
        assert(is_space(s[k]));
        assert(k + 1 < s.len());
        assert(rest[0] == s[k]);
        assert(rest.skip(1) =~= tail);
        assert(tail[0] == s[k + 1]);
        assert(space_run(tail) == 0);
        assert(space_run(rest) == 1);
        assert(trim_start(rest) =~= tail);
        assert(trim_start(tail) =~= tail);
        assert(tail.last() == s.last());
        assert forall|i: int| 0 <= i < tail.len() && is_space(#[trigger] tail[i]) implies tail[i]
            == ' ' && (i + 1 < tail.len() ==> !is_space(tail[i + 1])) by {
            assert(tail[i] == s[i + k + 1]);
            if i + 1 < tail.len() {
                assert(tail[i + 1] == s[i + k + 2]);
            }
        }
        lemma_single_spaced(tail);
        assert(words(rest) == words(tail));
        lemma_join_first(s.take(k), words(tail), " "@);
        assert(s =~= s.take(k) + " "@ + tail);
    }
}

/// Whether a text is words of capital letters with single blanks between them.
spec fn are_keywords(s: Seq<char>) -> bool {
    &&& s.len() > 0 && s[0] != ' ' && s.last() != ' '
    &&& forall|i: int|
        0 <= i < s.len() ==> 'A' <= #[trigger] s[i] <= 'Z' || s[i] == ' ' && (i + 1 < s.len() ==> s[i
            + 1] != ' ')
}

proof fn lemma_verbs_are_keywords(verb: Seq<char>)
    requires
        is_verb(verb),
    ensures
        are_keywords(verb),
{
    if verb == "CREATE"@ {
        reveal_strlit("CREATE");
    } else if verb == "CREATE OR REPLACE"@ {
        reveal_strlit("CREATE OR REPLACE");
    } else if verb == "ALTER"@ {
        reveal_strlit("ALTER");
    } else {
        reveal_strlit("DROP");
    }
}

proof fn lemma_kinds_are_keywords(kind: Seq<char>, name: Seq<char>)
    requires
        is_usual_kind(kind, name),
    ensures
        are_keywords(kind),
{
    if kind == "MATERIALIZED VIEW"@ {
        reveal_strlit("MATERIALIZED VIEW");
    } else if kind == "FOREIGN TABLE"@ {
        reveal_strlit("FOREIGN TABLE");
    } else if kind == "OPERATOR"@ {
        reveal_strlit("OPERATOR");
    }
}

/// A text of ASCII letters with single blanks between them is single-spaced, and has an
/// ASCII upper case.
proof fn lemma_keywords(s: Seq<char>)
    requires
        are_keywords(upper_letters(s)),
    ensures
        single_spaced(s) == s,
        upper_text(s) == upper_letters(s),
{
    let upper = upper_letters(s);
    assert forall|i: int| 0 <= i < s.len() implies upper[i] == ascii_upper(#[trigger] s[i]) by {}
    assert(is_ascii_text(upper)) by {
        assert forall|i: int| 0 <= i < upper.len() implies (#[trigger] upper[i]) as u32 <= 0x7F by {
            assert('A' <= upper[i] <= 'Z' || upper[i] == ' ');
        }
    }
    lemma_ascii_origin(s, upper);
    assert forall|i: int| 0 <= i < s.len() && is_space(#[trigger] s[i]) implies s[i] == ' ' && (i + 1
        < s.len() ==> !is_space(s[i + 1])) by {
        assert(upper[i] == ascii_upper(s[i]));
        if i + 1 < s.len() {
            assert(upper[i + 1] == ascii_upper(s[i + 1]));
        }
    }
    lemma_single_spaced(s);
}

/// The keywords of a statement in its usual form are single-spaced.
proof fn lemma_usual_words(verb: Seq<char>, kind: Seq<char>, name: Seq<char>)
    requires
        is_verb(upper_letters(verb)),
        is_usual_kind(upper_letters(kind), name),
    ensures
        upper_text(single_spaced(verb)) == upper_letters(verb),
        upper_text(single_spaced(kind)) == upper_letters(kind),
{
    lemma_verbs_are_keywords(upper_letters(verb));
    lemma_kinds_are_keywords(upper_letters(kind), name);
    lemma_keywords(verb);
    lemma_keywords(kind);
}

/// Tells whether a text is a word, whatever the case of its ASCII letters.
fn is_word(s: &str, word: &str) -> (r: bool)
    ensures
        r == (upper_letters(s@) == word@),
{
    let chars = chars_of(s);
    let letters = chars_of(word);
    let ghost upper = upper_letters(s@);
    if chars.len() != letters.len() {
        return false;
    }
    let mut i: usize = 0;
    while i < chars.len()
        invariant
            i <= chars@.len(),
            chars@ == s@,
            letters@ == word@,
            chars@.len() == letters@.len(),
            upper == upper_letters(s@),
            forall|k: int| 0 <= k < i ==> upper[k] == word@[k],
        decreases chars@.len() - i,
    {
        let c = chars[i];
        let u = if 'a' <= c && c <= 'z' {
            (c as u8 - 32) as char
        } else {
            c
        };
        assert(upper[i as int] == ascii_upper(c));
        if u != letters[i] {
            return false;
        }
        i += 1;
    }
    assert(upper =~= word@);
    true
}

/// Reads one statement.
pub fn read_statement(text: String) -> (r: Option<SqlStatement>)
    ensures
        match r {
            Some(stmt) => statement(text@) == Some(stmt@) && is_verb(stmt.verb@),
            None => statement(text@) is None,
        },
        is_read_as_usual(text@),
{
    let found = captures(STATEMENT, text.as_str());
    proof {
        assert forall|
            verb: Seq<char>,
            modifier: Seq<char>,
            kind: Seq<char>,
            condition: Seq<char>,
            name: Seq<char>,
            rest: Seq<char>,
        |
            text@ == #[trigger] usual_statement(verb, modifier, kind, condition, name, rest)
                && is_usual_statement(
                verb,
                modifier,
                kind,
                condition,
                name,
                rest,
            ) implies statement(text@) == Some(usual_reading(text@, verb, kind, name, rest)) by {
            let groups = found_texts(found->0)->0;
            assert(groups.skip(1)[0] == groups[1]);
            assert(groups.skip(1)[1] == groups[2]);
            assert(groups.skip(1)[2] == groups[3]);
            assert(groups.skip(1)[3] == groups[4]);
            lemma_usual_words(verb, kind, name);
        }
    }
    match found {
        Some(Some(groups)) => {
            let ghost captured = group_texts(groups@);
            assert(captured.len() == 5);
            match (&groups[1], &groups[2], &groups[3]) {
                (Some(verb), Some(kind), Some(name)) => {
                    assert(captured[1] == Some(verb@));
                    assert(captured[2] == Some(kind@));
                    assert(captured[3] == Some(name@));
                    let args = match &groups[4] {
                        Some(list) => Some(list.as_str()),
                        None => None,
                    };
                    assert(captured[4] == optional_str(args));
                    proof {
                        lemma_verb(single_spaced(verb@));
                    }
                    if is_word(kind.as_str(), "INDEX") && is_word(name.as_str(), "ON") {
                        return None;
                    }
                    Some(
                        statement_from_parts(
                            text.clone(),
                            verb.as_str(),
                            kind.as_str(),
                            name.as_str(),
                            args,
                        ),
                    )
                },
                _ => {
                    assert(captured[1] is Some && captured[2] is Some && captured[3] is Some);
                    None
                },
            }
        },
        _ => None,
    }
}

/// Reads the statements of a fragment.
pub fn extract_statements_and_objects(content: &str) -> (r: Vec<SqlStatement>)
    ensures
        statement_views(r@) == content_statements(content@),
        forall|k: int| 0 <= k < r@.len() ==> is_verb((#[trigger] r@[k]).verb@),
        forall|k: int|
            0 <= k < split_top_level(stripped_content(content@)).len() ==> is_read_as_usual(
                single_spaced(#[trigger] split_top_level(stripped_content(content@))[k]),
            ),
{
    let cleaned = strip_content(content);
    let pieces = split_statements(&chars_of(cleaned.as_str()));
    let ghost all = split_top_level(stripped_content(content@));
    let mut found: Vec<SqlStatement> = Vec::new();
    let mut i: usize = 0;
    assert(statement_views(found@) =~= seq![]);
    while i < pieces.len()
        invariant
            i <= pieces@.len(),
            rows(pieces@) == all,
            statement_views(found@) == statements(all.take(i as int)),
            forall|k: int| 0 <= k < found@.len() ==> is_verb((#[trigger] found@[k]).verb@),
            forall|k: int| 0 <= k < i ==> is_read_as_usual(single_spaced(#[trigger] all[k])),
        decreases pieces@.len() - i,
    {
        let text = string_of(&join_chars(&words_of(&pieces[i]), " "));
        proof {
            assert(pieces@[i as int]@ == all[i as int]);
            assert(all.take(i + 1).drop_last() =~= all.take(i as int));
        }
        let is_empty = text.as_str().unicode_len() == 0;
        let read = read_statement(text);
        if !is_empty {
            if let Some(stmt) = read {
                let ghost earlier = found@;
                found.push(stmt);
                assert(statement_views(found@) =~= statement_views(earlier).push(stmt@));
            }
        }
        i += 1;
    }
    assert(all.take(i as int) =~= all);
    found
}

// ---------------------------------------------------------------------------
// Laws
// ---------------------------------------------------------------------------

proof fn lemma_statement_verbs(pieces: Seq<Seq<char>>)
    ensures
        forall|k: int| 0 <= k < statements(pieces).len() ==> is_verb(
            (#[trigger] statements(pieces)[k]).verb,
        ),
    decreases pieces.len(),
{
    if pieces.len() > 0 {
        let earlier = statements(pieces.drop_last());
        let all = statements(pieces);
        lemma_statement_verbs(pieces.drop_last());
        assert forall|k: int| 0 <= k < all.len() implies is_verb((#[trigger] all[k]).verb) by {
            if k < earlier.len() {
                assert(all[k] == earlier[k]);
            }
        }
    }
}

/// The case of the keywords plays no part: a statement in its usual form has the same verb
/// and the same signature with its keywords in another case.
pub proof fn law_keyword_case_plays_no_part(
    text: Seq<char>,
    verb: Seq<char>,
    kind: Seq<char>,
    other_text: Seq<char>,
    other_verb: Seq<char>,
    other_kind: Seq<char>,
    name: Seq<char>,
    rest: Seq<char>,
)
    requires
        upper_letters(verb) == upper_letters(other_verb),
        upper_letters(kind) == upper_letters(other_kind),
    ensures
        usual_reading(text, verb, kind, name, rest).verb == usual_reading(
            other_text,
            other_verb,
            other_kind,
            name,
            rest,
        ).verb,
        usual_reading(text, verb, kind, name, rest).signature == usual_reading(
            other_text,
            other_verb,
            other_kind,
            name,
            rest,
        ).signature,
{
}

/// A statement creates, creates or replaces, alters or drops an object.
pub proof fn law_verbs(content: Seq<char>)
    ensures
        forall|k: int| 0 <= k < content_statements(content).len() ==> is_verb(
            (#[trigger] content_statements(content)[k]).verb,
        ),
{
    lemma_statement_verbs(split_top_level(stripped_content(content)));
}

/// What stands between two dollar quotes, such as the body of a function, holds no
/// statements: the text around it is one statement at most.
pub proof fn law_bodies_hold_no_statements(
    content: Seq<char>,
    lead: Seq<char>,
    tag: Seq<char>,
    body: Seq<char>,
    rest: Seq<char>,
)
    requires
        stripped_content(content) == lead + dollar_quoted(tag, body) + rest,
        quotes_nothing(lead),
        !lead.contains(';'),
        lead.len() > 0 ==> !is_identifier_char(lead.last()),
        is_tag(tag),
        !body.contains('$'),
        quotes_nothing(rest),
        !rest.contains(';'),
    ensures
        content_statements(content) == statements(seq![stripped_content(content)]),
        content_statements(content).len() <= 1,
{
    law_dollar_quoted_text_is_not_split(lead, tag, body, rest);
    let pieces = seq![stripped_content(content)];
    assert(pieces.drop_last() =~= seq![]);
    assert(statements(pieces.drop_last()).len() == 0);
}

/// Each further argument adds its type at the end, whatever types stand before it.
pub proof fn law_arguments_are_read_in_turn(args: Seq<Seq<char>>, arg: Seq<char>)
    ensures
        argument_types(Seq::<Seq<char>>::empty()).len() == 0,
        argument_types(args.push(arg)) == (match argument_type(arg) {
            Some(t) => argument_types(args).push(t),
            None => argument_types(args),
        }),
{
    assert(args.push(arg).drop_last() =~= args);
}

/// Arguments that have a type each give as many types, in the same order.
pub proof fn law_each_argument_has_its_type(args: Seq<Seq<char>>)
    requires
        forall|k: int| 0 <= k < args.len() ==> argument_type(#[trigger] args[k]) is Some,
    ensures
        argument_types(args).len() == args.len(),
        forall|k: int|
            0 <= k < args.len() ==> Some(#[trigger] argument_types(args)[k]) == argument_type(
                args[k],
            ),
    decreases args.len(),
{
    if args.len() > 0 {
        let head = args.drop_last();
        assert forall|k: int| 0 <= k < head.len() implies argument_type(#[trigger] head[k])
            is Some by {
            assert(head[k] == args[k]);
        }
        law_each_argument_has_its_type(head);
        law_arguments_are_read_in_turn(head, args.last());
        assert(head.push(args.last()) =~= args);
        assert(argument_type(args[args.len() - 1]) is Some);
        assert forall|k: int| 0 <= k < args.len() implies Some(#[trigger] argument_types(args)[k])
            == argument_type(args[k]) by {
            if k < head.len() {
                assert(argument_types(args)[k] == argument_types(head)[k]);
                assert(head[k] == args[k]);
            }
        }
    }
}

/// The type of an argument without a default value is its last word, in lower case and
/// without double quotes, whatever words stand before it.
pub proof fn law_last_word_is_the_type(
    left: Seq<char>,
    lead: Seq<char>,
    word: Seq<char>,
    right: Seq<char>,
)
    requires
        forall|k: int| 0 <= k < left.len() ==> is_space(#[trigger] left[k]),
        forall|k: int| 0 <= k < right.len() ==> is_space(#[trigger] right[k]),
        lead.len() > 0 ==> !is_space(lead[0]) && lead.last() == ' ',
        word.len() > 0,
        forall|k: int| 0 <= k < word.len() ==> !is_space(#[trigger] word[k]),
        is_single_spaced(lead + word),
        forall|i: int| 0 <= i < (lead + word).len() ==> !#[trigger] default_begins(lead + word, i),
    ensures
        argument_type(left + (lead + word) + right) == (if lower_text(
            without_char(word, '"'),
        ).len() > 0 {
            Some(lower_text(without_char(word, '"')))
        } else {
            None
        }),
{
    let body = lead + word;
    assert(body.last() == word.last());
    assert(word.last() == word[word.len() - 1]);
    if lead.len() > 0 {
        assert(body[0] == lead[0]);
    } else {
        assert(body[0] == word[0]);
    }
    law_trim(left, body, right);
    lemma_no_default(body, 0);
    assert(body.take(body.len() as int) =~= body);
    lemma_last_word(lead, word);
}

/// A default value plays no part in the type of an argument.
pub proof fn law_default_value_plays_no_part(
    left: Seq<char>,
    body: Seq<char>,
    sign: Seq<char>,
    value: Seq<char>,
    right: Seq<char>,
)
    requires
        forall|k: int| 0 <= k < left.len() ==> is_space(#[trigger] left[k]),
        forall|k: int| 0 <= k < right.len() ==> is_space(#[trigger] right[k]),
        body.len() > 0 && !is_space(body[0]) && !is_space(body.last()),
        value.len() > 0 && !is_space(value.last()),
        upper_letters(sign) == "DEFAULT"@ || sign == "="@,
        is_single_spaced(body + seq![' '] + sign + seq![' '] + value),
        forall|i: int|
            0 <= i < body.len() ==> !#[trigger] default_begins(
                body + seq![' '] + sign + seq![' '] + value,
                i,
            ),
    ensures
        argument_type(left + (body + seq![' '] + sign + seq![' '] + value) + right)
            == argument_type(body),
{
    let all = body + seq![' '] + sign + seq![' '] + value;
    assert(all[0] == body[0]);
    assert(all.last() == value.last());
    law_trim(left, all, right);
    law_default_values(body, sign, value);
    assert(all.take(body.len() as int) =~= body);
    assert(Seq::<char>::empty() + body + Seq::<char>::empty() =~= body);
    law_trim(seq![], body, seq![]);
    assert forall|i: int| 0 <= i < body.len() && is_space(#[trigger] body[i]) implies body[i] == ' '
        && (i + 1 < body.len() ==> !is_space(body[i + 1])) by {
        assert(all[i] == body[i]);
        if i + 1 < body.len() {
            assert(all[i + 1] == body[i + 1]);
        }
    }
    assert forall|i: int| 0 <= i < body.len() implies !#[trigger] default_begins(body, i) by {
        if default_begins(body, i) {
            assert(all[i] == body[i] && all[i + 1] == body[i + 1] && all[i + 2] == body[i + 2]);
            if i + 8 < body.len() {
                assert(all[i + 8] == body[i + 8]);
                assert(all.subrange(i + 1, i + 8) =~= body.subrange(i + 1, i + 8));
            }
            assert(default_begins(all, i));
        }
    }
    lemma_no_default(body, 0);
    assert(body.take(body.len() as int) =~= body);
}

proof fn lemma_no_default(s: Seq<char>, i: int)
    requires
        0 <= i <= s.len(),
        forall|k: int| 0 <= k < s.len() ==> !#[trigger] default_begins(s, k),
    ensures
        before_default(s, i) == s.len(),
    decreases s.len() - i,
{
    if i < s.len() {
        lemma_no_default(s, i + 1);
    }
}

/// What stands after the last white space is the last word.
proof fn lemma_last_word(lead: Seq<char>, word: Seq<char>)
    requires
        lead.len() > 0 ==> is_space(lead.last()),
        word.len() > 0,
        forall|k: int| 0 <= k < word.len() ==> !is_space(#[trigger] word[k]),
    ensures
        words(lead + word).len() > 0,
        words(lead + word).last() == word,
    decreases lead.len(),
{
    let s = lead + word;
    let n = space_run(s) as int;
    lemma_space_run(s);
    assert(s[lead.len() as int] == word[0]);
    let first = lead.skip(n);
    if first.len() == 0 {
        assert(s =~= lead + word + seq![]);
        assert forall|k: int| 0 <= k < lead.len() implies is_space(#[trigger] lead[k]) by {
            assert(s[k] == lead[k]);
        }
        law_words(lead, word, seq![]);
        law_words(seq![], seq![], seq![]);
        assert(words(s) =~= seq![word]);
    } else {
        let t = s.skip(n);
        assert(t =~= first + word);
        let k = word_run(t) as int;
        lemma_word_run(t);
        assert(first.last() == lead.last());
        assert(t[first.len() - 1] == first.last());
        assert(k < first.len());
        assert(t[0] == s[n]);
        let rest = first.skip(k);
        assert(rest.last() == first.last());
        assert(t.skip(k) =~= rest + word);
        lemma_last_word(rest, word);
        assert(words(s) == seq![t.take(k)] + words(rest + word));
        assert(words(s).last() == words(rest + word).last());
    }
}

/// The signature of a function, an aggregate or a procedure lists the types of its arguments,
/// one for each and in their order. Other objects are told by kind and name alone.
pub proof fn law_signatures(
    kind: Seq<char>,
    name: Seq<char>,
    args: Seq<Seq<char>>,
    types: Seq<Seq<char>>,
)
    requires
        args.len() > 0,
        forall|k: int| 0 <= k < args.len() ==> !(#[trigger] args[k]).contains(','),
        types.len() == args.len(),
        forall|k: int|
            0 <= k < args.len() ==> argument_type(#[trigger] args[k]) == Some(types[k]),
    ensures
        object_signature(kind, name, None) == kind + " "@ + name,
        object_signature(kind, name, Some(join(args, seq![',']))) == (if kind == "FUNCTION"@ || kind
            == "AGGREGATE"@ || kind == "PROCEDURE"@ {
            kind + " "@ + name + "("@ + join(types, ", "@) + ")"@
        } else {
            kind + " "@ + name
        }),
{
    law_split_undoes_join(args, ',');
    law_each_argument_has_its_type(args);
    assert(argument_types(args) =~= types);
}

/// Functions with the same name and with other argument types, or with another number of
/// them, have other signatures.
pub proof fn law_signatures_tell_overloads_apart(
    kind: Seq<char>,
    name: Seq<char>,
    args: Seq<Seq<char>>,
    types: Seq<Seq<char>>,
    other_args: Seq<Seq<char>>,
    other_types: Seq<Seq<char>>,
)
    requires
        kind == "FUNCTION"@ || kind == "AGGREGATE"@ || kind == "PROCEDURE"@,
        args.len() > 0 && other_args.len() > 0,
        types.len() == args.len() && other_types.len() == other_args.len(),
        forall|k: int| 0 <= k < args.len() ==> !(#[trigger] args[k]).contains(','),
        forall|k: int| 0 <= k < other_args.len() ==> !(#[trigger] other_args[k]).contains(','),
        forall|k: int|
            0 <= k < args.len() ==> argument_type(#[trigger] args[k]) == Some(types[k]),
        forall|k: int|
            0 <= k < other_args.len() ==> argument_type(#[trigger] other_args[k]) == Some(
                other_types[k],
            ),
        forall|k: int| 0 <= k < types.len() ==> !(#[trigger] types[k]).contains(','),
        forall|k: int| 0 <= k < other_types.len() ==> !(#[trigger] other_types[k]).contains(','),
    ensures
        object_signature(kind, name, Some(join(args, seq![',']))) == object_signature(
            kind,
            name,
            Some(join(other_args, seq![','])),
        ) <==> types == other_types,
{
    law_signatures(kind, name, args, types);
    law_signatures(kind, name, other_args, other_types);
    let lead = kind + " "@ + name + "("@;
    let (a, b) = (join(types, ", "@), join(other_types, ", "@));
    let s = lead + a + ")"@;
    let t = lead + b + ")"@;
    if s == t {
        assert(s.len() == lead.len() + a.len() + ")"@.len());
        assert(t.len() == lead.len() + b.len() + ")"@.len());
        let n = lead.len() as int;
        assert(s.subrange(n, n + a.len()) =~= a);
        assert(t.subrange(n, n + b.len()) =~= b);
        let (x, y) = (after_first(types), after_first(other_types));
        lemma_spaced_join(types);
        lemma_spaced_join(other_types);
        lemma_after_first(types);
        lemma_after_first(other_types);
        law_split_undoes_join(x, ',');
        law_split_undoes_join(y, ',');
        assert(x == y);
        assert forall|k: int| 0 <= k < types.len() implies types[k] == other_types[k] by {
            if k > 0 {
                assert(x[k].skip(1) =~= types[k]);
                assert(y[k].skip(1) =~= other_types[k]);
            } else {
                assert(x[0] == types[0] && y[0] == other_types[0]);
            }
        }
        assert(types =~= other_types);
    }
}

/// The parts, with a blank before each but the first.
spec fn after_first(parts: Seq<Seq<char>>) -> Seq<Seq<char>> {
    Seq::new(
        parts.len(),
        |k: int|
            if k == 0 {
                parts[0]
            } else {
                seq![' '] + parts[k]
            },
    )
}

proof fn lemma_after_first(parts: Seq<Seq<char>>)
    requires
        forall|k: int| 0 <= k < parts.len() ==> !(#[trigger] parts[k]).contains(','),
    ensures
        forall|k: int| 0 <= k < parts.len() ==> !(#[trigger] after_first(parts)[k]).contains(','),
{
    assert forall|k: int| 0 <= k < parts.len() implies !(#[trigger] after_first(parts)[k]).contains(
        ',',
    ) by {
        let piece = after_first(parts)[k];
        if piece.contains(',') {
            let i = piece.index_of(',');
            if k > 0 {
                assert(parts[k][i - 1] == ',');
            } else {
                assert(parts[k][i] == ',');
            }
        }
    }
}

proof fn lemma_spaced_join(parts: Seq<Seq<char>>)
    requires
        parts.len() > 0,
    ensures
        join(parts, ", "@) == join(after_first(parts), seq![',']),
    decreases parts.len(),
{
    reveal_strlit(", ");
    let more = after_first(parts);
    if parts.len() > 1 {
        lemma_spaced_join(parts.drop_last());
        assert(more.drop_last() =~= after_first(parts.drop_last()));
        assert(more.last() == seq![' '] + parts.last());
        assert(join(parts, ", "@) =~= join(more, seq![',']));
    }
}

/// The statements of several pieces are those of the first, and then those of the others.
pub proof fn law_pieces_are_read_in_turn(pieces: Seq<Seq<char>>, others: Seq<Seq<char>>)
    ensures
        statements(pieces + others) == statements(pieces) + statements(others),
    decreases others.len(),
{
    if others.len() == 0 {
        assert(pieces + others =~= pieces);
        assert(statements(pieces) + statements(others) =~= statements(pieces));
    } else {
        law_pieces_are_read_in_turn(pieces, others.drop_last());
        assert((pieces + others).drop_last() =~= pieces + others.drop_last());
        assert(statements(pieces + others) =~= statements(pieces) + statements(others));
    }
}

/// One piece gives the statement that its text in single blanks is, if it is one.
pub proof fn law_piece(piece: Seq<char>)
    ensures
        statements(seq![piece]) == (match statement(single_spaced(piece)) {
            Some(stmt) => if single_spaced(piece).len() > 0 {
                seq![stmt]
            } else {
                seq![]
            },
            None => seq![],
        }),
{
    assert(seq![piece].drop_last() =~= seq![]);
    assert(statements(seq![piece].drop_last()) =~= seq![]);
    assert(statements(seq![piece]) =~= (match statement(single_spaced(piece)) {
        Some(stmt) => if single_spaced(piece).len() > 0 {
            seq![stmt]
        } else {
            seq![]
        },
        None => seq![],
    }));
}

/// Of two texts without comments and quotes, with a semicolon between them, first the
/// statements of the one are read and then those of the other, each in its own right.
pub proof fn law_texts_are_read_in_turn(a: Seq<char>, b: Seq<char>)
    requires
        quotes_nothing(a) && quotes_nothing(b),
        !contains_text(a + seq![';'] + b, "--"@),
        !contains_text(a + seq![';'] + b, "/*"@),
        !a.contains('\\') && !b.contains('\\'),
    ensures
        content_statements(a + seq![';'] + b) == content_statements(a) + content_statements(b),
{
    let s = a + seq![';'] + b;
    lemma_parts_of_plain_text(a, b);
    law_plain_text_is_kept(s);
    law_plain_text_is_kept(a);
    law_plain_text_is_kept(b);
    law_unquoted_text_is_split_at_semicolons(s);
    law_unquoted_text_is_split_at_semicolons(a);
    law_unquoted_text_is_split_at_semicolons(b);
    law_split_at_separator(a, b, ';');
    law_pieces_are_read_in_turn(split(a, ';'), split(b, ';'));
}

proof fn lemma_parts_of_plain_text(a: Seq<char>, b: Seq<char>)
    requires
        quotes_nothing(a) && quotes_nothing(b),
        !contains_text(a + seq![';'] + b, "--"@),
        !contains_text(a + seq![';'] + b, "/*"@),
        !a.contains('\\') && !b.contains('\\'),
    ensures
        quotes_nothing(a + seq![';'] + b),
        !(a + seq![';'] + b).contains('\\'),
        !contains_text(a, "--"@) && !contains_text(b, "--"@),
        !contains_text(a, "/*"@) && !contains_text(b, "/*"@),
{
    let s = a + seq![';'] + b;
    assert forall|c: char| #[trigger] s.contains(c) && c != ';' implies a.contains(c) || b.contains(
        c,
    ) by {
        let i = s.index_of(c);
        if i < a.len() {
            assert(a[i] == c);
        } else if i > a.len() {
            assert(b[i - a.len() - 1] == c);
        }
    }
    assert forall|p: Seq<char>| #[trigger] contains_text(a, p) implies contains_text(s, p) by {
        let i = choose|i: int| occurs_at(a, p, i);
        assert(s.subrange(i, i + p.len()) =~= a.subrange(i, i + p.len()));
        assert(occurs_at(s, p, i));
    }
    assert forall|p: Seq<char>| #[trigger] contains_text(b, p) implies contains_text(s, p) by {
        let i = choose|i: int| occurs_at(b, p, i);
        let n = a.len() + 1;
        assert(s.subrange(i + n, i + n + p.len()) =~= b.subrange(i, i + p.len()));
        assert(occurs_at(s, p, i + n));
    }
}

/// A statement in its usual form has its verb and its kind in capital letters and its name in
/// small ones and without double quotes, and keeps its text.
pub proof fn law_usual_reading(
    text: Seq<char>,
    verb: Seq<char>,
    kind: Seq<char>,
    name: Seq<char>,
    rest: Seq<char>,
)
    ensures
        usual_reading(text, verb, kind, name, rest).raw == text,
        usual_reading(text, verb, kind, name, rest).verb == upper_letters(verb),
        usual_reading(text, verb, kind, name, rest).signature == object_signature(
            upper_letters(kind),
            lower_text(without_char(name, '"')),
            parenthesized(rest),
        ),
        rest.len() == 0 ==> usual_reading(text, verb, kind, name, rest).signature == upper_letters(
            kind,
        ) + " "@ + lower_text(without_char(name, '"')),
{
}

/// The kind and the verb of a statement are taken in single blanks and in capital letters,
/// whatever words they are.
pub proof fn law_statement_from(
    raw: Seq<char>,
    verb: Seq<char>,
    kind: Seq<char>,
    name: Seq<char>,
    args: Option<Seq<char>>,
)
    ensures
        statement_from(raw, verb, kind, name, args).raw == raw,
        statement_from(raw, verb, kind, name, args).verb == upper_text(single_spaced(verb)),
        statement_from(raw, verb, kind, name, args).signature == object_signature(
            upper_text(single_spaced(kind)),
            lower_text(without_char(name, '"')),
            args,
        ),
{
}

/// Of the parts that are found in a text a statement is made exactly where the verb creates,
/// creates or replaces, alters or drops, and the object has a name; an index on a table need
/// not have one. Where nothing is found there is no statement.
pub proof fn law_found_parts(text: Seq<char>)
    ensures
        regex_captures(STATEMENT@, text) is None ==> statement(text) is None,
        regex_captures(STATEMENT@, text) matches Some(groups) ==> {
            let verb = upper_text(single_spaced(groups[1]->0));
            let (kind, name) = (groups[2]->0, groups[3]->0);
            &&& statement(text) is Some <==> {
                &&& verb == "CREATE"@ || verb == "CREATE OR REPLACE"@ || verb == "ALTER"@ || verb
                    == "DROP"@
                &&& upper_letters(kind) != "INDEX"@ || upper_letters(name) != "ON"@
            }
            &&& statement(text) matches Some(stmt) ==> {
                &&& stmt.raw == text
                &&& stmt.verb == verb
                &&& groups[4] is None ==> stmt.signature == upper_text(single_spaced(kind)) + " "@
                    + lower_text(without_char(name, '"'))
                &&& groups[4] matches Some(list) ==> stmt.signature == object_signature(
                    upper_text(single_spaced(kind)),
                    lower_text(without_char(name, '"')),
                    Some(list),
                )
            }
        },
{
}

/// The body of a function between dollar quotes holds no statements, whatever semicolons and
/// dollar signs stand in it: the text up to the semicolon behind it is one statement at most,
/// and then the statements behind that are read.
pub proof fn law_bodies_are_passed_over(
    content: Seq<char>,
    lead: Seq<char>,
    tag: Seq<char>,
    body: Seq<char>,
    rest: Seq<char>,
)
    requires
        stripped_content(content) == lead + (dollar_quoted(tag, body) + (seq![';'] + rest)),
        quotes_nothing(lead),
        !lead.contains(';'),
        lead.len() > 0 ==> !is_identifier_char(lead.last()),
        is_tag(tag),
        is_dollar_body(tag, body),
    ensures
        content_statements(content) == statements(seq![lead + dollar_quoted(tag, body)])
            + statements(split_top_level(rest)),
{
    let unit = dollar_quoted(tag, body);
    let none = Seq::<char>::empty();
    law_dollar_quoted_text_stays_in_its_piece(lead, tag, body, seq![';'] + rest);
    law_semicolon_ends_a_piece(none, rest);
    assert(none + seq![';'] + rest =~= seq![';'] + rest);
    let tail = split_top_level(seq![';'] + rest);
    assert(tail[0] =~= none);
    assert(tail.skip(1) =~= split_top_level(rest));
    assert(lead + unit + none =~= lead + unit);
    law_pieces_are_read_in_turn(seq![lead + unit], split_top_level(rest));
}

/// The contents of statements are all of their parts, for each of them in its place.
pub proof fn law_statement_contents(v: Seq<SqlStatement>, i: int)
    requires
        0 <= i < v.len(),
    ensures
        statement_views(v).len() == v.len(),
        statement_views(v)[i].verb == v[i].verb@,
        statement_views(v)[i].signature == v[i].signature@,
        statement_views(v)[i].raw == v[i].raw@,
{
}

/// A function without arguments has an empty list in its signature, and so another signature
/// than what has no list.
pub proof fn law_no_arguments(kind: Seq<char>, name: Seq<char>, gap: Seq<char>)
    requires
        kind == "FUNCTION"@ || kind == "AGGREGATE"@ || kind == "PROCEDURE"@,
        forall|k: int| 0 <= k < gap.len() ==> is_space(#[trigger] gap[k]),
    ensures
        object_signature(kind, name, Some(gap)) == kind + " "@ + name + "()"@,
        object_signature(kind, name, Some(gap)) != object_signature(kind, name, None),
{
    reveal_strlit("(");
    reveal_strlit(")");
    reveal_strlit("()");
    let none = Seq::<char>::empty();
    lemma_before(gap, ',', gap.len() as int);
    assert(split(gap, ',') =~= seq![gap]);
    law_trim(gap, none, none);
    assert(gap + none + none =~= gap);
    assert(without_default(none) =~= none);
    law_words(none, none, none);
    assert(argument_type(gap) is None);
    assert(seq![gap].drop_last() =~= seq![]);
    assert(argument_types(seq![gap].drop_last()) =~= seq![]);
    assert(argument_types(seq![gap]) =~= seq![]);
    assert("("@ + none + ")"@ =~= "()"@);
    assert(object_signature(kind, name, Some(gap)) =~= kind + " "@ + name + "()"@);
    assert(object_signature(kind, name, Some(gap)).len() == object_signature(
        kind,
        name,
        None,
    ).len() + 2);
}

}
