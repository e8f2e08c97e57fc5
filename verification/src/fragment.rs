//! Migration fragments: their identifiers, dependencies and assembled text.

use vstd::prelude::*;
use vstd::string::*;
use crate::number::{
    decimal, decimal_of, digits_value, is_digits, law_number_is_read, law_number_round_trip, lemma_decimal,
    lemma_decimal_injective, parse_u64, parsed_u64,
};
use crate::pattern::{
    all_group_texts, begins_no_directive, captures, captures_iter, directive, directive_matches,
    empty_directive, group_texts, has_keyword, has_no_comment_sign, has_number_prefix,
    is_directive, is_empty_directive, is_number_group, DEPENDS_ON, NUMBER_PREFIX,
};
use crate::text::{
    before, chars_of, contains_text, copy_range, digit_run, ends_with, ends_with_text, find_char,
    is_digit, is_space, law_trim, law_trim_leaves_the_middle, law_trim_start_matches, lemma_before,
    lemma_before_bound, lemma_digit_run, lemma_space_run, lemma_trim, lemma_trim_is_bare,
    lemma_trim_start_matches, occurs_at, rows, space_run, split, split_chars, starts_with,
    string_of, text_less, text_precedes, texts, trim, trim_chars, trim_end, trim_start,
    trim_start_matches, trim_start_matches_chars, trim_text,
};

verus! {

/// What identifies a fragment: a pull request or issue number, or a slug.
#[derive(Debug, Clone, PartialEq, Eq, PartialOrd, Ord, Hash)]
pub enum FragmentId {
    Numeric(u64),
    Slug(String),
}

/// The contents of a `FragmentId`.
pub enum FragmentIdView {
    Numeric(u64),
    Slug(Seq<char>),
}

impl View for FragmentId {
    type V = FragmentIdView;

    open spec fn view(&self) -> FragmentIdView {
        match *self {
            FragmentId::Numeric(n) => FragmentIdView::Numeric(n),
            FragmentId::Slug(s) => FragmentIdView::Slug(s@),
        }
    }
}

/// A prerequisite that a fragment declares.
#[derive(Debug, Clone, PartialEq, Eq, Hash)]
pub enum FragmentDependency {
    Id(FragmentId),
    Filename(String),
}

/// The contents of a `FragmentDependency`.
pub enum DependencyView {
    Id(FragmentIdView),
    Filename(Seq<char>),
}

impl View for FragmentDependency {
    type V = DependencyView;

    open spec fn view(&self) -> DependencyView {
        match *self {
            FragmentDependency::Id(id) => DependencyView::Id(id@),
            FragmentDependency::Filename(name) => DependencyView::Filename(name@),
        }
    }
}

/// One SQL file that waits for the next release.
#[derive(Debug, Clone)]
pub struct MigrationFragment {
    pub path: String,
    pub filename: String,
    pub id: FragmentId,
    pub dependencies: Vec<FragmentDependency>,
    pub sql_content: String,
}

/// The contents of a `MigrationFragment`.
pub struct FragmentView {
    pub path: Seq<char>,
    pub filename: Seq<char>,
    pub id: FragmentIdView,
    pub dependencies: Seq<DependencyView>,
    pub sql_content: Seq<char>,
}

/// The contents of a vector of dependencies.
pub open spec fn dependency_views(v: Seq<FragmentDependency>) -> Seq<DependencyView> {
    Seq::new(v.len(), |i: int| v[i]@)
}

impl View for MigrationFragment {
    type V = FragmentView;

    open spec fn view(&self) -> FragmentView {
        FragmentView {
            path: self.path@,
            filename: self.filename@,
            id: self.id@,
            dependencies: dependency_views(self.dependencies@),
            sql_content: self.sql_content@,
        }
    }
}

/// The contents of a vector of fragments.
pub open spec fn fragment_views(v: Seq<MigrationFragment>) -> Seq<FragmentView> {
    Seq::new(v.len(), |i: int| v[i]@)
}

/// The order of identifiers: numbers first, by value, then slugs, by code points.
pub open spec fn id_less(a: FragmentIdView, b: FragmentIdView) -> bool {
    match (a, b) {
        (FragmentIdView::Numeric(x), FragmentIdView::Numeric(y)) => x < y,
        (FragmentIdView::Numeric(_), FragmentIdView::Slug(_)) => true,
        (FragmentIdView::Slug(_), FragmentIdView::Numeric(_)) => false,
        (FragmentIdView::Slug(x), FragmentIdView::Slug(y)) => text_less(x, y),
    }
}

impl FragmentId {
    /// Tells whether two identifiers are the same.
    pub fn same(&self, other: &FragmentId) -> (r: bool)
        ensures
            r == (self@ == other@),
    {
        match (self, other) {
            (FragmentId::Numeric(x), FragmentId::Numeric(y)) => *x == *y,
            (FragmentId::Slug(x), FragmentId::Slug(y)) => *x == *y,
            _ => false,
        }
    }

    /// Tells whether this identifier precedes another.
    pub fn precedes(&self, other: &FragmentId) -> (r: bool)
        ensures
            r == id_less(self@, other@),
    {
        match (self, other) {
            (FragmentId::Numeric(x), FragmentId::Numeric(y)) => *x < *y,
            (FragmentId::Numeric(_), FragmentId::Slug(_)) => true,
            (FragmentId::Slug(_), FragmentId::Numeric(_)) => false,
            (FragmentId::Slug(x), FragmentId::Slug(y)) => text_precedes(
                x.as_str(),
                y.as_str(),
            ),
        }
    }
}

// ---------------------------------------------------------------------------
// Identifiers
// ---------------------------------------------------------------------------

/// The identifier that a file name gives: the number before the first dot, or
/// else the text before it.
pub open spec fn fragment_id(filename: Seq<char>) -> FragmentIdView {
    let number = filename.take(digit_run(filename) as int);
    if has_number_prefix(filename) && digits_value(number) <= u64::MAX {
        FragmentIdView::Numeric(digits_value(number) as u64)
    } else {
        FragmentIdView::Slug(filename.take(before(filename, '.') as int))
    }
}

/// What the leading digits of a file name denote.
proof fn lemma_number_prefix(filename: Seq<char>)
    requires
        has_number_prefix(filename),
    ensures
        is_digits(filename.take(digit_run(filename) as int)),
        parsed_u64(filename.take(digit_run(filename) as int)) == (if digits_value(
            filename.take(digit_run(filename) as int),
        ) <= u64::MAX {
            Some(digits_value(filename.take(digit_run(filename) as int)) as u64)
        } else {
            None
        }),
{
    lemma_digit_run(filename);
    let k = digit_run(filename) as int;
    let number = filename.take(k);
    assert forall|i: int| 0 <= i < number.len() implies is_digit(
        #[trigger] number[i],
    ) by {
        assert(number[i] == filename[i]);
    }
    assert(number[0] == filename[0]);
}

/// A captured number that can be read is the run of digits before the first dot.
proof fn lemma_number_group(filename: Seq<char>, number: Seq<char>)
    requires
        is_number_group(filename, number),
        parsed_u64(number) is Some,
    ensures
        has_number_prefix(filename),
{
    let k = number.len() as int;
    assert(number[0] != '+');
    assert forall|i: int| 0 <= i < k implies is_digit(#[trigger] filename[i]) by {
        assert(number[i] == filename.take(k)[i]);
    }
    lemma_digit_run(filename);
    let d = digit_run(filename) as int;
    if d < k {
        assert(is_digit(filename[d]));
    }
    if k < d {
        assert(is_digit(filename[k]));
    }
}

/// Reads the identifier of a fragment from its file name.
pub fn parse_fragment_id(filename: &str) -> (r: FragmentId)
    ensures
        r@ == fragment_id(filename@),
{
    let found = captures(NUMBER_PREFIX, filename);
    if let Some(Some(groups)) = found {
        let ghost captured = group_texts(groups@);
        if let Some(number) = &groups[1] {
            let parsed = parse_u64(&chars_of(number.as_str()));
            proof {
                assert(captured[1] == Some(number@));
                if has_number_prefix(filename@) {
                    lemma_number_prefix(filename@);
                } else if parsed is Some {
                    lemma_number_group(filename@, number@);
                }
            }
            if let Some(n) = parsed {
                return FragmentId::Numeric(n);
            }
        }
    }
    let chars = chars_of(filename);
    let end = find_char(&chars, '.', 0);
    assert(chars@.skip(0) =~= chars@);
    assert(chars@.subrange(0, end as int) =~= filename@.take(end as int));
    FragmentId::Slug(string_of(&copy_range(&chars, 0, end)))
}

/// The text of an identifier.
pub open spec fn id_text(id: FragmentIdView) -> Seq<char> {
    match id {
        FragmentIdView::Numeric(n) => decimal(n as nat),
        FragmentIdView::Slug(s) => s,
    }
}

/// The text of a dependency.
pub open spec fn dependency_text(dep: DependencyView) -> Seq<char> {
    match dep {
        DependencyView::Id(id) => id_text(id),
        DependencyView::Filename(name) => name,
    }
}

impl FragmentId {
    /// The identifier as text.
    pub fn to_string(&self) -> (r: String)
        ensures
            r@ == id_text(self@),
    {
        match self {
            FragmentId::Numeric(n) => decimal_of(*n),
            FragmentId::Slug(s) => s.clone(),
        }
    }

    /// A copy of the identifier.
    pub fn duplicate(&self) -> (r: FragmentId)
        ensures
            r@ == self@,
    {
        match self {
            FragmentId::Numeric(n) => FragmentId::Numeric(*n),
            FragmentId::Slug(s) => FragmentId::Slug(s.clone()),
        }
    }
}

impl FragmentDependency {
    /// The dependency as text.
    pub fn to_string(&self) -> (r: String)
        ensures
            r@ == dependency_text(self@),
    {
        match self {
            FragmentDependency::Id(id) => id.to_string(),
            FragmentDependency::Filename(name) => name.clone(),
        }
    }
}

// ---------------------------------------------------------------------------
// Declared prerequisites
// ---------------------------------------------------------------------------

/// The dependency that one item of a list declares: a file name, or an identifier
/// that number signs may precede. An item without content declares nothing.
pub open spec fn item_dependency(item: Seq<char>) -> Option<DependencyView> {
    let name = trim(item);
    let token = trim(trim_start_matches(name, '#'));
    if name.len() == 0 {
        None
    } else if ends_with(name, ".sql"@) {
        Some(DependencyView::Filename(name))
    } else if parsed_u64(token) is Some {
        Some(DependencyView::Id(FragmentIdView::Numeric(parsed_u64(token)->0)))
    } else if token.len() > 0 {
        Some(DependencyView::Id(FragmentIdView::Slug(token)))
    } else {
        None
    }
}

/// Whether a dependency with the text of `dep` is in the list.
pub open spec fn is_declared_already(deps: Seq<DependencyView>, dep: DependencyView) -> bool {
    exists|i: int|
        0 <= i < deps.len() && dependency_text(#[trigger] deps[i]) == dependency_text(dep)
}

/// The dependencies that items declare, each at its first mention.
pub open spec fn declared(items: Seq<Seq<char>>) -> Seq<DependencyView>
    decreases items.len(),
{
    if items.len() == 0 {
        seq![]
    } else {
        let deps = declared(items.drop_last());
        match item_dependency(items.last()) {
            Some(dep) => if is_declared_already(deps, dep) {
                deps
            } else {
                deps.push(dep)
            },
            None => deps,
        }
    }
}

/// The items of the lists, which commas separate.
pub open spec fn list_items(lists: Seq<Seq<char>>) -> Seq<Seq<char>>
    decreases lists.len(),
{
    if lists.len() == 0 {
        seq![]
    } else {
        list_items(lists.drop_last()) + split(lists.last(), ',')
    }
}

/// The lists of prerequisites that the comments of a fragment hold.
pub open spec fn directive_lists(content: Seq<char>) -> Seq<Seq<char>> {
    Seq::new(
        directive_matches(content).len(),
        |i: int| directive_matches(content)[i][1]->0,
    )
}

/// The prerequisites that a fragment declares.
pub open spec fn content_dependencies(content: Seq<char>) -> Seq<DependencyView> {
    declared(list_items(directive_lists(content)))
}

/// Reads one item of a list.
fn dependency_from_item(item: &[char]) -> (r: Option<FragmentDependency>)
    ensures
        match r {
            Some(dep) => item_dependency(item@) == Some(dep@),
            None => item_dependency(item@) is None,
        },
{
    let name = trim_chars(item);
    if name.len() == 0 {
        return None;
    }
    if ends_with_text(&name, ".sql") {
        return Some(FragmentDependency::Filename(string_of(&name)));
    }
    let token = trim_chars(&trim_start_matches_chars(&name, '#'));
    match parse_u64(&token) {
        Some(n) => Some(FragmentDependency::Id(FragmentId::Numeric(n))),
        None => if token.len() > 0 {
            Some(FragmentDependency::Id(FragmentId::Slug(string_of(&token))))
        } else {
            None
        },
    }
}

/// Tells whether a dependency with the same text is in the list.
fn mentions(deps: &Vec<FragmentDependency>, dep: &FragmentDependency) -> (r: bool)
    ensures
        r == is_declared_already(dependency_views(deps@), dep@),
{
    let key = dep.to_string();
    let ghost views = dependency_views(deps@);
    let mut i: usize = 0;
    while i < deps.len()
        invariant
            i <= deps@.len(),
            key@ == dependency_text(dep@),
            views == dependency_views(deps@),
            forall|j: int| 0 <= j < i ==> dependency_text(#[trigger] views[j]) != key@,
        decreases deps@.len() - i,
    {
        assert(views[i as int] == deps@[i as int]@);
        if deps[i].to_string() == key {
            return true;
        }
        i += 1;
    }
    false
}

/// The dependencies that lists declare, each at its first mention.
pub fn dependencies_from_lists(lists: &Vec<String>) -> (r: Vec<FragmentDependency>)
    ensures
        dependency_views(r@) == declared(list_items(texts(lists@))),
{
    let mut deps: Vec<FragmentDependency> = Vec::new();
    let mut i: usize = 0;
    assert(dependency_views(deps@) =~= seq![]);
    while i < lists.len()
        invariant
            i <= lists@.len(),
            dependency_views(deps@) == declared(list_items(texts(lists@).take(i as int))),
        decreases lists@.len() - i,
    {
        let items = split_chars(&chars_of(lists[i].as_str()), ',');
        let ghost before = list_items(texts(lists@).take(i as int));
        let mut k: usize = 0;
        assert(before + rows(items@).take(0) =~= before);
        while k < items.len()
            invariant
                k <= items@.len(),
                dependency_views(deps@) == declared(before + rows(items@).take(k as int)),
            decreases items@.len() - k,
        {
            let ghost upto = before + rows(items@).take(k + 1);
            assert(upto.drop_last() =~= before + rows(items@).take(k as int));
            assert(upto.last() == items@[k as int]@);
            if let Some(dep) = dependency_from_item(&items[k]) {
                if !mentions(&deps, &dep) {
                    let ghost earlier = deps@;
                    deps.push(dep);
                    assert(dependency_views(deps@) =~= dependency_views(earlier).push(dep@));
                }
            }
            k += 1;
        }
        proof {
            let upto = texts(lists@).take(i + 1);
            assert(upto.drop_last() =~= texts(lists@).take(i as int));
            assert(rows(items@).take(k as int) =~= rows(items@));
        }
        i += 1;
    }
    assert(texts(lists@).take(i as int) =~= texts(lists@));
    deps
}

/// Reads the prerequisites that the comments of a fragment declare.
pub fn parse_depends_on(content: &str) -> (r: Vec<FragmentDependency>)
    ensures
        dependency_views(r@) == content_dependencies(content@),
        !has_keyword(content@) || has_no_comment_sign(content@) ==> r@.len() == 0,
        forall|before: Seq<char>, keyword: Seq<char>, after: Seq<char>, rest: Seq<char>|
            content@ == #[trigger] empty_directive(before, keyword, after, rest)
                && is_empty_directive(before, keyword, after) ==> content_dependencies(content@)
                == content_dependencies(rest),
        forall|
            sign: Seq<char>,
            before: Seq<char>,
            keyword: Seq<char>,
            after: Seq<char>,
            list: Seq<char>,
            end: Seq<char>,
            rest: Seq<char>,
        |
            content@ == #[trigger] directive(sign, before, keyword, after, list, end, rest)
                && is_directive(sign, before, keyword, after, list, end, rest) ==> directive_lists(
                content@,
            ) == seq![list] + directive_lists(rest),
        forall|lead: Seq<char>, rest: Seq<char>|
            content@ == #[trigger] (lead + rest) && begins_no_directive(lead) ==> directive_lists(
                content@,
            ) == directive_lists(rest),
{
    let found = captures_iter(DEPENDS_ON, content);
    let ghost groups = all_group_texts(found@);
    assert(groups =~= directive_matches(content@));
    let mut lists: Vec<String> = Vec::new();
    let mut i: usize = 0;
    while i < found.len()
        invariant
            i <= found@.len(),
            groups == all_group_texts(found@),
            forall|j: int| 0 <= j < found@.len() ==> (#[trigger] groups[j]).len() == 2
                && groups[j][1] is Some,
            lists@.len() == i,
            forall|j: int| 0 <= j < i ==> (#[trigger] lists@[j])@ == groups[j][1]->0,
        decreases found@.len() - i,
    {
        assert(groups[i as int] == group_texts(found@[i as int]@));
        if let Some(list) = &found[i][1] {
            lists.push(list.clone());
        }
        i += 1;
    }
    proof {
        assert(texts(lists@) =~= directive_lists(content@));
        assert forall|before: Seq<char>, keyword: Seq<char>, after: Seq<char>, rest: Seq<char>|
            content@ == #[trigger] empty_directive(before, keyword, after, rest)
                && is_empty_directive(before, keyword, after) implies content_dependencies(content@)
            == content_dependencies(rest) by {
            if after.len() == 0 {
                assert(directive_lists(content@) =~= directive_lists(rest));
            } else {
                let list = seq![after.last()];
                assert(directive_lists(content@) =~= seq![list] + directive_lists(rest));
                lemma_blank_list(list, directive_lists(rest));
            }
        }
    }
    let deps = dependencies_from_lists(&lists);
    proof {
        if lists@.len() == 0 {
            assert(list_items(texts(lists@)).len() == 0);
            assert(dependency_views(deps@).len() == 0);
        }
    }
    deps
}

/// An item that declares nothing can be left out.
proof fn lemma_idle_item(item: Seq<char>, items: Seq<Seq<char>>)
    requires
        item_dependency(item) is None,
    ensures
        declared(seq![item] + items) == declared(items),
    decreases items.len(),
{
    let all = seq![item] + items;
    if items.len() == 0 {
        assert(all.drop_last() =~= items);
    } else {
        lemma_idle_item(item, items.drop_last());
        assert(all.drop_last() =~= seq![item] + items.drop_last());
    }
}

/// A list that is one blank declares nothing.
proof fn lemma_blank_list(list: Seq<char>, lists: Seq<Seq<char>>)
    requires
        list.len() == 1,
        is_space(list[0]),
    ensures
        declared(list_items(seq![list] + lists)) == declared(list_items(lists)),
{
    law_lists_are_read_in_turn(list, lists);
    assert(split(list, ',') =~= seq![list]) by {
        lemma_before(list, ',', 1);
    }
    assert(item_dependency(list) is None) by {
        lemma_space_run(list);
        assert(list.skip(1) =~= seq![]);
        assert(space_run(list) == 1);
        assert(trim(list).len() == 0);
    }
    lemma_idle_item(list, list_items(lists));
}

// ---------------------------------------------------------------------------
// Assembled text
// ---------------------------------------------------------------------------

/// The line that keeps a script from being run outside of `ALTER EXTENSION`.
pub open spec fn echo_header(extname: Seq<char>, target_version: Seq<char>) -> Seq<char> {
    "\\echo Use \"ALTER EXTENSION "@ + extname + " UPDATE TO '"@ + target_version
        + "'\" to load this file. \\quit\n"@
}

/// The rule above and below the name of a fragment.
pub const BANNER_RULE: &'static str = "-- ============================================================================";

/// The comment that names a fragment in a script.
pub open spec fn fragment_banner(filename: Seq<char>) -> Seq<char> {
    "\n"@ + BANNER_RULE@ + "\n-- Fragment: "@ + filename + "\n"@ + BANNER_RULE@ + "\n"@
}

/// What a fragment adds to a script.
pub open spec fn fragment_section(f: FragmentView) -> Seq<char> {
    fragment_banner(f.filename) + trim(f.sql_content) + seq!['\n']
}

/// The sections of the fragments, one after another.
pub open spec fn sections(fs: Seq<FragmentView>) -> Seq<char>
    decreases fs.len(),
{
    if fs.len() == 0 {
        seq![]
    } else {
        sections(fs.drop_last()) + fragment_section(fs.last())
    }
}

/// The script that applies the fragments.
pub open spec fn assembled(
    extname: Seq<char>,
    target_version: Seq<char>,
    fs: Seq<FragmentView>,
) -> Seq<char> {
    echo_header(extname, target_version) + sections(fs)
}

/// Writes the first line of a script.
pub fn format_echo_header(extname: &str, target_version: &str) -> (r: String)
    ensures
        r@ == echo_header(extname@, target_version@),
{
    let mut out = "\\echo Use \"ALTER EXTENSION ".to_owned();
    out.append(extname);
    out.append(" UPDATE TO '");
    out.append(target_version);
    out.append("'\" to load this file. \\quit\n");
    out
}

/// Writes the comment that names a fragment.
pub fn format_fragment_banner(filename: &str) -> (r: String)
    ensures
        r@ == fragment_banner(filename@),
{
    let mut out = "\n".to_owned();
    out.append(BANNER_RULE);
    out.append("\n-- Fragment: ");
    out.append(filename);
    out.append("\n");
    out.append(BANNER_RULE);
    out.append("\n");
    out
}

/// Writes the script that applies the fragments in the given order.
pub fn assemble_sql_content(
    extname: &str,
    target_version: &str,
    fragments: &[MigrationFragment],
) -> (r: String)
    ensures
        r@ == assembled(extname@, target_version@, fragment_views(fragments@)),
{
    let mut content = format_echo_header(extname, target_version);
    let ghost fs = fragment_views(fragments@);
    let mut i: usize = 0;
    assert(content@ + sections(fs.take(0)) =~= content@);
    while i < fragments.len()
        invariant
            i <= fragments@.len(),
            fs == fragment_views(fragments@),
            content@ == echo_header(extname@, target_version@) + sections(fs.take(i as int)),
        decreases fragments@.len() - i,
    {
        let ghost head = content@;
        content.append(format_fragment_banner(fragments[i].filename.as_str()).as_str());
        content.append(trim_text(fragments[i].sql_content.as_str()).as_str());
        content.push('\n');
        proof {
            let f = fs[i as int];
            assert(f == fragments@[i as int]@);
            assert(content@ =~= head + fragment_section(f));
            assert(fs.take(i + 1).drop_last() =~= fs.take(i as int));
            assert(head + fragment_section(f) =~= echo_header(extname@, target_version@) + sections(
                fs.take(i + 1),
            ));
        }
        i += 1;
    }
    assert(fs.take(i as int) =~= fs);
    content
}

// ---------------------------------------------------------------------------
// Laws
// ---------------------------------------------------------------------------

/// Whether the identifiers of fragments are told apart by their texts.
pub open spec fn are_told_apart(fs: Seq<FragmentView>) -> bool {
    forall|i: int, j: int|
        0 <= i < fs.len() && 0 <= j < fs.len() && id_text((#[trigger] fs[i]).id) == id_text(
            (#[trigger] fs[j]).id,
        ) ==> fs[i].id == fs[j].id
}

/// The identifiers that file names with a dot give are told apart by their texts.
pub proof fn law_filename_ids_are_told_apart(a: Seq<char>, b: Seq<char>)
    requires
        a.contains('.'),
        b.contains('.'),
        id_text(fragment_id(a)) == id_text(fragment_id(b)),
    ensures
        fragment_id(a) == fragment_id(b),
{
    match (fragment_id(a), fragment_id(b)) {
        (FragmentIdView::Numeric(m), FragmentIdView::Numeric(n)) => {
            lemma_decimal_injective(m as nat, n as nat);
        },
        (FragmentIdView::Numeric(n), FragmentIdView::Slug(_)) => {
            lemma_slug_is_no_number(b, n);
        },
        (FragmentIdView::Slug(_), FragmentIdView::Numeric(n)) => {
            lemma_slug_is_no_number(a, n);
        },
        _ => {},
    }
}

/// A file name with a dot that begins like a number has that number as identifier.
proof fn lemma_slug_is_no_number(name: Seq<char>, n: u64)
    requires
        name.contains('.'),
        name.take(before(name, '.') as int) == decimal(n as nat),
    ensures
        fragment_id(name) == FragmentIdView::Numeric(n),
{
    let k = before(name, '.') as int;
    let number = decimal(n as nat);
    lemma_before_bound(name, '.');
    lemma_decimal(n as nat);
    assert(k < name.len()) by {
        if k == name.len() {
            assert(name[name.index_of('.')] == '.');
        }
    }
    assert(name[k] == '.');
    lemma_digit_run(name);
    let d = digit_run(name) as int;
    if d < k {
        assert(name[d] == number[d]);
    }
    if d > k {
        assert(is_digit(name[k]));
    }
}

/// A file name that begins with a number and a dot has that number as identifier.
pub proof fn law_numbered_filename(n: u64, rest: Seq<char>)
    ensures
        fragment_id(decimal(n as nat) + seq!['.'] + rest) == FragmentIdView::Numeric(n),
{
    let number = decimal(n as nat);
    let name = number + seq!['.'] + rest;
    lemma_decimal(n as nat);
    lemma_digit_run(name);
    let k = number.len() as int;
    let d = digit_run(name) as int;
    assert(name[k] == '.');
    if d < k {
        assert(name[d] == number[d]);
        assert(is_digit(number[d]));
    }
    assert(name.take(k) =~= number);
}

/// A file name whose part before the first dot is no 64-bit number has that part as
/// identifier.
pub proof fn law_slug_filename(slug: Seq<char>, rest: Seq<char>)
    requires
        !slug.contains('.'),
        !is_digits(slug) || digits_value(slug) > u64::MAX,
    ensures
        fragment_id(slug + seq!['.'] + rest) == FragmentIdView::Slug(slug),
{
    let name = slug + seq!['.'] + rest;
    let k = slug.len() as int;
    assert forall|j: int| 0 <= j < k implies name[j] != '.' by {
        assert(slug[j] == name[j]);
    }
    assert(name[k] == '.');
    lemma_before(name, '.', k);
    assert(name.take(k) =~= slug);
    if has_number_prefix(name) {
        lemma_digit_run(name);
        let d = digit_run(name) as int;
        if d < k {
            assert(name[d] == slug[d]);
        }
        assert(d == k);
        lemma_number_prefix(name);
    }
}

/// An item of a list that is a number, perhaps after a number sign and perhaps with
/// white space around, declares the fragment with that number.
pub proof fn law_number_item(left: Seq<char>, signed: bool, n: u64, right: Seq<char>)
    requires
        forall|k: int| 0 <= k < left.len() ==> is_space(#[trigger] left[k]),
        forall|k: int| 0 <= k < right.len() ==> is_space(#[trigger] right[k]),
    ensures
        item_dependency(
            left + (if signed {
                seq!['#'] + decimal(n as nat)
            } else {
                decimal(n as nat)
            }) + right,
        ) == Some(DependencyView::Id(FragmentIdView::Numeric(n))),
{
    let number = decimal(n as nat);
    let core = if signed {
        seq!['#'] + number
    } else {
        number
    };
    lemma_decimal(n as nat);
    assert(is_digit(number[0]));
    assert(is_digit(number.last()));
    assert(core.last() == number.last());
    lemma_trim(left, core, right);
    reveal_strlit(".sql");
    if ends_with(core, ".sql"@) {
        assert(core.skip(core.len() - 4)[3] == core.last());
    }
    assert(trim_start_matches(number, '#') == number);
    if signed {
        assert(core.skip(1) =~= number);
        assert(trim_start_matches(core, '#') == number);
    }
    assert(seq![] + number + seq![] =~= number);
    lemma_trim(seq![], number, seq![]);
    law_number_round_trip(n);
}

/// The items of several lists are those of the first, and then those of the others.
pub proof fn law_lists_are_read_in_turn(list: Seq<char>, others: Seq<Seq<char>>)
    ensures
        list_items(seq![list] + others) == split(list, ',') + list_items(others),
    decreases others.len(),
{
    let lists = seq![list] + others;
    if others.len() == 0 {
        assert(lists.drop_last() =~= seq![]);
        assert(list_items(lists.drop_last()) =~= seq![]);
        assert(list_items(lists) =~= split(list, ',') + list_items(others));
    } else {
        law_lists_are_read_in_turn(list, others.drop_last());
        assert(lists.drop_last() =~= seq![list] + others.drop_last());
        assert(list_items(lists) =~= split(list, ',') + list_items(others));
    }
}

/// What items declare: each dependency that an item stands for is listed, none is
/// listed twice, and nothing else is listed.
pub proof fn law_declared(items: Seq<Seq<char>>)
    ensures
        forall|k: int|
            0 <= k < items.len() ==> (item_dependency(#[trigger] items[k]) matches Some(dep)
                ==> is_declared_already(declared(items), dep)),
        forall|i: int, j: int|
            0 <= i < j < declared(items).len() ==> dependency_text(#[trigger] declared(items)[i])
                != dependency_text(#[trigger] declared(items)[j]),
        forall|i: int|
            0 <= i < declared(items).len() ==> exists|k: int|
                0 <= k < items.len() && item_dependency(#[trigger] items[k]) == Some(
                    #[trigger] declared(items)[i],
                ),
    decreases items.len(),
{
    if items.len() > 0 {
        let head = items.drop_last();
        law_declared(head);
        let earlier = declared(head);
        let deps = declared(items);
        assert forall|k: int| 0 <= k < items.len() implies (item_dependency(
            #[trigger] items[k],
        ) matches Some(dep) ==> is_declared_already(deps, dep)) by {
            if let Some(dep) = item_dependency(items[k]) {
                if k < head.len() {
                    assert(head[k] == items[k]);
                    let i = choose|i: int|
                        0 <= i < earlier.len() && dependency_text(#[trigger] earlier[i])
                            == dependency_text(dep);
                    assert(deps[i] == earlier[i]);
                } else if !is_declared_already(earlier, dep) {
                    assert(deps[earlier.len() as int] == dep);
                }
            }
        }
        assert forall|i: int| 0 <= i < deps.len() implies exists|k: int|
            0 <= k < items.len() && item_dependency(#[trigger] items[k]) == Some(
                #[trigger] deps[i],
            ) by {
            if i < earlier.len() {
                assert(deps[i] == earlier[i]);
                let k = choose|k: int|
                    0 <= k < head.len() && item_dependency(#[trigger] head[k]) == Some(earlier[i]);
                assert(items[k] == head[k]);
            } else {
                assert(items[items.len() - 1] == items.last());
            }
        }
    }
}

/// The token of an item ends as the item does.
proof fn lemma_token_is_suffix(item: Seq<char>)
    ensures
        ({
            let name = trim(item);
            let token = trim(trim_start_matches(name, '#'));
            token.len() <= name.len() && name.skip(name.len() - token.len()) == token
        }),
{
    let name = trim(item);
    lemma_trim_is_bare(item);
    let rest = trim_start_matches(name, '#');
    lemma_trim_start_matches(name, '#');
    lemma_space_run(rest);
    let t = trim_start(rest);
    if t.len() > 0 {
        assert(t.last() == rest.last());
        assert(rest.last() == name.last());
    }
    assert(trim_end(t) == t);
    assert(name.skip(name.len() - t.len()) =~= t);
}

/// Two items that declare dependencies with the same text declare the same one.
pub proof fn law_text_tells_dependencies_apart(a: Seq<char>, b: Seq<char>)
    requires
        item_dependency(a) is Some,
        item_dependency(b) is Some,
        dependency_text(item_dependency(a)->0) == dependency_text(item_dependency(b)->0),
    ensures
        item_dependency(a) == item_dependency(b),
{
    lemma_item_text(a);
    lemma_item_text(b);
    match (item_dependency(a)->0, item_dependency(b)->0) {
        (
            DependencyView::Id(FragmentIdView::Numeric(m)),
            DependencyView::Id(FragmentIdView::Numeric(n)),
        ) => {
            lemma_decimal_injective(m as nat, n as nat);
        },
        _ => {},
    }
}

/// The text of a file name ends in the suffix of SQL files, that of a number can be read
/// as one, and that of a slug does neither.
proof fn lemma_item_text(item: Seq<char>)
    ensures
        item_dependency(item) matches Some(dep) ==> {
            &&& dep is Filename <==> ends_with(dependency_text(dep), ".sql"@)
            &&& dep matches DependencyView::Id(FragmentIdView::Numeric(n)) ==> parsed_u64(
                dependency_text(dep),
            ) == Some(n)
            &&& dep matches DependencyView::Id(FragmentIdView::Slug(s)) ==> parsed_u64(
                dependency_text(dep),
            ) is None
        },
{
    reveal_strlit(".sql");
    let name = trim(item);
    let token = trim(trim_start_matches(name, '#'));
    lemma_token_is_suffix(item);
    match item_dependency(item) {
        Some(DependencyView::Id(FragmentIdView::Numeric(n))) => {
            let number = decimal(n as nat);
            law_number_round_trip(n);
            lemma_decimal(n as nat);
            assert(is_digit(number.last()));
            if ends_with(number, ".sql"@) {
                assert(number.skip(number.len() - 4)[3] == number.last());
            }
        },
        Some(DependencyView::Id(FragmentIdView::Slug(s))) => {
            if ends_with(s, ".sql"@) {
                assert(name.skip(name.len() - 4) =~= token.skip(token.len() - 4));
            }
        },
        _ => {},
    }
}

/// An item that stands for an identifier makes the list declare that identifier.
pub proof fn law_listed_identifier_is_declared(
    items: Seq<Seq<char>>,
    k: int,
    id: FragmentIdView,
)
    requires
        0 <= k < items.len(),
        item_dependency(items[k]) == Some(DependencyView::Id(id)),
    ensures
        declared(items).contains(DependencyView::Id(id)),
{
    law_declared(items);
    let deps = declared(items);
    let dep = DependencyView::Id(id);
    assert(is_declared_already(deps, dep));
    let i = choose|i: int|
        0 <= i < deps.len() && dependency_text(#[trigger] deps[i]) == dependency_text(dep);
    let j = choose|j: int|
        0 <= j < items.len() && item_dependency(#[trigger] items[j]) == Some(deps[i]);
    law_text_tells_dependencies_apart(items[j], items[k]);
    assert(deps[i] == dep);
}

/// A script begins with its header, and holds the section of each fragment right
/// after those of the fragments before it.
pub proof fn law_sections_in_order(
    extname: Seq<char>,
    target_version: Seq<char>,
    fs: Seq<FragmentView>,
    i: int,
)
    requires
        0 <= i < fs.len(),
    ensures
        starts_with(assembled(extname, target_version, fs), echo_header(extname, target_version)),
        occurs_at(
            assembled(extname, target_version, fs),
            fragment_section(fs[i]),
            assembled(extname, target_version, fs.take(i)).len() as int,
        ),
        assembled(extname, target_version, fs.take(i + 1)).len() == assembled(
            extname,
            target_version,
            fs.take(i),
        ).len() + fragment_section(fs[i]).len(),
        assembled(extname, target_version, fs.take(i + 1)).len() <= assembled(
            extname,
            target_version,
            fs,
        ).len(),
{
    let header = echo_header(extname, target_version);
    let all = assembled(extname, target_version, fs);
    assert(all.take(header.len() as int) =~= header);
    assert(fs.take(i + 1).drop_last() =~= fs.take(i));
    lemma_sections_prefix(fs, i + 1);
    let upto = assembled(extname, target_version, fs.take(i + 1));
    let start = assembled(extname, target_version, fs.take(i)).len() as int;
    let end = start + fragment_section(fs[i]).len();
    assert(sections(fs).take(end - header.len()) == sections(fs.take(i + 1)));
    assert(all.subrange(start, end) =~= sections(fs).take(end - header.len()).skip(
        start - header.len(),
    ));
    assert(all.subrange(start, end) =~= fragment_section(fs[i]));
}

proof fn lemma_sections_prefix(fs: Seq<FragmentView>, k: int)
    requires
        0 <= k <= fs.len(),
    ensures
        sections(fs.take(k)).len() <= sections(fs).len(),
        sections(fs).take(sections(fs.take(k)).len() as int) == sections(fs.take(k)),
    decreases fs.len() - k,
{
    if k < fs.len() {
        lemma_sections_prefix(fs, k + 1);
        assert(fs.take(k + 1).drop_last() =~= fs.take(k));
        let n = sections(fs.take(k)).len() as int;
        assert(sections(fs.take(k + 1)).take(n) =~= sections(fs.take(k)));
        assert(sections(fs).take(n) =~= sections(fs).take(
            sections(fs.take(k + 1)).len() as int,
        ).take(n));
    } else {
        assert(fs.take(k) =~= fs);
        assert(sections(fs).take(sections(fs).len() as int) =~= sections(fs));
    }
}

/// The text of a fragment, without the white space around it, is in the script.
pub proof fn law_script_holds_fragment(
    extname: Seq<char>,
    target_version: Seq<char>,
    fs: Seq<FragmentView>,
    i: int,
)
    requires
        0 <= i < fs.len(),
    ensures
        contains_text(assembled(extname, target_version, fs), trim(fs[i].sql_content)),
        contains_text(assembled(extname, target_version, fs), fragment_banner(fs[i].filename)),
{
    law_sections_in_order(extname, target_version, fs, i);
    let all = assembled(extname, target_version, fs);
    let start = assembled(extname, target_version, fs.take(i)).len() as int;
    let section = fragment_section(fs[i]);
    let banner = fragment_banner(fs[i].filename);
    let sql = trim(fs[i].sql_content);
    assert(all.subrange(start, start + section.len()) == section);
    let mid = start + banner.len();
    assert(all.subrange(start, mid) =~= section.take(banner.len() as int));
    assert(section.take(banner.len() as int) =~= banner);
    assert(occurs_at(all, banner, start));
    assert(all.subrange(mid, mid + sql.len()) =~= section.subrange(
        mid - start,
        mid - start + sql.len(),
    ));
    assert(section.subrange(mid - start, mid - start + sql.len()) =~= sql);
    assert(occurs_at(all, sql, mid));
}

/// A script begins with a line that keeps it from being run by itself. Each further fragment
/// adds its banner, its text once and without the white space around it, and one line break,
/// whatever it depends on and whatever stands before it.
pub proof fn law_script_grows_by_sections(
    extname: Seq<char>,
    target_version: Seq<char>,
    fs: Seq<FragmentView>,
    f: FragmentView,
    left: Seq<char>,
    sql: Seq<char>,
    right: Seq<char>,
)
    requires
        f.sql_content == left + sql + right,
        forall|k: int| 0 <= k < left.len() ==> is_space(#[trigger] left[k]),
        forall|k: int| 0 <= k < right.len() ==> is_space(#[trigger] right[k]),
        sql.len() > 0 ==> !is_space(sql[0]) && !is_space(sql.last()),
    ensures
        assembled(extname, target_version, Seq::<FragmentView>::empty())
            == "\\echo Use \"ALTER EXTENSION "@ + extname + " UPDATE TO '"@ + target_version
            + "'\" to load this file. \\quit\n"@,
        assembled(extname, target_version, fs.push(f)) == assembled(extname, target_version, fs) + (
        "\n-- ============================================================================\n"@
            + "-- Fragment: "@ + f.filename
            + "\n-- ============================================================================\n"@
            + sql + "\n"@),
{
    reveal_strlit("\n");
    reveal_strlit("\n-- Fragment: ");
    reveal_strlit("-- Fragment: ");
    reveal_strlit("-- ============================================================================");
    reveal_strlit(
        "\n-- ============================================================================\n",
    );
    law_trim(left, sql, right);
    let header = echo_header(extname, target_version);
    let none = Seq::<FragmentView>::empty();
    assert(sections(none) =~= seq![]);
    assert(assembled(extname, target_version, none) =~= header);
    assert(fs.push(f).drop_last() =~= fs);
    let section = fragment_section(f);
    assert(assembled(extname, target_version, fs.push(f)) =~= assembled(
        extname,
        target_version,
        fs,
    ) + section);
    let rule = "-- ============================================================================"@;
    let line = "\n-- ============================================================================\n"@;
    assert(line =~= "\n"@ + rule + "\n"@);
    assert("\n-- Fragment: "@ =~= "\n"@ + "-- Fragment: "@);
    assert(fragment_banner(f.filename) =~= line + "-- Fragment: "@ + f.filename + line);
    assert(section =~= line + "-- Fragment: "@ + f.filename + line + sql + "\n"@);
}

/// An item that is a slug, perhaps after number signs and perhaps with white space around,
/// declares the fragment with that slug, whatever characters it is made of.
pub proof fn law_slug_item(
    left: Seq<char>,
    signs: Seq<char>,
    gap: Seq<char>,
    slug: Seq<char>,
    right: Seq<char>,
)
    requires
        forall|k: int| 0 <= k < left.len() ==> is_space(#[trigger] left[k]),
        forall|k: int| 0 <= k < signs.len() ==> #[trigger] signs[k] == '#',
        forall|k: int| 0 <= k < gap.len() ==> is_space(#[trigger] gap[k]),
        forall|k: int| 0 <= k < right.len() ==> is_space(#[trigger] right[k]),
        slug.len() > 0,
        !is_space(slug[0]) && !is_space(slug.last()),
        slug[0] != '#',
        slug.len() < 4 || slug.skip(slug.len() - 4) != ".sql"@,
        parsed_u64(slug) is None,
    ensures
        item_dependency(left + (signs + gap + slug) + right) == Some(
            DependencyView::Id(FragmentIdView::Slug(slug)),
        ),
{
    lemma_item_token(left, signs, gap, slug, right);
}

/// An item that is a number, however many zeros and number signs stand before it, declares
/// the fragment with that number.
pub proof fn law_padded_number_item(
    left: Seq<char>,
    signs: Seq<char>,
    gap: Seq<char>,
    plus: bool,
    zeros: Seq<char>,
    n: u64,
    right: Seq<char>,
)
    requires
        forall|k: int| 0 <= k < left.len() ==> is_space(#[trigger] left[k]),
        forall|k: int| 0 <= k < signs.len() ==> #[trigger] signs[k] == '#',
        forall|k: int| 0 <= k < gap.len() ==> is_space(#[trigger] gap[k]),
        forall|k: int| 0 <= k < zeros.len() ==> #[trigger] zeros[k] == '0',
        forall|k: int| 0 <= k < right.len() ==> is_space(#[trigger] right[k]),
    ensures
        item_dependency(
            left + (signs + gap + (if plus {
                seq!['+'] + (zeros + decimal(n as nat))
            } else {
                zeros + decimal(n as nat)
            })) + right,
        ) == Some(DependencyView::Id(FragmentIdView::Numeric(n))),
{
    reveal_strlit(".sql");
    let digits = zeros + decimal(n as nat);
    let token = if plus {
        seq!['+'] + digits
    } else {
        digits
    };
    law_number_is_read(zeros, n);
    lemma_decimal(n as nat);
    assert(is_digit(decimal(n as nat).last()));
    assert(token.last() == decimal(n as nat).last());
    if zeros.len() > 0 {
        assert(digits[0] == zeros[0]);
    } else {
        assert(digits[0] == decimal(n as nat)[0]);
        assert(is_digit(decimal(n as nat)[0]));
    }
    if token.len() >= 4 {
        assert(token.skip(token.len() - 4)[3] == token.last());
    }
    lemma_item_token(left, signs, gap, token, right);
}

/// An item that is the name of an SQL file, perhaps with white space around, declares the
/// file of that name.
pub proof fn law_filename_item(left: Seq<char>, stem: Seq<char>, right: Seq<char>)
    requires
        forall|k: int| 0 <= k < left.len() ==> is_space(#[trigger] left[k]),
        forall|k: int| 0 <= k < right.len() ==> is_space(#[trigger] right[k]),
        stem.len() > 0 ==> !is_space(stem[0]),
    ensures
        item_dependency(left + (stem + ".sql"@) + right) == Some(
            DependencyView::Filename(stem + ".sql"@),
        ),
{
    reveal_strlit(".sql");
    let name = stem + ".sql"@;
    assert(name.last() == 'l');
    if stem.len() > 0 {
        assert(name[0] == stem[0]);
    } else {
        assert(name[0] == '.');
    }
    law_trim(left, name, right);
    assert(name.skip(name.len() - 4) =~= ".sql"@);
}

/// Only white space around number signs declares nothing.
pub proof fn law_idle_items(
    item: Seq<char>,
    left: Seq<char>,
    signs: Seq<char>,
    right: Seq<char>,
)
    requires
        forall|k: int| 0 <= k < left.len() ==> is_space(#[trigger] left[k]),
        forall|k: int| 0 <= k < signs.len() ==> #[trigger] signs[k] == '#',
        forall|k: int| 0 <= k < right.len() ==> is_space(#[trigger] right[k]),
    ensures
        item_dependency(left + signs + right) is None,
        item_dependency(item) is None ==> forall|k: int|
            0 <= k < item.len() ==> is_space(#[trigger] item[k]) || item[k] == '#',
{
    reveal_strlit(".sql");
    law_trim(left, signs, right);
    assert(signs + Seq::<char>::empty() =~= signs);
    law_trim_start_matches(signs, seq![], '#');
    law_trim(seq![], seq![], seq![]);
    assert(Seq::<char>::empty() + Seq::<char>::empty() + Seq::<char>::empty() =~= seq![]);
    if signs.len() >= 4 {
        assert(signs.skip(signs.len() - 4)[0] == signs[signs.len() - 4]);
    }
    if item_dependency(item) is None {
        let name = trim(item);
        let rest = trim_start_matches(name, '#');
        let (a, b) = law_trim_leaves_the_middle(item);
        let (c, d) = law_trim_leaves_the_middle(rest);
        lemma_trim_start_matches(name, '#');
        assert forall|k: int| 0 <= k < item.len() implies is_space(#[trigger] item[k]) || item[k]
            == '#' by {
            if k < a.len() {
                assert(item[k] == a[k]);
            } else if k < a.len() + name.len() {
                let j = k - a.len();
                assert(item[k] == name[j]);
                let n = name.len() - rest.len();
                if j >= n {
                    assert(trim(rest).len() == 0);
                    assert(rest =~= c + d);
                    assert(name[j] == rest[j - n]);
                    if j - n < c.len() {
                        assert(rest[j - n] == c[j - n]);
                    } else {
                        assert(rest[j - n] == d[j - n - c.len()]);
                    }
                }
            } else {
                assert(item[k] == b[k - a.len() - name.len()]);
            }
        }
    }
}

/// What an item comes to without white space and number signs around it.
proof fn lemma_item_token(
    left: Seq<char>,
    signs: Seq<char>,
    gap: Seq<char>,
    token: Seq<char>,
    right: Seq<char>,
)
    requires
        forall|k: int| 0 <= k < left.len() ==> is_space(#[trigger] left[k]),
        forall|k: int| 0 <= k < signs.len() ==> #[trigger] signs[k] == '#',
        forall|k: int| 0 <= k < gap.len() ==> is_space(#[trigger] gap[k]),
        forall|k: int| 0 <= k < right.len() ==> is_space(#[trigger] right[k]),
        token.len() > 0,
        !is_space(token[0]) && !is_space(token.last()),
        token[0] != '#',
        token.len() < 4 || token.skip(token.len() - 4) != ".sql"@,
    ensures
        ({
            let item = left + (signs + gap + token) + right;
            let name = trim(item);
            &&& name.len() > 0
            &&& !ends_with(name, ".sql"@)
            &&& trim(trim_start_matches(name, '#')) == token
        }),
{
    reveal_strlit(".sql");
    let item = left + (signs + gap + token) + right;
    let rest = gap + token;
    assert(rest.last() == token.last());
    if signs.len() == 0 {
        assert(item =~= (left + gap) + token + right);
        assert forall|k: int| 0 <= k < (left + gap).len() implies is_space(
            #[trigger] (left + gap)[k],
        ) by {
            if k < left.len() {
                assert((left + gap)[k] == left[k]);
            } else {
                assert((left + gap)[k] == gap[k - left.len()]);
            }
        }
        law_trim(left + gap, token, right);
        assert(signs + token =~= token);
        law_trim_start_matches(signs, token, '#');
        assert(seq![] + token + seq![] =~= token);
        law_trim(seq![], token, seq![]);
    } else {
        let name = signs + gap + token;
        assert(name[0] == signs[0]);
        assert(name.last() == token.last());
        law_trim(left, name, right);
        assert(name =~= signs + rest);
        if gap.len() > 0 {
            assert(rest[0] == gap[0]);
        } else {
            assert(rest[0] == token[0]);
        }
        law_trim_start_matches(signs, rest, '#');
        assert(gap + token + seq![] =~= rest);
        law_trim(gap, token, seq![]);
        if ends_with(name, ".sql"@) {
            let k = name.len() - 4;
            assert(name.skip(k)[0] == name[k]);
            if token.len() >= 4 {
                assert(name.skip(k) =~= token.skip(token.len() - 4));
            } else if k < signs.len() {
                assert(name[k] == signs[k]);
            } else {
                assert(name[k] == gap[k - signs.len()]);
            }
        }
    }
}

/// Each further item of a list adds what it declares at the end, unless that is declared
/// already.
pub proof fn law_items_are_declared_in_turn(items: Seq<Seq<char>>, item: Seq<char>)
    ensures
        declared(Seq::<Seq<char>>::empty()).len() == 0,
        declared(items.push(item)) == (match item_dependency(item) {
            Some(dep) => if declared(items).contains(dep) {
                declared(items)
            } else {
                declared(items).push(dep)
            },
            None => declared(items),
        }),
{
    let deps = declared(items);
    assert(items.push(item).drop_last() =~= items);
    law_declared(items);
    if let Some(dep) = item_dependency(item) {
        if deps.contains(dep) {
            assert(dependency_text(deps[deps.index_of(dep)]) == dependency_text(dep));
        }
        if is_declared_already(deps, dep) {
            let i = choose|i: int|
                0 <= i < deps.len() && dependency_text(#[trigger] deps[i]) == dependency_text(dep);
            let k = choose|k: int|
                0 <= k < items.len() && item_dependency(#[trigger] items[k]) == Some(deps[i]);
            law_text_tells_dependencies_apart(items[k], item);
            assert(deps[i] == dep);
        }
    }
}

/// A fragment declares exactly what the items of its lists declare, and nothing twice.
pub proof fn law_content_declares_its_items(content: Seq<char>, dep: DependencyView)
    ensures
        content_dependencies(content).contains(dep) <==> exists|i: int, k: int|
            0 <= i < directive_lists(content).len() && 0 <= k < split(
                directive_lists(content)[i],
                ',',
            ).len() && item_dependency(#[trigger] split(directive_lists(content)[i], ',')[k])
                == Some(dep),
        content_dependencies(content).no_duplicates(),
{
    let lists = directive_lists(content);
    let items = list_items(lists);
    let deps = content_dependencies(content);
    law_declared(items);
    assert(deps == declared(items));
    assert forall|i: int, j: int| 0 <= i < deps.len() && 0 <= j < deps.len() && i != j implies deps[i]
        != deps[j] by {
        if i < j {
            assert(dependency_text(deps[i]) != dependency_text(deps[j]));
        } else {
            assert(dependency_text(deps[j]) != dependency_text(deps[i]));
        }
    }
    if deps.contains(dep) {
        let i = deps.index_of(dep);
        let n = choose|n: int|
            0 <= n < items.len() && item_dependency(#[trigger] items[n]) == Some(deps[i]);
        let (a, b) = lemma_list_item(lists, n);
        assert(item_dependency(split(lists[a], ',')[b]) == Some(dep));
    }
    if exists|i: int, k: int|
        0 <= i < lists.len() && 0 <= k < split(lists[i], ',').len() && item_dependency(
            #[trigger] split(lists[i], ',')[k],
        ) == Some(dep) {
        let (i, k) = choose|i: int, k: int|
            0 <= i < lists.len() && 0 <= k < split(lists[i], ',').len() && item_dependency(
                #[trigger] split(lists[i], ',')[k],
            ) == Some(dep);
        let n = lemma_item_position(lists, i, k);
        assert(is_declared_already(deps, dep));
        let j = choose|j: int|
            0 <= j < deps.len() && dependency_text(#[trigger] deps[j]) == dependency_text(dep);
        let m = choose|m: int|
            0 <= m < items.len() && item_dependency(#[trigger] items[m]) == Some(deps[j]);
        law_text_tells_dependencies_apart(items[m], items[n]);
        assert(deps[j] == dep);
    }
}

/// Where an item of the lists comes from.
proof fn lemma_list_item(lists: Seq<Seq<char>>, n: int) -> (r: (int, int))
    requires
        0 <= n < list_items(lists).len(),
    ensures
        0 <= r.0 < lists.len(),
        0 <= r.1 < split(lists[r.0], ',').len(),
        list_items(lists)[n] == split(lists[r.0], ',')[r.1],
    decreases lists.len(),
{
    let earlier = list_items(lists.drop_last());
    if n < earlier.len() {
        lemma_list_item(lists.drop_last(), n)
    } else {
        (lists.len() - 1, n - earlier.len())
    }
}

/// Where an item of a list is among those of all lists.
proof fn lemma_item_position(lists: Seq<Seq<char>>, i: int, k: int) -> (n: int)
    requires
        0 <= i < lists.len(),
        0 <= k < split(lists[i], ',').len(),
    ensures
        0 <= n < list_items(lists).len(),
        list_items(lists)[n] == split(lists[i], ',')[k],
    decreases lists.len(),
{
    let earlier = list_items(lists.drop_last());
    if i == lists.len() - 1 {
        earlier.len() + k
    } else {
        lemma_item_position(lists.drop_last(), i, k)
    }
}

/// A file name that begins with zeros, a number and a dot has that number as identifier.
pub proof fn law_padded_filename(zeros: Seq<char>, n: u64, rest: Seq<char>)
    requires
        forall|k: int| 0 <= k < zeros.len() ==> #[trigger] zeros[k] == '0',
    ensures
        fragment_id(zeros + decimal(n as nat) + seq!['.'] + rest) == FragmentIdView::Numeric(n),
{
    let number = zeros + decimal(n as nat);
    let name = number + seq!['.'] + rest;
    let k = number.len() as int;
    lemma_decimal(n as nat);
    law_number_is_read(zeros, n);
    assert forall|j: int| 0 <= j < k implies is_digit(#[trigger] name[j]) by {
        if j < zeros.len() {
            assert(name[j] == zeros[j]);
        } else {
            assert(name[j] == decimal(n as nat)[j - zeros.len()]);
        }
    }
    lemma_digit_run(name);
    let d = digit_run(name) as int;
    assert(name[k] == '.');
    if d < k {
        assert(is_digit(name[d]));
    }
    if d > k {
        assert(is_digit(name[k]));
    }
    assert(name.take(k) =~= number);
    assert(is_digit(number[0])) by {
        assert(name[0] == number[0]);
    }
}

/// A file name without such a number has what stands before its first dot as identifier, and
/// one without a dot its whole text.
pub proof fn law_other_filenames(slug: Seq<char>, rest: Seq<char>, i: int)
    requires
        !slug.contains('.'),
    ensures
        fragment_id(slug) == FragmentIdView::Slug(slug),
        0 <= i < slug.len() && !('0' <= slug[i] <= '9') ==> fragment_id(slug + seq!['.'] + rest)
            == FragmentIdView::Slug(slug),
        slug.len() == 0 ==> fragment_id(slug + seq!['.'] + rest) == FragmentIdView::Slug(slug),
        forall|n: nat|
            n > u64::MAX && slug == #[trigger] decimal(n) ==> fragment_id(slug + seq!['.'] + rest)
                == FragmentIdView::Slug(slug),
{
    if has_number_prefix(slug) {
        assert(slug.contains(slug[digit_run(slug) as int]));
    }
    assert forall|j: int| 0 <= j < slug.len() implies slug[j] != '.' by {
        assert(slug.contains(slug[j]));
    }
    lemma_before(slug, '.', slug.len() as int);
    assert(slug.take(slug.len() as int) =~= slug);
    if 0 <= i < slug.len() && !('0' <= slug[i] <= '9') {
        assert(!is_digit(slug[i]));
        law_slug_filename(slug, rest);
    }
    if slug.len() == 0 {
        law_slug_filename(slug, rest);
    }
    assert forall|n: nat| n > u64::MAX && slug == #[trigger] decimal(n) implies fragment_id(
        slug + seq!['.'] + rest,
    ) == FragmentIdView::Slug(slug) by {
        lemma_decimal(n);
        law_slug_filename(slug, rest);
    }
}

/// Identifiers ascend by number, then by text, and numbers come before texts. A number is
/// written in base ten, and a slug and a file name as they are.
pub proof fn law_identifiers(m: u64, n: u64, s: Seq<char>, t: Seq<char>)
    ensures
        id_less(FragmentIdView::Numeric(m), FragmentIdView::Numeric(n)) <==> m < n,
        id_less(FragmentIdView::Numeric(m), FragmentIdView::Slug(s)),
        !id_less(FragmentIdView::Slug(s), FragmentIdView::Numeric(m)),
        id_less(FragmentIdView::Slug(s), FragmentIdView::Slug(t)) <==> text_less(s, t),
        id_text(FragmentIdView::Numeric(n)) == decimal(n as nat),
        id_text(FragmentIdView::Slug(s)) == s,
        dependency_text(DependencyView::Id(FragmentIdView::Numeric(n))) == decimal(n as nat),
        dependency_text(DependencyView::Id(FragmentIdView::Slug(s))) == s,
        dependency_text(DependencyView::Filename(s)) == s,
{
}

/// The contents of fragments are all of their parts, for each of them in its place, with all
/// dependencies in theirs.
pub proof fn law_fragment_contents(v: Seq<MigrationFragment>, i: int, d: int)
    requires
        0 <= i < v.len(),
    ensures
        fragment_views(v).len() == v.len(),
        fragment_views(v)[i].path == v[i].path@,
        fragment_views(v)[i].filename == v[i].filename@,
        fragment_views(v)[i].sql_content == v[i].sql_content@,
        v[i].id matches FragmentId::Numeric(n) ==> fragment_views(v)[i].id
            == FragmentIdView::Numeric(n),
        v[i].id matches FragmentId::Slug(s) ==> fragment_views(v)[i].id == FragmentIdView::Slug(s@),
        fragment_views(v)[i].dependencies.len() == v[i].dependencies@.len(),
        0 <= d < v[i].dependencies@.len() ==> match v[i].dependencies@[d] {
            FragmentDependency::Id(FragmentId::Numeric(n)) => fragment_views(v)[i].dependencies[d]
                == DependencyView::Id(FragmentIdView::Numeric(n)),
            FragmentDependency::Id(FragmentId::Slug(s)) => fragment_views(v)[i].dependencies[d]
                == DependencyView::Id(FragmentIdView::Slug(s@)),
            FragmentDependency::Filename(name) => fragment_views(v)[i].dependencies[d]
                == DependencyView::Filename(name@),
        },
{
}

}
