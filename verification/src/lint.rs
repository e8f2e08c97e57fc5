//! The check of fragments: circles, undeclared dependencies and mixed objects.

use vstd::prelude::*;
use vstd::string::*;
use crate::error::{error_text, ErrorView};
use crate::fragment::{
    are_told_apart, dependency_views, fragment_id, fragment_views, id_less, id_text, parse_fragment_id,
    DependencyView, FragmentDependency, FragmentId, FragmentIdView, FragmentView,
    MigrationFragment,
};
use crate::order::{
    apply_order, distinct_filenames, is_acyclic, law_input_order_is_irrelevant,
    law_placed_or_stuck, law_prerequisites_first, lemma_apply_order, lemma_id_less_total,
    lemma_id_less_transitive, needs, pick, positions, same_fragments, sort_positions, stuck_names,
};
use crate::pattern::is_verb;
use crate::statement::{
    content_statements, extract_statements_and_objects, statement_views, SqlStatement,
    StatementView,
};
use crate::text::{join, join_texts, same_text, texts};

verus! {

/// How findings are printed.
#[derive(Debug, Clone, Copy, PartialEq, Eq)]
pub enum LintFormat {
    Text,
    Json,
    Github,
}

impl Default for LintFormat {
    fn default() -> (r: Self)
        ensures
            r is Text,
    {
        LintFormat::Text
    }
}

/// What a finding is about.
#[derive(Debug, Clone, Copy, PartialEq, Eq)]
pub enum LintRule {
    DagCycle,
    UndeclaredDependency,
    MixedObjects,
}

/// A finding.
#[derive(Debug, Clone, PartialEq, Eq)]
pub struct DiagnosticIssue {
    pub file: String,
    pub filename: String,
    pub rule: LintRule,
    pub message: String,
}

/// The contents of a `DiagnosticIssue`.
pub struct IssueView {
    pub file: Seq<char>,
    pub filename: Seq<char>,
    pub rule: LintRule,
    pub message: Seq<char>,
}

impl View for DiagnosticIssue {
    type V = IssueView;

    open spec fn view(&self) -> IssueView {
        IssueView {
            file: self.file@,
            filename: self.filename@,
            rule: self.rule,
            message: self.message@,
        }
    }
}

/// The contents of a vector of findings.
pub open spec fn issue_views(v: Seq<DiagnosticIssue>) -> Seq<IssueView> {
    Seq::new(v.len(), |i: int| v[i]@)
}

/// What is checked.
#[derive(Debug, Clone, PartialEq, Eq)]
pub struct LintConfig {
    /// Whether a fragment may not touch both released and unreleased objects.
    pub deny_mixed_objects: bool,
    /// Where to compare with, if only what changed since is checked.
    pub base_ref: Option<String>,
}

// ---------------------------------------------------------------------------
// Objects that fragments create
// ---------------------------------------------------------------------------

/// The objects that fragments create, each with the first fragment that does.
#[derive(Debug, Clone, PartialEq, Eq)]
pub struct ObjectCatalog {
    entries: Vec<(String, FragmentId)>,
}

impl View for ObjectCatalog {
    type V = Map<Seq<char>, FragmentIdView>;

    closed spec fn view(&self) -> Map<Seq<char>, FragmentIdView> {
        entries_map(self.entries@)
    }
}

/// The map that a list of entries stands for: the first entry of a key counts.
spec fn entries_map(entries: Seq<(String, FragmentId)>) -> Map<Seq<char>, FragmentIdView>
    decreases entries.len(),
{
    if entries.len() == 0 {
        Map::empty()
    } else {
        with_owner(entries_map(entries.drop_last()), entries.last().0@, entries.last().1@)
    }
}

/// `catalog` with an owner for the object, unless it has one.
pub open spec fn with_owner(
    catalog: Map<Seq<char>, FragmentIdView>,
    signature: Seq<char>,
    id: FragmentIdView,
) -> Map<Seq<char>, FragmentIdView> {
    if catalog.contains_key(signature) {
        catalog
    } else {
        catalog.insert(signature, id)
    }
}

/// Whether a statement with this verb creates or replaces an object.
pub open spec fn is_creation(verb: Seq<char>) -> bool {
    verb == "CREATE"@ || verb == "CREATE OR REPLACE"@
}

/// Whether a statement with this verb changes an object.
pub open spec fn is_change(verb: Seq<char>) -> bool {
    verb == "ALTER"@ || verb == "DROP"@ || verb == "CREATE OR REPLACE"@
}

/// `catalog` with what the statements of a fragment create.
pub open spec fn with_creations(
    catalog: Map<Seq<char>, FragmentIdView>,
    id: FragmentIdView,
    stmts: Seq<StatementView>,
) -> Map<Seq<char>, FragmentIdView>
    decreases stmts.len(),
{
    if stmts.len() == 0 {
        catalog
    } else {
        let earlier = with_creations(catalog, id, stmts.drop_last());
        if is_creation(stmts.last().verb) {
            with_owner(earlier, stmts.last().signature, id)
        } else {
            earlier
        }
    }
}

/// The objects that fragments create, each with the first fragment that does.
pub open spec fn unreleased_objects(fs: Seq<FragmentView>) -> Map<Seq<char>, FragmentIdView>
    decreases fs.len(),
{
    if fs.len() == 0 {
        Map::empty()
    } else {
        with_creations(
            unreleased_objects(fs.drop_last()),
            fs.last().id,
            content_statements(fs.last().sql_content),
        )
    }
}

impl ObjectCatalog {
    /// A catalog without objects.
    pub fn new() -> (r: ObjectCatalog)
        ensures
            r@ == Map::<Seq<char>, FragmentIdView>::empty(),
    {
        ObjectCatalog { entries: Vec::new() }
    }

    /// The index of the first of `n` entries with this key.
    fn find(&self, signature: &str, n: usize) -> (r: Option<usize>)
        requires
            n <= self.entries@.len(),
        ensures
            match r {
                Some(i) => i < n && entries_map(self.entries@.take(n as int)).contains_key(
                    signature@,
                ) && entries_map(self.entries@.take(n as int))[signature@]
                    == self.entries@[i as int].1@,
                None => !entries_map(self.entries@.take(n as int)).contains_key(signature@),
            },
    {
        let mut i: usize = 0;
        while i < n
            invariant
                i <= n <= self.entries@.len(),
                !entries_map(self.entries@.take(i as int)).contains_key(signature@),
            decreases n - i,
        {
            proof {
                assert(self.entries@.take(i + 1).drop_last() =~= self.entries@.take(i as int));
            }
            if same_text(self.entries[i].0.as_str(), signature) {
                proof {
                    let some = self.entries@.take(n as int);
                    assert(some.take(i + 1) =~= self.entries@.take(i + 1));
                    lemma_entries_prefix(some, i + 1, signature@);
                }
                return Some(i);
            }
            i += 1;
        }
        None
    }

    /// The fragment that creates an object first.
    pub fn get(&self, signature: &str) -> (r: Option<&FragmentId>)
        ensures
            match r {
                Some(id) => self@.contains_key(signature@) && self@[signature@] == id@,
                None => !self@.contains_key(signature@),
            },
    {
        assert(self.entries@.take(self.entries@.len() as int) =~= self.entries@);
        match self.find(signature, self.entries.len()) {
            Some(i) => Some(&self.entries[i].1),
            None => None,
        }
    }

    /// The number of objects.
    pub fn len(&self) -> (r: usize)
        ensures
            self@.dom().finite(),
            r == self@.dom().len(),
    {
        let mut count: usize = 0;
        let mut i: usize = 0;
        assert(entries_map(self.entries@.take(0)).dom() =~= Set::empty());
        while i < self.entries.len()
            invariant
                count <= i <= self.entries@.len(),
                entries_map(self.entries@.take(i as int)).dom().finite(),
                count == entries_map(self.entries@.take(i as int)).dom().len(),
            decreases self.entries@.len() - i,
        {
            proof {
                let base = entries_map(self.entries@.take(i as int));
                let (key, id) = (self.entries@[i as int].0@, self.entries@[i as int].1@);
                assert(self.entries@.take(i + 1).drop_last() =~= self.entries@.take(i as int));
                assert(base.insert(key, id).dom() =~= base.dom().insert(key));
            }
            if self.find(self.entries[i].0.as_str(), i).is_none() {
                count += 1;
            }
            i += 1;
        }
        assert(self.entries@.take(i as int) =~= self.entries@);
        count
    }

    /// Gives an object an owner, unless it has one.
    pub fn add_owner(&mut self, signature: &str, id: &FragmentId)
        ensures
            final(self)@ == with_owner(old(self)@, signature@, id@),
    {
        let ghost before = self.entries@;
        self.entries.push((signature.to_owned(), id.duplicate()));
        assert(self.entries@.drop_last() =~= before);
    }
}

/// What the first entries determine stays as it is.
proof fn lemma_entries_prefix(entries: Seq<(String, FragmentId)>, k: int, signature: Seq<char>)
    requires
        0 <= k <= entries.len(),
        entries_map(entries.take(k)).contains_key(signature),
    ensures
        entries_map(entries).contains_key(signature),
        entries_map(entries)[signature] == entries_map(entries.take(k))[signature],
    decreases entries.len() - k,
{
    if k < entries.len() {
        assert(entries.take(k + 1).drop_last() =~= entries.take(k));
        lemma_entries_prefix(entries, k + 1, signature);
    } else {
        assert(entries.take(k) =~= entries);
    }
}

/// Tells whether a statement creates or replaces an object.
fn creates(stmt: &SqlStatement) -> (r: bool)
    ensures
        r == is_creation(stmt.verb@),
{
    let verb = stmt.verb.as_str();
    same_text(verb, "CREATE") || same_text(verb, "CREATE OR REPLACE")
}

/// Tells whether a statement changes an object.
fn changes(stmt: &SqlStatement) -> (r: bool)
    ensures
        r == is_change(stmt.verb@),
{
    let verb = stmt.verb.as_str();
    same_text(verb, "ALTER") || same_text(verb, "DROP") || same_text(verb, "CREATE OR REPLACE")
}

/// Adds what a fragment creates or replaces.
fn add_creations(catalog: &mut ObjectCatalog, fragment: &MigrationFragment)
    ensures
        final(catalog)@ == with_creations(
            old(catalog)@,
            fragment@.id,
            content_statements(fragment@.sql_content),
        ),
{
    let found = extract_statements_and_objects(fragment.sql_content.as_str());
    let ghost stmts = statement_views(found@);
    let ghost base = catalog@;
    let mut k: usize = 0;
    while k < found.len()
        invariant
            k <= found@.len(),
            stmts == statement_views(found@),
            catalog@ == with_creations(base, fragment@.id, stmts.take(k as int)),
        decreases found@.len() - k,
    {
        assert(stmts.take(k + 1).drop_last() =~= stmts.take(k as int));
        assert(stmts[k as int] == found@[k as int]@);
        if creates(&found[k]) {
            catalog.add_owner(found[k].signature.as_str(), &fragment.id);
        }
        k += 1;
    }
    assert(stmts.take(k as int) =~= stmts);
}

/// Lists the objects that fragments create or replace.
pub fn catalog_unreleased_objects(fragments: &[MigrationFragment]) -> (r: ObjectCatalog)
    ensures
        r@ == unreleased_objects(fragment_views(fragments@)),
{
    let ghost fs = fragment_views(fragments@);
    let mut catalog = ObjectCatalog::new();
    let mut i: usize = 0;
    while i < fragments.len()
        invariant
            i <= fragments@.len(),
            fs == fragment_views(fragments@),
            catalog@ == unreleased_objects(fs.take(i as int)),
        decreases fragments@.len() - i,
    {
        assert(fs[i as int] == fragments@[i as int]@);
        add_creations(&mut catalog, &fragments[i]);
        assert(fs.take(i + 1).drop_last() =~= fs.take(i as int));
        i += 1;
    }
    assert(fs.take(i as int) =~= fs);
    catalog
}

/// Lists the objects that the fragments at the given positions create or replace.
fn catalog_in_order(fragments: &Vec<MigrationFragment>, order: &Vec<usize>) -> (r: ObjectCatalog)
    requires
        forall|k: int| 0 <= k < order@.len() ==> (#[trigger] order@[k]) < fragments@.len(),
    ensures
        r@ == unreleased_objects(pick(fragment_views(fragments@), positions(order@))),
{
    let ghost fs = fragment_views(fragments@);
    let ghost sorted = pick(fs, positions(order@));
    let mut catalog = ObjectCatalog::new();
    let mut k: usize = 0;
    while k < order.len()
        invariant
            k <= order@.len(),
            fs == fragment_views(fragments@),
            sorted == pick(fs, positions(order@)),
            forall|j: int| 0 <= j < order@.len() ==> (#[trigger] order@[j]) < fragments@.len(),
            catalog@ == unreleased_objects(sorted.take(k as int)),
        decreases order@.len() - k,
    {
        let i = order[k];
        assert(sorted[k as int] == fragments@[i as int]@);
        add_creations(&mut catalog, &fragments[i]);
        assert(sorted.take(k + 1).drop_last() =~= sorted.take(k as int));
        k += 1;
    }
    assert(sorted.take(k as int) =~= sorted);
    catalog
}

// ---------------------------------------------------------------------------
// What a fragment touches
// ---------------------------------------------------------------------------

/// `ids`, which ascend, with `id` in its place, unless it is there.
pub open spec fn with_id(ids: Seq<FragmentIdView>, id: FragmentIdView) -> Seq<FragmentIdView>
    decreases ids.len(),
{
    if ids.len() == 0 {
        seq![id]
    } else if ids[0] == id {
        ids
    } else if id_less(id, ids[0]) {
        seq![id] + ids
    } else {
        seq![ids[0]] + with_id(ids.skip(1), id)
    }
}

/// The other fragments, in ascending order, whose objects the statements touch.
pub open spec fn touched_owners(
    catalog: Map<Seq<char>, FragmentIdView>,
    id: FragmentIdView,
    stmts: Seq<StatementView>,
) -> Seq<FragmentIdView>
    decreases stmts.len(),
{
    if stmts.len() == 0 {
        seq![]
    } else {
        let earlier = touched_owners(catalog, id, stmts.drop_last());
        let signature = stmts.last().signature;
        if catalog.contains_key(signature) && catalog[signature] != id {
            with_id(earlier, catalog[signature])
        } else {
            earlier
        }
    }
}

/// The released objects that the statements change.
pub open spec fn touched_released(
    catalog: Map<Seq<char>, FragmentIdView>,
    stmts: Seq<StatementView>,
) -> Seq<Seq<char>>
    decreases stmts.len(),
{
    if stmts.len() == 0 {
        seq![]
    } else {
        let earlier = touched_released(catalog, stmts.drop_last());
        if !catalog.contains_key(stmts.last().signature) && is_change(stmts.last().verb) {
            earlier.push(stmts.last().signature)
        } else {
            earlier
        }
    }
}

/// Whether a dependency stands for the fragment with this identifier.
pub open spec fn declares_id(dep: DependencyView, id: FragmentIdView) -> bool {
    match dep {
        DependencyView::Id(other) => other == id,
        DependencyView::Filename(name) => fragment_id(name) == id,
    }
}

/// Whether one of the dependencies stands for the fragment with this identifier.
pub open spec fn is_declared(deps: Seq<DependencyView>, id: FragmentIdView) -> bool {
    exists|i: int| 0 <= i < deps.len() && declares_id(#[trigger] deps[i], id)
}

/// The texts of identifiers.
pub open spec fn id_texts(ids: Seq<FragmentIdView>) -> Seq<Seq<char>> {
    Seq::new(ids.len(), |i: int| id_text(ids[i]))
}

/// The finding that a dependency is not declared.
pub open spec fn undeclared_issue(f: FragmentView, owner: FragmentIdView) -> IssueView {
    IssueView {
        file: f.path,
        filename: f.filename,
        rule: LintRule::UndeclaredDependency,
        message: "Fragment touches unreleased object(s) from fragment `"@ + id_text(owner)
            + "` but does not declare '-- depends-on: "@ + id_text(owner) + "'"@,
    }
}

/// The findings on the first `n` owners that are not declared.
pub open spec fn undeclared_issues(
    f: FragmentView,
    owners: Seq<FragmentIdView>,
    n: nat,
) -> Seq<IssueView>
    decreases n,
{
    if n == 0 {
        seq![]
    } else {
        let earlier = undeclared_issues(f, owners, (n - 1) as nat);
        if is_declared(f.dependencies, owners[n - 1]) {
            earlier
        } else {
            earlier.push(undeclared_issue(f, owners[n - 1]))
        }
    }
}

/// The finding that a fragment touches both released and unreleased objects.
pub open spec fn mixed_issue(
    f: FragmentView,
    released: Seq<Seq<char>>,
    owners: Seq<FragmentIdView>,
) -> IssueView {
    IssueView {
        file: f.path,
        filename: f.filename,
        rule: LintRule::MixedObjects,
        message: "Fragment mixes modifications to already-released objects ("@ + join(
            released,
            ", "@,
        ) + ") with unreleased objects from fragment(s) ["@ + join(id_texts(owners), ", "@) + "]"@,
    }
}

/// The findings on one fragment.
pub open spec fn fragment_issues(
    catalog: Map<Seq<char>, FragmentIdView>,
    f: FragmentView,
    deny_mixed: bool,
) -> Seq<IssueView> {
    let stmts = content_statements(f.sql_content);
    let owners = touched_owners(catalog, f.id, stmts);
    let released = touched_released(catalog, stmts);
    let undeclared = undeclared_issues(f, owners, owners.len());
    if deny_mixed && released.len() > 0 && owners.len() > 0 {
        undeclared.push(mixed_issue(f, released, owners))
    } else {
        undeclared
    }
}

/// Whether a fragment is checked: all are, or those among the changed files.
pub open spec fn is_targeted(f: FragmentView, changed: Option<Seq<Seq<char>>>) -> bool {
    match changed {
        Some(names) => names.contains(f.filename),
        None => true,
    }
}

/// The findings on the fragments that are checked.
pub open spec fn targeted_issues(
    catalog: Map<Seq<char>, FragmentIdView>,
    fs: Seq<FragmentView>,
    changed: Option<Seq<Seq<char>>>,
    deny_mixed: bool,
) -> Seq<IssueView>
    decreases fs.len(),
{
    if fs.len() == 0 {
        seq![]
    } else {
        let earlier = targeted_issues(catalog, fs.drop_last(), changed, deny_mixed);
        if is_targeted(fs.last(), changed) {
            earlier + fragment_issues(catalog, fs.last(), deny_mixed)
        } else {
            earlier
        }
    }
}

/// The finding that fragments wait for each other.
pub open spec fn cycle_issue(directory: Seq<char>, fs: Seq<FragmentView>) -> IssueView {
    IssueView {
        file: directory,
        filename: "unreleased"@,
        rule: LintRule::DagCycle,
        message: error_text(
            ErrorView::CircularDependency { filenames: stuck_names(fs, fs.len()) },
        ),
    }
}

/// The objects that fragments create, each with the one that is applied first of those
/// that do.
pub open spec fn applied_objects(fs: Seq<FragmentView>) -> Map<Seq<char>, FragmentIdView> {
    unreleased_objects(pick(fs, apply_order(fs)))
}

/// All findings: a circle alone, or what is found on the fragments that are checked.
pub open spec fn lint_issues(
    directory: Seq<char>,
    fs: Seq<FragmentView>,
    changed: Option<Seq<Seq<char>>>,
    deny_mixed: bool,
) -> Seq<IssueView> {
    if is_acyclic(fs) {
        targeted_issues(applied_objects(fs), fs, changed, deny_mixed)
    } else {
        seq![cycle_issue(directory, fs)]
    }
}

/// The contents of a vector of identifiers.
pub open spec fn id_views(v: Seq<FragmentId>) -> Seq<FragmentIdView> {
    Seq::new(v.len(), |i: int| v[i]@)
}

/// Puts an identifier in its place, unless it is there.
fn insert_id(ids: &mut Vec<FragmentId>, id: &FragmentId)
    ensures
        id_views(final(ids)@) == with_id(id_views(old(ids)@), id@),
{
    let ghost all = id_views(ids@);
    let mut i: usize = 0;
    assert(all.skip(0) =~= all);
    assert(all.take(0) + with_id(all, id@) =~= with_id(all, id@));
    while i < ids.len()
        invariant
            i <= ids@.len(),
            ids@ == old(ids)@,
            all == id_views(ids@),
            all.take(i as int) + with_id(all.skip(i as int), id@) == with_id(all, id@),
        decreases ids@.len() - i,
    {
        let ghost rest = all.skip(i as int);
        assert(rest[0] == ids@[i as int]@);
        if ids[i].same(id) {
            assert(all.take(i as int) + rest =~= all);
            return;
        }
        if id.precedes(&ids[i]) {
            ids.insert(i, id.duplicate());
            assert(id_views(ids@) =~= all.take(i as int) + (seq![id@] + rest));
            return;
        }
        proof {
            assert(rest.skip(1) =~= all.skip(i + 1));
            assert(all.take(i as int) + (seq![rest[0]] + with_id(rest.skip(1), id@)) =~= all.take(
                i + 1,
            ) + with_id(all.skip(i + 1), id@));
        }
        i += 1;
    }
    ids.push(id.duplicate());
    assert(all.skip(i as int) =~= seq![]);
    assert(id_views(ids@) =~= all.take(i as int) + seq![id@]);
}

/// Tells whether a dependency stands for the fragment with this identifier.
fn declares(deps: &Vec<FragmentDependency>, id: &FragmentId) -> (r: bool)
    ensures
        r == is_declared(dependency_views(deps@), id@),
{
    let ghost views = dependency_views(deps@);
    let mut i: usize = 0;
    while i < deps.len()
        invariant
            i <= deps@.len(),
            views == dependency_views(deps@),
            forall|j: int| 0 <= j < i ==> !declares_id(#[trigger] views[j], id@),
        decreases deps@.len() - i,
    {
        assert(views[i as int] == deps@[i as int]@);
        let declared = match &deps[i] {
            FragmentDependency::Id(other) => other.same(id),
            FragmentDependency::Filename(name) => parse_fragment_id(name.as_str()).same(id),
        };
        if declared {
            return true;
        }
        i += 1;
    }
    false
}

/// Finds what the statements of a fragment touch: other fragments' objects, and
/// released ones.
fn touched_objects(catalog: &ObjectCatalog, id: &FragmentId, found: &Vec<SqlStatement>) -> (r: (
    Vec<FragmentId>,
    Vec<String>,
))
    ensures
        id_views(r.0@) == touched_owners(catalog@, id@, statement_views(found@)),
        texts(r.1@) == touched_released(catalog@, statement_views(found@)),
{
    let ghost stmts = statement_views(found@);
    let mut owners: Vec<FragmentId> = Vec::new();
    let mut released: Vec<String> = Vec::new();
    let mut k: usize = 0;
    assert(id_views(owners@) =~= seq![]);
    assert(texts(released@) =~= seq![]);
    while k < found.len()
        invariant
            k <= found@.len(),
            stmts == statement_views(found@),
            id_views(owners@) == touched_owners(catalog@, id@, stmts.take(k as int)),
            texts(released@) == touched_released(catalog@, stmts.take(k as int)),
        decreases found@.len() - k,
    {
        assert(stmts.take(k + 1).drop_last() =~= stmts.take(k as int));
        assert(stmts[k as int] == found@[k as int]@);
        match catalog.get(found[k].signature.as_str()) {
            Some(owner) => {
                if !owner.same(id) {
                    insert_id(&mut owners, owner);
                }
            },
            None => {
                if changes(&found[k]) {
                    let ghost earlier = released@;
                    released.push(found[k].signature.clone());
                    assert(texts(released@) =~= texts(earlier).push(stmts[k as int].signature));
                }
            },
        }
        k += 1;
    }
    assert(stmts.take(k as int) =~= stmts);
    (owners, released)
}

/// Writes the finding that a dependency is not declared.
fn report_undeclared(fragment: &MigrationFragment, owner: &FragmentId) -> (r: DiagnosticIssue)
    ensures
        r@ == undeclared_issue(fragment@, owner@),
{
    let name = owner.to_string();
    let mut message = "Fragment touches unreleased object(s) from fragment `".to_owned();
    message.append(name.as_str());
    message.append("` but does not declare '-- depends-on: ");
    message.append(name.as_str());
    message.append("'");
    DiagnosticIssue {
        file: fragment.path.clone(),
        filename: fragment.filename.clone(),
        rule: LintRule::UndeclaredDependency,
        message,
    }
}

/// Writes the finding that a fragment touches both released and unreleased objects.
fn report_mixed(
    fragment: &MigrationFragment,
    released: &Vec<String>,
    owners: &Vec<FragmentId>,
) -> (r: DiagnosticIssue)
    ensures
        r@ == mixed_issue(fragment@, texts(released@), id_views(owners@)),
{
    let mut names: Vec<String> = Vec::new();
    let mut i: usize = 0;
    while i < owners.len()
        invariant
            i <= owners@.len(),
            texts(names@) == id_texts(id_views(owners@)).take(i as int),
        decreases owners@.len() - i,
    {
        let name = owners[i].to_string();
        let ghost earlier = names@;
        names.push(name);
        assert(texts(names@) =~= texts(earlier).push(name@));
        i += 1;
        assert(id_texts(id_views(owners@)).take(i as int) =~= id_texts(id_views(owners@)).take(
            i - 1,
        ).push(id_texts(id_views(owners@))[i - 1]));
    }
    assert(id_texts(id_views(owners@)).take(i as int) =~= id_texts(id_views(owners@)));
    let mut message = "Fragment mixes modifications to already-released objects (".to_owned();
    message.append(join_texts(released, ", ").as_str());
    message.append(") with unreleased objects from fragment(s) [");
    message.append(join_texts(&names, ", ").as_str());
    message.append("]");
    DiagnosticIssue {
        file: fragment.path.clone(),
        filename: fragment.filename.clone(),
        rule: LintRule::MixedObjects,
        message,
    }
}

/// Adds the findings on one fragment.
fn check_fragment(
    catalog: &ObjectCatalog,
    fragment: &MigrationFragment,
    deny_mixed: bool,
    issues: &mut Vec<DiagnosticIssue>,
)
    ensures
        issue_views(final(issues)@) == issue_views(old(issues)@) + fragment_issues(
            catalog@,
            fragment@,
            deny_mixed,
        ),
{
    let ghost f = fragment@;
    let ghost base = issue_views(issues@);
    let found = extract_statements_and_objects(fragment.sql_content.as_str());
    let (owners, released) = touched_objects(catalog, &fragment.id, &found);
    let ghost ids = id_views(owners@);
    let mut i: usize = 0;
    assert(base + undeclared_issues(f, ids, 0) =~= base);
    while i < owners.len()
        invariant
            i <= owners@.len(),
            f == fragment@,
            ids == id_views(owners@),
            issue_views(issues@) == base + undeclared_issues(f, ids, i as nat),
        decreases owners@.len() - i,
    {
        if !declares(&fragment.dependencies, &owners[i]) {
            let issue = report_undeclared(fragment, &owners[i]);
            let ghost earlier = issues@;
            issues.push(issue);
            assert(issue_views(issues@) =~= issue_views(earlier).push(issue@));
            assert(issue_views(issues@) =~= base + undeclared_issues(f, ids, (i + 1) as nat));
        }
        i += 1;
    }
    assert(texts(released@).len() == released@.len());
    assert(ids.len() == owners@.len());
    if deny_mixed && released.len() > 0 && owners.len() > 0 {
        let issue = report_mixed(fragment, &released, &owners);
        let ghost earlier = issues@;
        issues.push(issue);
        assert(issue_views(issues@) =~= issue_views(earlier).push(issue@));
        assert(issue_views(issues@) =~= base + fragment_issues(catalog@, f, deny_mixed));
    }
}

/// Tells whether a name is in a list.
fn lists_name(names: &Vec<String>, name: &str) -> (r: bool)
    ensures
        r == texts(names@).contains(name@),
{
    let mut i: usize = 0;
    while i < names.len()
        invariant
            i <= names@.len(),
            forall|j: int| 0 <= j < i ==> texts(names@)[j] != name@,
        decreases names@.len() - i,
    {
        if same_text(names[i].as_str(), name) {
            assert(texts(names@)[i as int] == name@);
            return true;
        }
        i += 1;
    }
    false
}

/// The changed files that a check is limited to, if it is.
pub open spec fn scope(config: LintConfig, changed: Seq<Seq<char>>) -> Option<Seq<Seq<char>>> {
    if config.base_ref is Some {
        Some(changed)
    } else {
        None
    }
}

/// Tells whether a check needs to know which files changed: it is limited to them, and
/// no fragments wait for each other.
pub fn needs_changed_files(fragments: &Vec<MigrationFragment>, config: &LintConfig) -> (r: bool)
    ensures
        r == (config.base_ref is Some && is_acyclic(fragment_views(fragments@))),
{
    config.base_ref.is_some() && sort_positions(fragments).is_ok()
}

/// Checks the fragments in a directory. The changed files count where the check is
/// limited to them.
pub fn run_lint_checks(
    directory: &str,
    fragments: &Vec<MigrationFragment>,
    changed_filenames: &Vec<String>,
    config: &LintConfig,
) -> (r: Vec<DiagnosticIssue>)
    ensures
        issue_views(r@) == lint_issues(
            directory@,
            fragment_views(fragments@),
            scope(*config, texts(changed_filenames@)),
            config.deny_mixed_objects,
        ),
{
    let ghost fs = fragment_views(fragments@);
    let ghost changed = scope(*config, texts(changed_filenames@));
    let deny_mixed = config.deny_mixed_objects;
    let mut issues: Vec<DiagnosticIssue> = Vec::new();
    let order = match sort_positions(fragments) {
        Ok(order) => order,
        Err(e) => {
            let issue = DiagnosticIssue {
                file: directory.to_owned(),
                filename: "unreleased".to_owned(),
                rule: LintRule::DagCycle,
                message: e.message(),
            };
            issues.push(issue);
            assert(issue_views(issues@) =~= seq![cycle_issue(directory@, fs)]);
            return issues;
        },
    };
    proof {
        lemma_apply_order(fs);
        assert forall|k: int| 0 <= k < order@.len() implies (#[trigger] order@[k])
            < fragments@.len() by {
            assert(positions(order@)[k] == order@[k]);
        }
    }
    let catalog = catalog_in_order(fragments, &order);
    let mut i: usize = 0;
    assert(issue_views(issues@) =~= seq![]);
    while i < fragments.len()
        invariant
            i <= fragments@.len(),
            fs == fragment_views(fragments@),
            changed == scope(*config, texts(changed_filenames@)),
            catalog@ == applied_objects(fs),
            issue_views(issues@) == targeted_issues(catalog@, fs.take(i as int), changed, deny_mixed),
        decreases fragments@.len() - i,
    {
        proof {
            assert(fs[i as int] == fragments@[i as int]@);
            assert(fs.take(i + 1).drop_last() =~= fs.take(i as int));
        }
        if config.base_ref.is_none() || lists_name(
            changed_filenames,
            fragments[i].filename.as_str(),
        ) {
            check_fragment(&catalog, &fragments[i], deny_mixed, &mut issues);
        }
        i += 1;
    }
    assert(fs.take(i as int) =~= fs);
    issues
}

// ---------------------------------------------------------------------------
// Laws
// ---------------------------------------------------------------------------

/// Whether a fragment creates or replaces an object.
pub open spec fn creates_object(f: FragmentView, signature: Seq<char>) -> bool {
    exists|k: int|
        0 <= k < content_statements(f.sql_content).len() && is_creation(
            (#[trigger] content_statements(f.sql_content)[k]).verb,
        ) && content_statements(f.sql_content)[k].signature == signature
}

proof fn lemma_with_creations(
    catalog: Map<Seq<char>, FragmentIdView>,
    id: FragmentIdView,
    stmts: Seq<StatementView>,
    signature: Seq<char>,
)
    ensures
        ({
            let more = with_creations(catalog, id, stmts);
            let created = exists|k: int|
                0 <= k < stmts.len() && is_creation((#[trigger] stmts[k]).verb)
                    && stmts[k].signature == signature;
            &&& more.contains_key(signature) <==> catalog.contains_key(signature) || created
            &&& catalog.contains_key(signature) ==> more[signature] == catalog[signature]
            &&& !catalog.contains_key(signature) && created ==> more[signature] == id
        }),
    decreases stmts.len(),
{
    if stmts.len() > 0 {
        let head = stmts.drop_last();
        lemma_with_creations(catalog, id, head, signature);
        assert forall|k: int| 0 <= k < head.len() implies #[trigger] stmts[k] == head[k] by {}
        let created = exists|k: int|
            0 <= k < stmts.len() && is_creation((#[trigger] stmts[k]).verb) && stmts[k].signature
                == signature;
        let before = exists|k: int|
            0 <= k < head.len() && is_creation((#[trigger] head[k]).verb) && head[k].signature
                == signature;
        let last = is_creation(stmts.last().verb) && stmts.last().signature == signature;
        if before {
            let k = choose|k: int|
                0 <= k < head.len() && is_creation((#[trigger] head[k]).verb) && head[k].signature
                    == signature;
            assert(stmts[k] == head[k]);
        }
        if last {
            assert(stmts[stmts.len() - 1] == stmts.last());
        }
        if created && !last {
            let k = choose|k: int|
                0 <= k < stmts.len() && is_creation((#[trigger] stmts[k]).verb)
                    && stmts[k].signature == signature;
            assert(head[k] == stmts[k]);
        }
        assert(created <==> before || last);
    }
}

/// An object counts as unreleased exactly where a fragment creates or replaces it, and
/// belongs to the first one that does.
pub proof fn law_first_creator_owns(fs: Seq<FragmentView>, signature: Seq<char>)
    ensures
        unreleased_objects(fs).contains_key(signature) <==> exists|i: int|
            0 <= i < fs.len() && creates_object(#[trigger] fs[i], signature),
        forall|i: int|
            0 <= i < fs.len() && creates_object(#[trigger] fs[i], signature) && (forall|j: int|
                0 <= j < i ==> !creates_object(#[trigger] fs[j], signature))
                ==> unreleased_objects(fs)[signature] == fs[i].id,
    decreases fs.len(),
{
    if fs.len() > 0 {
        let head = fs.drop_last();
        let f = fs.last();
        law_first_creator_owns(head, signature);
        lemma_with_creations(
            unreleased_objects(head),
            f.id,
            content_statements(f.sql_content),
            signature,
        );
        assert forall|i: int| 0 <= i < head.len() implies #[trigger] fs[i] == head[i] by {}
        if unreleased_objects(head).contains_key(signature) {
            let i = choose|i: int| 0 <= i < head.len() && creates_object(#[trigger] head[i], signature);
            assert(fs[i] == head[i]);
        }
        if creates_object(f, signature) {
            assert(fs[fs.len() - 1] == f);
        }
        if exists|i: int| 0 <= i < fs.len() && creates_object(#[trigger] fs[i], signature) {
            let i = choose|i: int| 0 <= i < fs.len() && creates_object(#[trigger] fs[i], signature);
            if i < head.len() {
                assert(head[i] == fs[i]);
            }
        }
        assert forall|i: int|
            0 <= i < fs.len() && creates_object(#[trigger] fs[i], signature) && (forall|j: int|
                0 <= j < i ==> !creates_object(
                    #[trigger] fs[j],
                    signature,
                )) implies unreleased_objects(fs)[signature] == fs[i].id by {
            if i < head.len() {
                assert(head[i] == fs[i]);
                assert forall|j: int| 0 <= j < i implies !creates_object(
                    #[trigger] head[j],
                    signature,
                ) by {
                    assert(fs[j] == head[j]);
                }
                assert(unreleased_objects(head).contains_key(signature));
            } else {
                assert forall|j: int| 0 <= j < head.len() implies !creates_object(
                    #[trigger] head[j],
                    signature,
                ) by {
                    assert(fs[j] == head[j]);
                }
            }
        }
    }
}

/// Statements that alter or drop an object make none.
pub proof fn law_altering_creates_nothing(verb: Seq<char>)
    requires
        is_verb(verb),
    ensures
        is_creation(verb) <==> verb != "ALTER"@ && verb != "DROP"@,
{
    reveal_strlit("CREATE");
    reveal_strlit("CREATE OR REPLACE");
    reveal_strlit("ALTER");
    reveal_strlit("DROP");
    assert("ALTER"@[0] == 'A' && "DROP"@[0] == 'D' && "CREATE"@[0] == 'C');
    assert("CREATE OR REPLACE"@[0] == 'C');
}

/// Fragments that come later do not change whom an object belongs to.
pub proof fn law_later_fragments_keep_owners(
    fs: Seq<FragmentView>,
    later: Seq<FragmentView>,
    signature: Seq<char>,
)
    requires
        unreleased_objects(fs).contains_key(signature),
    ensures
        unreleased_objects(fs + later).contains_key(signature),
        unreleased_objects(fs + later)[signature] == unreleased_objects(fs)[signature],
    decreases later.len(),
{
    let all = fs + later;
    if later.len() == 0 {
        assert(all =~= fs);
    } else {
        law_later_fragments_keep_owners(fs, later.drop_last(), signature);
        assert(all.drop_last() =~= fs + later.drop_last());
        lemma_with_creations(
            unreleased_objects(all.drop_last()),
            all.last().id,
            content_statements(all.last().sql_content),
            signature,
        );
    }
}

/// Whether one of the statements touches an object of the fragment `owner`.
pub open spec fn touches(
    catalog: Map<Seq<char>, FragmentIdView>,
    stmts: Seq<StatementView>,
    owner: FragmentIdView,
) -> bool {
    exists|k: int|
        0 <= k < stmts.len() && catalog.contains_key((#[trigger] stmts[k]).signature)
            && catalog[stmts[k].signature] == owner
}

/// Whether a fragment declares every other fragment whose objects it touches.
pub open spec fn declares_all_touched(
    catalog: Map<Seq<char>, FragmentIdView>,
    f: FragmentView,
) -> bool {
    forall|owner: FragmentIdView| #[trigger]
        touches(catalog, content_statements(f.sql_content), owner) && owner != f.id ==> is_declared(
            f.dependencies,
            owner,
        )
}

/// Whether identifiers ascend.
pub open spec fn ids_ascend(ids: Seq<FragmentIdView>) -> bool {
    forall|i: int, j: int| 0 <= i < j < ids.len() ==> id_less(#[trigger] ids[i], #[trigger] ids[j])
}

proof fn lemma_with_id(ids: Seq<FragmentIdView>, id: FragmentIdView)
    requires
        ids_ascend(ids),
    ensures
        ids_ascend(with_id(ids, id)),
        forall|x: FragmentIdView| #[trigger]
            with_id(ids, id).contains(x) <==> ids.contains(x) || x == id,
    decreases ids.len(),
{
    let more = with_id(ids, id);
    if ids.len() == 0 {
        assert(more[0] == id);
    } else if ids[0] == id {
        assert(ids.contains(id));
    } else if id_less(id, ids[0]) {
        assert forall|i: int, j: int| 0 <= i < j < more.len() implies id_less(
            #[trigger] more[i],
            #[trigger] more[j],
        ) by {
            assert(more[j] == ids[j - 1]);
            if i > 0 {
                assert(more[i] == ids[i - 1]);
            } else if j > 1 {
                assert(id_less(ids[0], ids[j - 1]));
                lemma_id_less_transitive(id, ids[0], ids[j - 1]);
            }
        }
        assert forall|x: FragmentIdView| #[trigger] more.contains(x) <==> ids.contains(x) || x
            == id by {
            if x == id {
                assert(more[0] == x);
            }
            if ids.contains(x) {
                assert(more[ids.index_of(x) + 1] == x);
            }
            if more.contains(x) && x != id {
                assert(ids[more.index_of(x) - 1] == x);
            }
        }
    } else {
        let rest = ids.skip(1);
        let tail = with_id(rest, id);
        assert forall|i: int, j: int| 0 <= i < j < rest.len() implies id_less(
            #[trigger] rest[i],
            #[trigger] rest[j],
        ) by {
            assert(rest[i] == ids[i + 1] && rest[j] == ids[j + 1]);
        }
        lemma_with_id(rest, id);
        lemma_id_less_total(id, ids[0]);
        assert forall|x: FragmentIdView| #[trigger] rest.contains(x) implies ids.contains(x)
            && id_less(ids[0], x) by {
            let k = rest.index_of(x);
            assert(ids[k + 1] == x);
        }
        assert forall|i: int, j: int| 0 <= i < j < more.len() implies id_less(
            #[trigger] more[i],
            #[trigger] more[j],
        ) by {
            assert(more[j] == tail[j - 1]);
            if i > 0 {
                assert(more[i] == tail[i - 1]);
            } else {
                assert(tail.contains(tail[j - 1]));
            }
        }
        assert forall|x: FragmentIdView| #[trigger] more.contains(x) <==> ids.contains(x) || x
            == id by {
            if ids.contains(x) {
                let k = ids.index_of(x);
                if k == 0 {
                    assert(more[0] == x);
                } else {
                    assert(rest[k - 1] == x);
                    assert(tail.contains(x));
                    assert(more[tail.index_of(x) + 1] == x);
                }
            }
            if x == id {
                assert(tail.contains(x));
                assert(more[tail.index_of(x) + 1] == x);
            }
            if more.contains(x) {
                let k = more.index_of(x);
                if k > 0 {
                    assert(tail[k - 1] == x);
                    assert(tail.contains(x));
                }
            }
        }
    }
}

/// The owners whose objects a fragment touches ascend, and are the other fragments whose
/// objects one of its statements touches.
pub proof fn law_touched_owners(
    catalog: Map<Seq<char>, FragmentIdView>,
    id: FragmentIdView,
    stmts: Seq<StatementView>,
)
    ensures
        ids_ascend(touched_owners(catalog, id, stmts)),
        forall|owner: FragmentIdView| #[trigger]
            touched_owners(catalog, id, stmts).contains(owner) <==> owner != id && touches(
                catalog,
                stmts,
                owner,
            ),
    decreases stmts.len(),
{
    if stmts.len() > 0 {
        let head = stmts.drop_last();
        law_touched_owners(catalog, id, head);
        let earlier = touched_owners(catalog, id, head);
        let signature = stmts.last().signature;
        let hit = catalog.contains_key(signature) && catalog[signature] != id;
        if hit {
            lemma_with_id(earlier, catalog[signature]);
        }
        assert forall|owner: FragmentIdView| owner != id implies (#[trigger] touches(
            catalog,
            stmts,
            owner,
        ) <==> touches(catalog, head, owner) || hit && catalog[signature] == owner) by {
            if touches(catalog, head, owner) {
                let k = choose|k: int|
                    0 <= k < head.len() && catalog.contains_key((#[trigger] head[k]).signature)
                        && catalog[head[k].signature] == owner;
                assert(stmts[k] == head[k]);
            }
            if hit && catalog[signature] == owner {
                assert(stmts[stmts.len() - 1] == stmts.last());
            }
            if touches(catalog, stmts, owner) {
                let k = choose|k: int|
                    0 <= k < stmts.len() && catalog.contains_key((#[trigger] stmts[k]).signature)
                        && catalog[stmts[k].signature] == owner;
                if k < head.len() {
                    assert(head[k] == stmts[k]);
                }
            }
        }
        assert forall|owner: FragmentIdView| #[trigger]
            touched_owners(catalog, id, stmts).contains(owner) <==> owner != id && touches(
                catalog,
                stmts,
                owner,
            ) by {
            assert(earlier.contains(owner) <==> owner != id && touches(catalog, head, owner));
        }
    }
}

/// Whether one of the statements changes a released object.
pub open spec fn changes_released(
    catalog: Map<Seq<char>, FragmentIdView>,
    stmts: Seq<StatementView>,
) -> bool {
    exists|k: int|
        0 <= k < stmts.len() && !catalog.contains_key((#[trigger] stmts[k]).signature)
            && is_change(stmts[k].verb)
}

proof fn lemma_touched_released(
    catalog: Map<Seq<char>, FragmentIdView>,
    stmts: Seq<StatementView>,
)
    ensures
        touched_released(catalog, stmts).len() > 0 <==> changes_released(catalog, stmts),
    decreases stmts.len(),
{
    if stmts.len() > 0 {
        let head = stmts.drop_last();
        lemma_touched_released(catalog, head);
        if changes_released(catalog, head) {
            let k = choose|k: int|
                0 <= k < head.len() && !catalog.contains_key((#[trigger] head[k]).signature)
                    && is_change(head[k].verb);
            assert(stmts[k] == head[k]);
        }
        if changes_released(catalog, stmts) {
            let k = choose|k: int|
                0 <= k < stmts.len() && !catalog.contains_key((#[trigger] stmts[k]).signature)
                    && is_change(stmts[k].verb);
            if k < head.len() {
                assert(head[k] == stmts[k]);
            }
        }
        assert(stmts[stmts.len() - 1] == stmts.last());
    }
}

proof fn lemma_undeclared_issues(f: FragmentView, owners: Seq<FragmentIdView>, n: nat)
    requires
        n <= owners.len(),
    ensures
        forall|i: int|
            0 <= i < n && !is_declared(f.dependencies, #[trigger] owners[i]) ==> undeclared_issues(
                f,
                owners,
                n,
            ).contains(undeclared_issue(f, owners[i])),
        forall|x: IssueView| #[trigger]
            undeclared_issues(f, owners, n).contains(x) ==> exists|i: int|
                0 <= i < n && !is_declared(f.dependencies, #[trigger] owners[i]) && x
                    == undeclared_issue(f, owners[i]),
    decreases n,
{
    if n > 0 {
        let m = (n - 1) as nat;
        lemma_undeclared_issues(f, owners, m);
        let earlier = undeclared_issues(f, owners, m);
        let all = undeclared_issues(f, owners, n);
        assert forall|i: int|
            0 <= i < n && !is_declared(f.dependencies, #[trigger] owners[i]) implies all.contains(
            undeclared_issue(f, owners[i]),
        ) by {
            if i < m {
                let k = earlier.index_of(undeclared_issue(f, owners[i]));
                assert(earlier.contains(undeclared_issue(f, owners[i])));
                assert(all[k] == earlier[k]);
            } else {
                assert(all[earlier.len() as int] == undeclared_issue(f, owners[i]));
            }
        }
        assert forall|x: IssueView| #[trigger] all.contains(x) implies exists|i: int|
            0 <= i < n && !is_declared(f.dependencies, #[trigger] owners[i]) && x
                == undeclared_issue(f, owners[i]) by {
            let k = all.index_of(x);
            if k < earlier.len() {
                assert(earlier[k] == x);
                assert(earlier.contains(x));
            } else {
                assert(x == undeclared_issue(f, owners[n - 1]));
            }
        }
    }
}

/// A fragment that touches an object of another fragment and does not declare it is
/// reported.
pub proof fn law_undeclared_dependency_is_reported(
    catalog: Map<Seq<char>, FragmentIdView>,
    f: FragmentView,
    deny_mixed: bool,
    owner: FragmentIdView,
)
    requires
        touches(catalog, content_statements(f.sql_content), owner),
        owner != f.id,
        !is_declared(f.dependencies, owner),
    ensures
        fragment_issues(catalog, f, deny_mixed).contains(undeclared_issue(f, owner)),
{
    let stmts = content_statements(f.sql_content);
    let owners = touched_owners(catalog, f.id, stmts);
    law_touched_owners(catalog, f.id, stmts);
    assert(owners.contains(owner));
    let i = owners.index_of(owner);
    lemma_undeclared_issues(f, owners, owners.len());
    let undeclared = undeclared_issues(f, owners, owners.len());
    assert(undeclared.contains(undeclared_issue(f, owners[i])));
    let k = undeclared.index_of(undeclared_issue(f, owner));
    assert(fragment_issues(catalog, f, deny_mixed)[k] == undeclared[k]);
}

/// What is reported of a fragment: an owner whose object it touches and that it does not
/// declare, or that it touches both released and other fragments' objects, which is
/// reported only where that is denied.
pub proof fn law_reported_issues(
    catalog: Map<Seq<char>, FragmentIdView>,
    f: FragmentView,
    deny_mixed: bool,
    x: IssueView,
)
    requires
        fragment_issues(catalog, f, deny_mixed).contains(x),
    ensures
        x.filename == f.filename,
        x.file == f.path,
        x.rule is UndeclaredDependency || x.rule is MixedObjects,
        x.rule is UndeclaredDependency ==> exists|owner: FragmentIdView| #[trigger]
            touches(catalog, content_statements(f.sql_content), owner) && owner != f.id
                && !is_declared(f.dependencies, owner) && x == undeclared_issue(f, owner),
        x.rule is MixedObjects ==> deny_mixed && changes_released(
            catalog,
            content_statements(f.sql_content),
        ) && exists|owner: FragmentIdView| #[trigger]
            touches(catalog, content_statements(f.sql_content), owner) && owner != f.id,
{
    let stmts = content_statements(f.sql_content);
    let owners = touched_owners(catalog, f.id, stmts);
    let undeclared = undeclared_issues(f, owners, owners.len());
    let all = fragment_issues(catalog, f, deny_mixed);
    law_touched_owners(catalog, f.id, stmts);
    lemma_touched_released(catalog, stmts);
    lemma_undeclared_issues(f, owners, owners.len());
    let k = all.index_of(x);
    if k < undeclared.len() {
        assert(undeclared[k] == x);
        assert(undeclared.contains(x));
        let i = choose|i: int|
            0 <= i < owners.len() && !is_declared(f.dependencies, #[trigger] owners[i]) && x
                == undeclared_issue(f, owners[i]);
        assert(owners.contains(owners[i]));
        assert(touches(catalog, stmts, owners[i]));
    } else {
        assert(owners.contains(owners[0]));
        assert(touches(catalog, stmts, owners[0]));
    }
}

/// A fragment that touches both released and other fragments' objects is reported where
/// that is denied.
pub proof fn law_mixed_objects_are_reported(
    catalog: Map<Seq<char>, FragmentIdView>,
    f: FragmentView,
    owner: FragmentIdView,
)
    requires
        changes_released(catalog, content_statements(f.sql_content)),
        touches(catalog, content_statements(f.sql_content), owner),
        owner != f.id,
    ensures
        exists|i: int|
            0 <= i < fragment_issues(catalog, f, true).len() && (#[trigger] fragment_issues(
                catalog,
                f,
                true,
            )[i]).rule is MixedObjects,
{
    let stmts = content_statements(f.sql_content);
    let owners = touched_owners(catalog, f.id, stmts);
    law_touched_owners(catalog, f.id, stmts);
    lemma_touched_released(catalog, stmts);
    assert(owners.contains(owner));
    let all = fragment_issues(catalog, f, true);
    assert(all[all.len() - 1].rule is MixedObjects);
}

/// Nothing is reported of a fragment that declares every other fragment whose objects it
/// touches, unless mixed objects are denied.
pub proof fn law_declared_dependencies_pass(
    catalog: Map<Seq<char>, FragmentIdView>,
    f: FragmentView,
)
    requires
        declares_all_touched(catalog, f),
    ensures
        fragment_issues(catalog, f, false).len() == 0,
{
    let all = fragment_issues(catalog, f, false);
    if all.len() > 0 {
        assert(all.contains(all[0]));
        law_reported_issues(catalog, f, false, all[0]);
    }
}

/// A circle of fragments is reported, and nothing else then; without one no circle is
/// reported.
pub proof fn law_circles_are_reported(
    directory: Seq<char>,
    fs: Seq<FragmentView>,
    changed: Option<Seq<Seq<char>>>,
    deny_mixed: bool,
)
    ensures
        !is_acyclic(fs) ==> lint_issues(directory, fs, changed, deny_mixed) == seq![
            cycle_issue(directory, fs),
        ],
        is_acyclic(fs) ==> forall|i: int|
            0 <= i < lint_issues(directory, fs, changed, deny_mixed).len() ==> !((
            #[trigger] lint_issues(directory, fs, changed, deny_mixed)[i]).rule is DagCycle),
{
    if is_acyclic(fs) {
        let all = lint_issues(directory, fs, changed, deny_mixed);
        assert forall|i: int| 0 <= i < all.len() implies !((#[trigger] all[i]).rule is DagCycle) by {
            lemma_targeted_issues(applied_objects(fs), fs, changed, deny_mixed, i);
        }
    }
}

/// Every finding belongs to a fragment that is checked.
proof fn lemma_targeted_issues(
    catalog: Map<Seq<char>, FragmentIdView>,
    fs: Seq<FragmentView>,
    changed: Option<Seq<Seq<char>>>,
    deny_mixed: bool,
    i: int,
)
    requires
        0 <= i < targeted_issues(catalog, fs, changed, deny_mixed).len(),
    ensures
        !(targeted_issues(catalog, fs, changed, deny_mixed)[i].rule is DagCycle),
        exists|k: int|
            0 <= k < fs.len() && is_targeted(#[trigger] fs[k], changed) && fragment_issues(
                catalog,
                fs[k],
                deny_mixed,
            ).contains(targeted_issues(catalog, fs, changed, deny_mixed)[i]),
    decreases fs.len(),
{
    let head = fs.drop_last();
    let earlier = targeted_issues(catalog, head, changed, deny_mixed);
    let all = targeted_issues(catalog, fs, changed, deny_mixed);
    if i < earlier.len() {
        lemma_targeted_issues(catalog, head, changed, deny_mixed, i);
        assert(all[i] == earlier[i]);
        let k = choose|k: int|
            0 <= k < head.len() && is_targeted(#[trigger] head[k], changed) && fragment_issues(
                catalog,
                head[k],
                deny_mixed,
            ).contains(earlier[i]);
        assert(fs[k] == head[k]);
    } else {
        let own = fragment_issues(catalog, fs.last(), deny_mixed);
        assert(all[i] == own[i - earlier.len()]);
        assert(own.contains(all[i]));
        law_reported_issues(catalog, fs.last(), deny_mixed, all[i]);
        assert(fs[fs.len() - 1] == fs.last());
    }
}

/// A check that is limited to changed files reports findings on those files only.
pub proof fn law_scope_limits_findings(
    directory: Seq<char>,
    fs: Seq<FragmentView>,
    names: Seq<Seq<char>>,
    deny_mixed: bool,
    i: int,
)
    requires
        is_acyclic(fs),
        0 <= i < lint_issues(directory, fs, Some(names), deny_mixed).len(),
    ensures
        names.contains(lint_issues(directory, fs, Some(names), deny_mixed)[i].filename),
{
    let x = lint_issues(directory, fs, Some(names), deny_mixed)[i];
    lemma_targeted_issues(applied_objects(fs), fs, Some(names), deny_mixed, i);
    let k = choose|k: int|
        0 <= k < fs.len() && is_targeted(#[trigger] fs[k], Some(names)) && fragment_issues(
            applied_objects(fs),
            fs[k],
            deny_mixed,
        ).contains(x);
    law_reported_issues(applied_objects(fs), fs[k], deny_mixed, x);
}

/// What is found on a fragment that is checked is among the findings.
pub proof fn law_checked_fragments_are_reported(
    directory: Seq<char>,
    fs: Seq<FragmentView>,
    changed: Option<Seq<Seq<char>>>,
    deny_mixed: bool,
    k: int,
    x: IssueView,
)
    requires
        is_acyclic(fs),
        0 <= k < fs.len(),
        is_targeted(fs[k], changed),
        fragment_issues(applied_objects(fs), fs[k], deny_mixed).contains(x),
    ensures
        lint_issues(directory, fs, changed, deny_mixed).contains(x),
{
    lemma_targeted_contains(applied_objects(fs), fs, changed, deny_mixed, k, x);
}

/// A fragment that is checked, touches an object that another fragment is the first to
/// create, and does not declare that fragment, does not pass.
pub proof fn law_undeclared_use_does_not_pass(
    directory: Seq<char>,
    fs: Seq<FragmentView>,
    changed: Option<Seq<Seq<char>>>,
    deny_mixed: bool,
    creator: int,
    user: int,
    n: int,
)
    requires
        is_acyclic(fs),
        0 <= creator < apply_order(fs).len(),
        0 <= user < fs.len(),
        is_targeted(fs[user], changed),
        0 <= n < content_statements(fs[user].sql_content).len(),
        creates_object(
            fs[apply_order(fs)[creator]],
            content_statements(fs[user].sql_content)[n].signature,
        ),
        forall|j: int|
            0 <= j < creator ==> !creates_object(
                fs[#[trigger] apply_order(fs)[j]],
                content_statements(fs[user].sql_content)[n].signature,
            ),
        fs[apply_order(fs)[creator]].id != fs[user].id,
        !is_declared(fs[user].dependencies, fs[apply_order(fs)[creator]].id),
    ensures
        lint_issues(directory, fs, changed, deny_mixed).contains(
            undeclared_issue(fs[user], fs[apply_order(fs)[creator]].id),
        ),
{
    let catalog = applied_objects(fs);
    let sorted = pick(fs, apply_order(fs));
    let owner = sorted[creator].id;
    let stmts = content_statements(fs[user].sql_content);
    assert forall|j: int| 0 <= j < creator implies !creates_object(
        #[trigger] sorted[j],
        stmts[n].signature,
    ) by {
        assert(sorted[j] == fs[apply_order(fs)[j]]);
    }
    law_first_creator_owns(sorted, stmts[n].signature);
    assert(touches(catalog, stmts, owner));
    law_undeclared_dependency_is_reported(catalog, fs[user], deny_mixed, owner);
    law_checked_fragments_are_reported(
        directory,
        fs,
        changed,
        deny_mixed,
        user,
        undeclared_issue(fs[user], owner),
    );
}

/// An object belongs to a fragment that creates it if every other fragment that creates or
/// replaces it declares that one, in whatever order the fragments are listed.
pub proof fn law_declared_creator_owns(fs: Seq<FragmentView>, creator: int, signature: Seq<char>)
    requires
        is_acyclic(fs),
        0 <= creator < fs.len(),
        creates_object(fs[creator], signature),
        forall|j: int|
            0 <= j < fs.len() && j != creator && creates_object(#[trigger] fs[j], signature)
                ==> needs(fs, j, creator),
    ensures
        applied_objects(fs).contains_key(signature),
        applied_objects(fs)[signature] == fs[creator].id,
{
    let order = apply_order(fs);
    let sorted = pick(fs, order);
    law_placed_or_stuck(fs);
    assert(order.contains(creator));
    let p = order.index_of(creator);
    assert forall|q: int| 0 <= q < p implies !creates_object(#[trigger] sorted[q], signature) by {
        assert(sorted[q] == fs[order[q]]);
        if creates_object(sorted[q], signature) {
            assert(order[q] != order[p]);
            law_prerequisites_first(fs, p, q);
        }
    }
    assert(sorted[p] == fs[creator]);
    law_first_creator_owns(sorted, signature);
}

/// What is found does not depend on the order in which the fragments are listed. Where
/// fragments wait for each other, that is found, and the same are named.
pub proof fn law_listing_is_irrelevant(
    directory: Seq<char>,
    fs: Seq<FragmentView>,
    gs: Seq<FragmentView>,
    changed: Option<Seq<Seq<char>>>,
    deny_mixed: bool,
)
    requires
        distinct_filenames(fs),
        distinct_filenames(gs),
        same_fragments(fs, gs),
    ensures
        is_acyclic(fs) <==> is_acyclic(gs),
        is_acyclic(fs) ==> forall|x: IssueView| #[trigger]
            lint_issues(directory, fs, changed, deny_mixed).contains(x) <==> lint_issues(
                directory,
                gs,
                changed,
                deny_mixed,
            ).contains(x),
        !is_acyclic(fs) ==> lint_issues(directory, fs, changed, deny_mixed) == seq![
            cycle_issue(directory, fs),
        ] && lint_issues(directory, gs, changed, deny_mixed) == seq![cycle_issue(directory, gs)],
        forall|name: Seq<char>| #[trigger]
            stuck_names(fs, fs.len()).contains(name) <==> stuck_names(gs, gs.len()).contains(name),
{
    law_input_order_is_irrelevant(fs, gs);
    if is_acyclic(fs) {
        assert forall|f: FragmentView| #[trigger] gs.contains(f) implies fs.contains(f) by {
            assert(fs.contains(f) <==> gs.contains(f));
        }
        assert forall|x: IssueView| #[trigger]
            lint_issues(directory, fs, changed, deny_mixed).contains(x) <==> lint_issues(
                directory,
                gs,
                changed,
                deny_mixed,
            ).contains(x) by {
            if lint_issues(directory, fs, changed, deny_mixed).contains(x) {
                lemma_findings_move(directory, fs, gs, changed, deny_mixed, x);
            }
            if lint_issues(directory, gs, changed, deny_mixed).contains(x) {
                lemma_findings_move(directory, gs, fs, changed, deny_mixed, x);
            }
        }
    }
}

proof fn lemma_findings_move(
    directory: Seq<char>,
    fs: Seq<FragmentView>,
    gs: Seq<FragmentView>,
    changed: Option<Seq<Seq<char>>>,
    deny_mixed: bool,
    x: IssueView,
)
    requires
        is_acyclic(fs),
        is_acyclic(gs),
        applied_objects(fs) == applied_objects(gs),
        forall|f: FragmentView| #[trigger] fs.contains(f) ==> gs.contains(f),
        lint_issues(directory, fs, changed, deny_mixed).contains(x),
    ensures
        lint_issues(directory, gs, changed, deny_mixed).contains(x),
{
    let all = lint_issues(directory, fs, changed, deny_mixed);
    let catalog = applied_objects(fs);
    lemma_targeted_issues(catalog, fs, changed, deny_mixed, all.index_of(x));
    let k = choose|k: int|
        0 <= k < fs.len() && is_targeted(#[trigger] fs[k], changed) && fragment_issues(
            catalog,
            fs[k],
            deny_mixed,
        ).contains(x);
    assert(fs.contains(fs[k]));
    let m = gs.index_of(fs[k]);
    law_checked_fragments_are_reported(directory, gs, changed, deny_mixed, m, x);
}

/// Where mixed objects are allowed, a check passes exactly where no fragments wait for each
/// other and every fragment that is checked declares what it touches.
pub proof fn law_check_passes(
    directory: Seq<char>,
    fs: Seq<FragmentView>,
    changed: Option<Seq<Seq<char>>>,
)
    ensures
        lint_issues(directory, fs, changed, false).len() == 0 <==> is_acyclic(fs) && forall|k: int|
            0 <= k < fs.len() && is_targeted(#[trigger] fs[k], changed) ==> declares_all_touched(
                applied_objects(fs),
                fs[k],
            ),
{
    let catalog = applied_objects(fs);
    let all = lint_issues(directory, fs, changed, false);
    if all.len() == 0 {
        assert forall|k: int| 0 <= k < fs.len() && is_targeted(
            #[trigger] fs[k],
            changed,
        ) implies declares_all_touched(catalog, fs[k]) by {
            assert forall|owner: FragmentIdView| #[trigger]
                touches(catalog, content_statements(fs[k].sql_content), owner) && owner
                    != fs[k].id implies is_declared(fs[k].dependencies, owner) by {
                if !is_declared(fs[k].dependencies, owner) {
                    let x = undeclared_issue(fs[k], owner);
                    law_undeclared_dependency_is_reported(catalog, fs[k], false, owner);
                    law_checked_fragments_are_reported(directory, fs, changed, false, k, x);
                }
            }
        }
    } else if is_acyclic(fs) {
        lemma_targeted_issues(catalog, fs, changed, false, 0);
        let k = choose|k: int|
            0 <= k < fs.len() && is_targeted(#[trigger] fs[k], changed) && fragment_issues(
                catalog,
                fs[k],
                false,
            ).contains(all[0]);
        if declares_all_touched(catalog, fs[k]) {
            law_declared_dependencies_pass(catalog, fs[k]);
        }
    }
}

proof fn lemma_targeted_contains(
    catalog: Map<Seq<char>, FragmentIdView>,
    fs: Seq<FragmentView>,
    changed: Option<Seq<Seq<char>>>,
    deny_mixed: bool,
    k: int,
    x: IssueView,
)
    requires
        0 <= k < fs.len(),
        is_targeted(fs[k], changed),
        fragment_issues(catalog, fs[k], deny_mixed).contains(x),
    ensures
        targeted_issues(catalog, fs, changed, deny_mixed).contains(x),
    decreases fs.len(),
{
    let head = fs.drop_last();
    let earlier = targeted_issues(catalog, head, changed, deny_mixed);
    let all = targeted_issues(catalog, fs, changed, deny_mixed);
    if k < head.len() {
        assert(head[k] == fs[k]);
        lemma_targeted_contains(catalog, head, changed, deny_mixed, k, x);
        let i = earlier.index_of(x);
        assert(all[i] == x);
    } else {
        let own = fragment_issues(catalog, fs[k], deny_mixed);
        let i = own.index_of(x);
        assert(all[earlier.len() + i] == x);
    }
}

/// How often a finding is in the list.
pub open spec fn occurrences(issues: Seq<IssueView>, x: IssueView) -> nat
    decreases issues.len(),
{
    if issues.len() == 0 {
        0
    } else {
        occurrences(issues.drop_last(), x) + (if issues.last() == x {
            1nat
        } else {
            0nat
        })
    }
}

proof fn lemma_occurrences_of_both(a: Seq<IssueView>, b: Seq<IssueView>, x: IssueView)
    ensures
        occurrences(a + b, x) == occurrences(a, x) + occurrences(b, x),
    decreases b.len(),
{
    if b.len() == 0 {
        assert(a + b =~= a);
    } else {
        lemma_occurrences_of_both(a, b.drop_last(), x);
        assert((a + b).drop_last() =~= a + b.drop_last());
    }
}

proof fn lemma_no_occurrence(issues: Seq<IssueView>, x: IssueView)
    requires
        !issues.contains(x),
    ensures
        occurrences(issues, x) == 0,
    decreases issues.len(),
{
    if issues.len() > 0 {
        let head = issues.drop_last();
        if head.contains(x) {
            assert(issues[head.index_of(x)] == x);
        }
        assert(issues[issues.len() - 1] == issues.last());
        lemma_no_occurrence(head, x);
    }
}

/// The message of an undeclared dependency tells the text of its identifier.
proof fn lemma_message_names_owner(f: FragmentView, a: FragmentIdView, b: FragmentIdView)
    requires
        undeclared_issue(f, a) == undeclared_issue(f, b),
    ensures
        id_text(a) == id_text(b),
{
    let lead = "Fragment touches unreleased object(s) from fragment `"@;
    let middle = "` but does not declare '-- depends-on: "@;
    let (s, t) = (id_text(a), id_text(b));
    let m = undeclared_issue(f, a).message;
    assert(m.len() == lead.len() + s.len() + middle.len() + s.len() + "'"@.len());
    assert(m.len() == lead.len() + t.len() + middle.len() + t.len() + "'"@.len());
    let n = lead.len() as int;
    assert(m.subrange(n, n + s.len()) =~= s);
    assert(m.subrange(n, n + t.len()) =~= t);
}

/// The first `n` owners give one finding on `owner` where it is among them and not
/// declared.
proof fn lemma_undeclared_occurrences(
    f: FragmentView,
    owners: Seq<FragmentIdView>,
    n: nat,
    owner: FragmentIdView,
)
    requires
        n <= owners.len(),
        ids_ascend(owners),
        forall|i: int|
            0 <= i < owners.len() && id_text(#[trigger] owners[i]) == id_text(owner) ==> owners[i]
                == owner,
    ensures
        occurrences(undeclared_issues(f, owners, n), undeclared_issue(f, owner)) == (if owners.take(
            n as int,
        ).contains(owner) && !is_declared(f.dependencies, owner) {
            1nat
        } else {
            0nat
        }),
    decreases n,
{
    let x = undeclared_issue(f, owner);
    if n > 0 {
        let m = (n - 1) as nat;
        let last = owners[m as int];
        let earlier = undeclared_issues(f, owners, m);
        let (some, more) = (owners.take(m as int), owners.take(n as int));
        lemma_undeclared_occurrences(f, owners, m, owner);
        assert(earlier.push(undeclared_issue(f, last)).drop_last() =~= earlier);
        if undeclared_issue(f, last) == x {
            lemma_message_names_owner(f, last, owner);
        }
        if some.contains(owner) {
            let k = some.index_of(owner);
            assert(more[k] == owner);
            lemma_id_less_total(owners[k], last);
        }
        if last == owner {
            assert(more[m as int] == owner);
        }
        if more.contains(owner) && last != owner {
            let k = more.index_of(owner);
            assert(some[k] == owner);
        }
    }
}

/// Findings on other fragments are no findings on this one.
proof fn lemma_targeted_occurrences(
    catalog: Map<Seq<char>, FragmentIdView>,
    fs: Seq<FragmentView>,
    changed: Option<Seq<Seq<char>>>,
    deny_mixed: bool,
    k: int,
    x: IssueView,
)
    requires
        distinct_filenames(fs),
        0 <= k < fs.len(),
        x.filename == fs[k].filename,
    ensures
        occurrences(targeted_issues(catalog, fs, changed, deny_mixed), x) == (if is_targeted(
            fs[k],
            changed,
        ) {
            occurrences(fragment_issues(catalog, fs[k], deny_mixed), x)
        } else {
            0nat
        }),
    decreases fs.len(),
{
    let head = fs.drop_last();
    let earlier = targeted_issues(catalog, head, changed, deny_mixed);
    let own = fragment_issues(catalog, fs.last(), deny_mixed);
    lemma_occurrences_of_both(earlier, own, x);
    if k < head.len() {
        assert(head[k] == fs[k]);
        lemma_targeted_occurrences(catalog, head, changed, deny_mixed, k, x);
        if own.contains(x) {
            law_reported_issues(catalog, fs.last(), deny_mixed, x);
            assert(fs[fs.len() - 1].filename == fs[k].filename);
        }
        lemma_no_occurrence(own, x);
    } else {
        if earlier.contains(x) {
            lemma_targeted_issues(catalog, head, changed, deny_mixed, earlier.index_of(x));
            let m = choose|m: int|
                0 <= m < head.len() && is_targeted(#[trigger] head[m], changed) && fragment_issues(
                    catalog,
                    head[m],
                    deny_mixed,
                ).contains(x);
            law_reported_issues(catalog, head[m], deny_mixed, x);
            assert(fs[m].filename == fs[k].filename);
        }
        lemma_no_occurrence(earlier, x);
    }
}

/// An object belongs to one of the fragments.
proof fn lemma_owner_is_listed(fs: Seq<FragmentView>, signature: Seq<char>)
    requires
        unreleased_objects(fs).contains_key(signature),
    ensures
        exists|i: int| 0 <= i < fs.len() && (#[trigger] fs[i]).id == unreleased_objects(
            fs,
        )[signature],
    decreases fs.len(),
{
    if fs.len() > 0 {
        let head = fs.drop_last();
        lemma_with_creations(
            unreleased_objects(head),
            fs.last().id,
            content_statements(fs.last().sql_content),
            signature,
        );
        if unreleased_objects(head).contains_key(signature) {
            lemma_owner_is_listed(head, signature);
            let i = choose|i: int|
                0 <= i < head.len() && (#[trigger] head[i]).id == unreleased_objects(
                    head,
                )[signature];
            assert(fs[i] == head[i]);
        } else {
            assert(fs[fs.len() - 1] == fs.last());
        }
    }
}

/// An object belongs to one of the fragments, in whatever order they are applied.
proof fn lemma_applied_owner_is_listed(fs: Seq<FragmentView>, signature: Seq<char>) -> (i: int)
    requires
        applied_objects(fs).contains_key(signature),
    ensures
        0 <= i < fs.len(),
        fs[i].id == applied_objects(fs)[signature],
{
    let sorted = pick(fs, apply_order(fs));
    lemma_owner_is_listed(sorted, signature);
    let k = choose|k: int|
        0 <= k < sorted.len() && (#[trigger] sorted[k]).id == unreleased_objects(
            sorted,
        )[signature];
    law_placed_or_stuck(fs);
    apply_order(fs)[k]
}

/// Of a fragment that is checked, each other fragment whose objects it touches and that it
/// does not declare is reported once; what is declared, not touched or not checked, never.
pub proof fn law_one_finding_per_owner(
    directory: Seq<char>,
    fs: Seq<FragmentView>,
    changed: Option<Seq<Seq<char>>>,
    deny_mixed: bool,
    user: int,
    owner: int,
)
    requires
        is_acyclic(fs),
        distinct_filenames(fs),
        are_told_apart(fs),
        0 <= user < fs.len(),
        0 <= owner < fs.len(),
    ensures
        occurrences(
            lint_issues(directory, fs, changed, deny_mixed),
            undeclared_issue(fs[user], fs[owner].id),
        ) == (if is_targeted(fs[user], changed) && fs[owner].id != fs[user].id && touches(
            applied_objects(fs),
            content_statements(fs[user].sql_content),
            fs[owner].id,
        ) && !is_declared(fs[user].dependencies, fs[owner].id) {
            1nat
        } else {
            0nat
        }),
{
    let catalog = applied_objects(fs);
    let f = fs[user];
    let id = fs[owner].id;
    let x = undeclared_issue(f, id);
    let stmts = content_statements(f.sql_content);
    let owners = touched_owners(catalog, f.id, stmts);
    let released = touched_released(catalog, stmts);
    law_touched_owners(catalog, f.id, stmts);
    assert forall|i: int|
        0 <= i < owners.len() && id_text(#[trigger] owners[i]) == id_text(id) implies owners[i]
        == id by {
        assert(owners.contains(owners[i]));
        assert(touches(catalog, stmts, owners[i]));
        let k = choose|k: int|
            0 <= k < stmts.len() && catalog.contains_key((#[trigger] stmts[k]).signature)
                && catalog[stmts[k].signature] == owners[i];
        let j = lemma_applied_owner_is_listed(fs, stmts[k].signature);
        assert(id_text(fs[j].id) == id_text(fs[owner].id));
    }
    lemma_undeclared_occurrences(f, owners, owners.len(), id);
    assert(owners.take(owners.len() as int) =~= owners);
    let undeclared = undeclared_issues(f, owners, owners.len());
    assert(undeclared.push(mixed_issue(f, released, owners)).drop_last() =~= undeclared);
    lemma_targeted_occurrences(catalog, fs, changed, deny_mixed, user, x);
}

/// Every undeclared dependency that is reported is one: a fragment that is checked touches
/// an object of another one, and does not declare it.
pub proof fn law_reported_dependencies(
    directory: Seq<char>,
    fs: Seq<FragmentView>,
    changed: Option<Seq<Seq<char>>>,
    deny_mixed: bool,
    x: IssueView,
) -> (r: (int, int))
    requires
        lint_issues(directory, fs, changed, deny_mixed).contains(x),
        x.rule is UndeclaredDependency,
    ensures
        is_acyclic(fs),
        0 <= r.0 < fs.len(),
        0 <= r.1 < fs.len(),
        x == undeclared_issue(fs[r.0], fs[r.1].id),
        is_targeted(fs[r.0], changed),
        fs[r.0].id != fs[r.1].id,
        touches(applied_objects(fs), content_statements(fs[r.0].sql_content), fs[r.1].id),
        !is_declared(fs[r.0].dependencies, fs[r.1].id),
{
    let catalog = applied_objects(fs);
    let all = lint_issues(directory, fs, changed, deny_mixed);
    lemma_targeted_issues(catalog, fs, changed, deny_mixed, all.index_of(x));
    let user = choose|k: int|
        0 <= k < fs.len() && is_targeted(#[trigger] fs[k], changed) && fragment_issues(
            catalog,
            fs[k],
            deny_mixed,
        ).contains(x);
    law_reported_issues(catalog, fs[user], deny_mixed, x);
    let stmts = content_statements(fs[user].sql_content);
    let id = choose|id: FragmentIdView| #[trigger]
        touches(catalog, stmts, id) && id != fs[user].id && !is_declared(
            fs[user].dependencies,
            id,
        ) && x == undeclared_issue(fs[user], id);
    let n = choose|n: int|
        0 <= n < stmts.len() && catalog.contains_key((#[trigger] stmts[n]).signature)
            && catalog[stmts[n].signature] == id;
    (user, lemma_applied_owner_is_listed(fs, stmts[n].signature))
}

/// Whether a list of dependencies names a fragment: by its identifier, number or slug, or by
/// a file name that gives this identifier.
pub open spec fn lists_owner(deps: Seq<DependencyView>, owner: FragmentIdView) -> bool {
    ||| deps.contains(DependencyView::Id(owner))
    ||| exists|name: Seq<char>|
        deps.contains(DependencyView::Filename(name)) && #[trigger] fragment_id(name) == owner
}

/// A dependency counts as declared exactly where the list names it, wherever it does.
pub proof fn law_listed_dependencies_are_declared(
    deps: Seq<DependencyView>,
    owner: FragmentIdView,
)
    ensures
        is_declared(deps, owner) <==> lists_owner(deps, owner),
{
    if is_declared(deps, owner) {
        let i = choose|i: int| 0 <= i < deps.len() && declares_id(#[trigger] deps[i], owner);
        assert(deps.contains(deps[i]));
        if let DependencyView::Filename(name) = deps[i] {
            assert(deps.contains(DependencyView::Filename(name)));
        }
    }
    if lists_owner(deps, owner) {
        if deps.contains(DependencyView::Id(owner)) {
            let i = deps.index_of(DependencyView::Id(owner));
            assert(declares_id(deps[i], owner));
        } else {
            let name = choose|name: Seq<char>|
                deps.contains(DependencyView::Filename(name)) && #[trigger] fragment_id(name)
                    == owner;
            let i = deps.index_of(DependencyView::Filename(name));
            assert(declares_id(deps[i], owner));
        }
    }
}

/// Whether one of a fragment's statements creates an object, or creates or replaces it.
pub open spec fn makes(f: FragmentView, signature: Seq<char>) -> bool {
    exists|k: int|
        0 <= k < content_statements(f.sql_content).len() && (#[trigger] content_statements(
            f.sql_content,
        )[k]).signature == signature && (content_statements(f.sql_content)[k].verb == "CREATE"@
            || content_statements(f.sql_content)[k].verb == "CREATE OR REPLACE"@)
}

proof fn lemma_makes(f: FragmentView, signature: Seq<char>)
    ensures
        makes(f, signature) <==> creates_object(f, signature),
{
    let stmts = content_statements(f.sql_content);
    if makes(f, signature) {
        let k = choose|k: int|
            0 <= k < stmts.len() && (#[trigger] stmts[k]).signature == signature && (stmts[k].verb
                == "CREATE"@ || stmts[k].verb == "CREATE OR REPLACE"@);
        assert(is_creation(stmts[k].verb) && stmts[k].signature == signature);
    }
    if creates_object(f, signature) {
        let k = choose|k: int|
            0 <= k < stmts.len() && is_creation((#[trigger] stmts[k]).verb) && stmts[k].signature
                == signature;
        assert(stmts[k].signature == signature);
    }
}

/// The catalog holds exactly the objects that some fragment makes, and gives each to the
/// first one that does.
pub proof fn law_catalog(fs: Seq<FragmentView>, signature: Seq<char>, i: int)
    ensures
        unreleased_objects(fs).contains_key(signature) <==> exists|j: int|
            0 <= j < fs.len() && makes(#[trigger] fs[j], signature),
        0 <= i < fs.len() && makes(fs[i], signature) && (forall|j: int|
            0 <= j < i ==> !makes(#[trigger] fs[j], signature)) ==> unreleased_objects(
            fs,
        )[signature] == fs[i].id,
{
    law_first_creator_owns(fs, signature);
    assert forall|j: int| 0 <= j < fs.len() implies (makes(#[trigger] fs[j], signature)
        <==> creates_object(fs[j], signature)) by {
        lemma_makes(fs[j], signature);
    }
    if unreleased_objects(fs).contains_key(signature) {
        let j = choose|j: int| 0 <= j < fs.len() && creates_object(#[trigger] fs[j], signature);
        assert(makes(fs[j], signature));
    }
    if exists|j: int| 0 <= j < fs.len() && makes(#[trigger] fs[j], signature) {
        let j = choose|j: int| 0 <= j < fs.len() && makes(#[trigger] fs[j], signature);
        assert(creates_object(fs[j], signature));
    }
}

/// Whether a statement of `user` touches an object that a fragment with the identifier
/// `owner` is the first to make, in the order in which fragments are applied.
pub open spec fn uses(
    fs: Seq<FragmentView>,
    user: FragmentView,
    owner: FragmentIdView,
) -> bool {
    exists|n: int, c: int|
        0 <= n < content_statements(user.sql_content).len() && #[trigger] is_first_maker(
            fs,
            c,
            content_statements(user.sql_content)[n].signature,
        ) && fs[apply_order(fs)[c]].id == owner
}

/// Whether the fragment that is applied at place `c` is the first to make an object.
pub open spec fn is_first_maker(fs: Seq<FragmentView>, c: int, signature: Seq<char>) -> bool {
    &&& 0 <= c < apply_order(fs).len()
    &&& makes(fs[apply_order(fs)[c]], signature)
    &&& forall|j: int| 0 <= j < c ==> !makes(fs[#[trigger] apply_order(fs)[j]], signature)
}

proof fn lemma_first_maker(fs: Seq<FragmentView>, signature: Seq<char>, n: int) -> (c: int)
    requires
        0 <= n < apply_order(fs).len(),
        makes(fs[apply_order(fs)[n]], signature),
    ensures
        is_first_maker(fs, c, signature),
    decreases n,
{
    if exists|j: int| 0 <= j < n && makes(fs[#[trigger] apply_order(fs)[j]], signature) {
        let j = choose|j: int| 0 <= j < n && makes(fs[#[trigger] apply_order(fs)[j]], signature);
        lemma_first_maker(fs, signature, j)
    } else {
        n
    }
}

/// An object is used exactly where a statement touches one that the catalog gives to the
/// owner.
proof fn lemma_uses(fs: Seq<FragmentView>, user: FragmentView, owner: FragmentIdView)
    ensures
        uses(fs, user, owner) <==> touches(
            applied_objects(fs),
            content_statements(user.sql_content),
            owner,
        ),
{
    let stmts = content_statements(user.sql_content);
    let order = apply_order(fs);
    let sorted = pick(fs, order);
    let catalog = applied_objects(fs);
    if uses(fs, user, owner) {
        let (n, c) = choose|n: int, c: int|
            0 <= n < stmts.len() && #[trigger] is_first_maker(fs, c, stmts[n].signature)
                && fs[order[c]].id == owner;
        assert(sorted[c] == fs[order[c]]);
        assert forall|j: int| 0 <= j < c implies !makes(
            #[trigger] sorted[j],
            stmts[n].signature,
        ) by {
            assert(sorted[j] == fs[order[j]]);
        }
        law_catalog(sorted, stmts[n].signature, c);
        assert(makes(sorted[c], stmts[n].signature));
        assert(catalog.contains_key(stmts[n].signature));
    }
    if touches(catalog, stmts, owner) {
        let n = choose|n: int|
            0 <= n < stmts.len() && catalog.contains_key((#[trigger] stmts[n]).signature)
                && catalog[stmts[n].signature] == owner;
        let signature = stmts[n].signature;
        law_catalog(sorted, signature, 0);
        let k = choose|k: int| 0 <= k < sorted.len() && makes(#[trigger] sorted[k], signature);
        assert(sorted[k] == fs[order[k]]);
        let c = lemma_first_maker(fs, signature, k);
        assert(sorted[c] == fs[order[c]]);
        assert forall|j: int| 0 <= j < c implies !makes(#[trigger] sorted[j], signature) by {
            assert(sorted[j] == fs[order[j]]);
        }
        law_catalog(sorted, signature, c);
        assert(is_first_maker(fs, c, stmts[n].signature) && fs[order[c]].id == owner);
    }
}

proof fn lemma_occurs(issues: Seq<IssueView>, x: IssueView)
    ensures
        issues.contains(x) <==> occurrences(issues, x) > 0,
    decreases issues.len(),
{
    if issues.len() > 0 {
        let head = issues.drop_last();
        lemma_occurs(head, x);
        if head.contains(x) {
            assert(issues[head.index_of(x)] == x);
        }
        assert(issues[issues.len() - 1] == issues.last());
        if issues.contains(x) && issues.last() != x {
            assert(head[issues.index_of(x)] == x);
        }
    }
}

/// A fragment is reported for another one exactly where it is checked, uses an object of the
/// other, and does not list it among its dependencies; and then in these words.
pub proof fn law_undeclared_dependencies(
    directory: Seq<char>,
    fs: Seq<FragmentView>,
    changed: Option<Seq<Seq<char>>>,
    deny_mixed: bool,
    user: int,
    owner: int,
)
    requires
        is_acyclic(fs),
        distinct_filenames(fs),
        are_told_apart(fs),
        0 <= user < fs.len(),
        0 <= owner < fs.len(),
    ensures
        lint_issues(directory, fs, changed, deny_mixed).contains(
            (IssueView {
                file: fs[user].path,
                filename: fs[user].filename,
                rule: LintRule::UndeclaredDependency,
                message: "Fragment touches unreleased object(s) from fragment `"@ + id_text(
                    fs[owner].id,
                ) + "` but does not declare '-- depends-on: "@ + id_text(fs[owner].id) + "'"@,
            }),
        ) <==> {
            &&& changed matches Some(names) ==> names.contains(fs[user].filename)
            &&& fs[user].id != fs[owner].id
            &&& uses(fs, fs[user], fs[owner].id)
            &&& !fs[user].dependencies.contains(DependencyView::Id(fs[owner].id))
            &&& !exists|name: Seq<char>|
                fs[user].dependencies.contains(DependencyView::Filename(name))
                    && #[trigger] fragment_id(name) == fs[owner].id
        },
{
    let issues = lint_issues(directory, fs, changed, deny_mixed);
    let x = undeclared_issue(fs[user], fs[owner].id);
    law_one_finding_per_owner(directory, fs, changed, deny_mixed, user, owner);
    lemma_occurs(issues, x);
    lemma_uses(fs, fs[user], fs[owner].id);
    law_listed_dependencies_are_declared(fs[user].dependencies, fs[owner].id);
}

/// A fragment that lists an owner, by number, by slug or by file name, is not reported for
/// it.
pub proof fn law_listed_owners_are_not_reported(
    directory: Seq<char>,
    fs: Seq<FragmentView>,
    changed: Option<Seq<Seq<char>>>,
    deny_mixed: bool,
    user: int,
    owner: int,
    name: Seq<char>,
)
    requires
        is_acyclic(fs),
        distinct_filenames(fs),
        are_told_apart(fs),
        0 <= user < fs.len(),
        0 <= owner < fs.len(),
        fs[user].dependencies.contains(DependencyView::Id(fs[owner].id))
            || fs[user].dependencies.contains(DependencyView::Filename(name)) && fragment_id(name)
            == fs[owner].id,
    ensures
        forall|i: int|
            0 <= i < lint_issues(directory, fs, changed, deny_mixed).len() && (
            #[trigger] lint_issues(directory, fs, changed, deny_mixed)[i]).rule
                is UndeclaredDependency && lint_issues(directory, fs, changed, deny_mixed)[i].filename
                == fs[user].filename ==> lint_issues(directory, fs, changed, deny_mixed)[i].message
                != "Fragment touches unreleased object(s) from fragment `"@ + id_text(fs[owner].id)
                + "` but does not declare '-- depends-on: "@ + id_text(fs[owner].id) + "'"@,
{
    let issues = lint_issues(directory, fs, changed, deny_mixed);
    let x = undeclared_issue(fs[user], fs[owner].id);
    law_undeclared_dependencies(directory, fs, changed, deny_mixed, user, owner);
    assert forall|i: int|
        0 <= i < issues.len() && (#[trigger] issues[i]).rule is UndeclaredDependency
            && issues[i].filename == fs[user].filename implies issues[i].message != x.message by {
        assert(issues.contains(issues[i]));
        let (u, o) = law_reported_dependencies(directory, fs, changed, deny_mixed, issues[i]);
        assert(fs[u].filename == fs[user].filename);
        assert(u == user);
        if issues[i].message == x.message {
            assert(issues[i] == x);
        }
    }
}

/// A fragment is reported for mixed objects exactly where that is denied, the fragment is
/// checked, one of its statements alters, drops or replaces an object that no fragment makes,
/// and it uses an object of another fragment.
pub proof fn law_mixed_objects(
    directory: Seq<char>,
    fs: Seq<FragmentView>,
    changed: Option<Seq<Seq<char>>>,
    deny_mixed: bool,
    user: int,
)
    requires
        is_acyclic(fs),
        distinct_filenames(fs),
        0 <= user < fs.len(),
    ensures
        (exists|i: int|
            0 <= i < lint_issues(directory, fs, changed, deny_mixed).len() && (
            #[trigger] lint_issues(directory, fs, changed, deny_mixed)[i]).rule is MixedObjects
                && lint_issues(directory, fs, changed, deny_mixed)[i].filename == fs[user].filename)
            <==> {
            &&& deny_mixed
            &&& changed matches Some(names) ==> names.contains(fs[user].filename)
            &&& changes_released_object(fs, fs[user])
            &&& exists|owner: FragmentIdView| #[trigger] uses(fs, fs[user], owner) && owner
                != fs[user].id
        },
{
    let issues = lint_issues(directory, fs, changed, deny_mixed);
    let catalog = applied_objects(fs);
    let f = fs[user];
    let stmts = content_statements(f.sql_content);
    lemma_changes_released(fs, f);
    if exists|i: int|
        0 <= i < issues.len() && (#[trigger] issues[i]).rule is MixedObjects && issues[i].filename
            == f.filename {
        let i = choose|i: int|
            0 <= i < issues.len() && (#[trigger] issues[i]).rule is MixedObjects
                && issues[i].filename == f.filename;
        lemma_targeted_issues(catalog, fs, changed, deny_mixed, i);
        let k = choose|k: int|
            0 <= k < fs.len() && is_targeted(#[trigger] fs[k], changed) && fragment_issues(
                catalog,
                fs[k],
                deny_mixed,
            ).contains(issues[i]);
        law_reported_issues(catalog, fs[k], deny_mixed, issues[i]);
        assert(fs[k].filename == fs[user].filename);
        assert(k == user);
        let owner = choose|owner: FragmentIdView| #[trigger]
            touches(catalog, stmts, owner) && owner != f.id;
        lemma_uses(fs, f, owner);
    }
    if deny_mixed && is_targeted(f, changed) && changes_released_object(fs, f) && exists|
        owner: FragmentIdView,
    | #[trigger] uses(fs, f, owner) && owner != f.id {
        let owner = choose|owner: FragmentIdView| #[trigger] uses(fs, f, owner) && owner != f.id;
        lemma_uses(fs, f, owner);
        law_mixed_objects_are_reported(catalog, f, owner);
        let own = fragment_issues(catalog, f, true);
        let j = choose|j: int| 0 <= j < own.len() && (#[trigger] own[j]).rule is MixedObjects;
        assert(own.contains(own[j]));
        law_reported_issues(catalog, f, true, own[j]);
        law_checked_fragments_are_reported(directory, fs, changed, true, user, own[j]);
        let i = issues.index_of(own[j]);
        assert(issues[i].rule is MixedObjects && issues[i].filename == f.filename);
    }
}

/// Whether a statement of a fragment alters, drops or replaces an object that none of the
/// fragments makes.
pub open spec fn changes_released_object(fs: Seq<FragmentView>, f: FragmentView) -> bool {
    exists|n: int|
        0 <= n < content_statements(f.sql_content).len() && ((#[trigger] content_statements(
            f.sql_content,
        )[n]).verb == "ALTER"@ || content_statements(f.sql_content)[n].verb == "DROP"@
            || content_statements(f.sql_content)[n].verb == "CREATE OR REPLACE"@) && is_released(
            fs,
            content_statements(f.sql_content)[n].signature,
        )
}

/// Whether none of the fragments makes an object.
pub open spec fn is_released(fs: Seq<FragmentView>, signature: Seq<char>) -> bool {
    forall|j: int| 0 <= j < fs.len() ==> !makes(#[trigger] fs[j], signature)
}

proof fn lemma_changes_released(fs: Seq<FragmentView>, f: FragmentView)
    requires
        is_acyclic(fs),
    ensures
        changes_released_object(fs, f) <==> changes_released(
            applied_objects(fs),
            content_statements(f.sql_content),
        ),
{
    let stmts = content_statements(f.sql_content);
    let catalog = applied_objects(fs);
    assert forall|n: int| 0 <= n < stmts.len() implies (is_released(
        fs,
        (#[trigger] stmts[n]).signature,
    ) <==> !catalog.contains_key(stmts[n].signature)) by {
        lemma_released(fs, stmts[n].signature);
    }
    if changes_released_object(fs, f) {
        let n = choose|n: int|
            0 <= n < stmts.len() && ((#[trigger] stmts[n]).verb == "ALTER"@ || stmts[n].verb
                == "DROP"@ || stmts[n].verb == "CREATE OR REPLACE"@) && is_released(
                fs,
                stmts[n].signature,
            );
        assert(!catalog.contains_key(stmts[n].signature) && is_change(stmts[n].verb));
    }
    if changes_released(catalog, stmts) {
        let n = choose|n: int|
            0 <= n < stmts.len() && !catalog.contains_key((#[trigger] stmts[n]).signature)
                && is_change(stmts[n].verb);
        assert(is_released(fs, stmts[n].signature));
    }
}

proof fn lemma_released(fs: Seq<FragmentView>, signature: Seq<char>)
    requires
        is_acyclic(fs),
    ensures
        is_released(fs, signature) <==> !applied_objects(fs).contains_key(signature),
{
    let order = apply_order(fs);
    let sorted = pick(fs, order);
    law_placed_or_stuck(fs);
    law_catalog(sorted, signature, 0);
    if applied_objects(fs).contains_key(signature) {
        let k = choose|k: int| 0 <= k < sorted.len() && makes(#[trigger] sorted[k], signature);
        assert(sorted[k] == fs[order[k]]);
        assert(makes(fs[order[k]], signature));
    }
    if !is_released(fs, signature) {
        let j = choose|j: int| 0 <= j < fs.len() && makes(#[trigger] fs[j], signature);
        assert(order.contains(j));
        assert(sorted[order.index_of(j)] == fs[j]);
    }
}

/// The finding on mixed objects names the released objects, in the order of the statements,
/// and the other fragments, in ascending order.
pub proof fn law_mixed_finding(
    catalog: Map<Seq<char>, FragmentIdView>,
    f: FragmentView,
    x: IssueView,
)
    requires
        fragment_issues(catalog, f, true).contains(x),
        x.rule is MixedObjects,
    ensures
        x.message == "Fragment mixes modifications to already-released objects ("@ + join(
            touched_released(catalog, content_statements(f.sql_content)),
            ", "@,
        ) + ") with unreleased objects from fragment(s) ["@ + join(
            id_texts(touched_owners(catalog, f.id, content_statements(f.sql_content))),
            ", "@,
        ) + "]"@,
        x == fragment_issues(catalog, f, true).last(),
{
    let stmts = content_statements(f.sql_content);
    let owners = touched_owners(catalog, f.id, stmts);
    let undeclared = undeclared_issues(f, owners, owners.len());
    let all = fragment_issues(catalog, f, true);
    lemma_undeclared_issues(f, owners, owners.len());
    let k = all.index_of(x);
    if k < undeclared.len() {
        assert(undeclared[k] == x);
        assert(undeclared.contains(x));
    }
}

/// Each further statement that alters, drops or replaces an object that is not in the catalog
/// adds it to the released ones.
pub proof fn law_released_objects_in_turn(
    catalog: Map<Seq<char>, FragmentIdView>,
    stmts: Seq<StatementView>,
    stmt: StatementView,
)
    ensures
        touched_released(catalog, Seq::<StatementView>::empty()).len() == 0,
        touched_released(catalog, stmts.push(stmt)) == (if !catalog.contains_key(stmt.signature)
            && (stmt.verb == "ALTER"@ || stmt.verb == "DROP"@ || stmt.verb == "CREATE OR REPLACE"@) {
            touched_released(catalog, stmts).push(stmt.signature)
        } else {
            touched_released(catalog, stmts)
        }),
{
    assert(stmts.push(stmt).drop_last() =~= stmts);
}

/// Fragments are checked in turn, in the order in which they are listed: those among the
/// changed files, or all of them.
pub proof fn law_fragments_are_checked_in_turn(
    catalog: Map<Seq<char>, FragmentIdView>,
    fs: Seq<FragmentView>,
    f: FragmentView,
    changed: Option<Seq<Seq<char>>>,
    deny_mixed: bool,
)
    ensures
        targeted_issues(catalog, Seq::<FragmentView>::empty(), changed, deny_mixed).len() == 0,
        targeted_issues(catalog, fs.push(f), changed, deny_mixed) == (if changed is None || (
        changed->0).contains(f.filename) {
            targeted_issues(catalog, fs, changed, deny_mixed) + fragment_issues(
                catalog,
                f,
                deny_mixed,
            )
        } else {
            targeted_issues(catalog, fs, changed, deny_mixed)
        }),
{
    assert(fs.push(f).drop_last() =~= fs);
}

/// A circle is one finding, on the directory, in these words; and without one there are the
/// findings on the fragments.
pub proof fn law_circle_finding(
    directory: Seq<char>,
    fs: Seq<FragmentView>,
    changed: Option<Seq<Seq<char>>>,
    deny_mixed: bool,
)
    ensures
        !is_acyclic(fs) ==> lint_issues(directory, fs, changed, deny_mixed) == seq![
            (IssueView {
                file: directory,
                filename: "unreleased"@,
                rule: LintRule::DagCycle,
                message: "circular or unresolved dependency among migration fragments: "@ + join(
                    stuck_names(fs, fs.len()),
                    ", "@,
                ),
            }),
        ],
        is_acyclic(fs) ==> lint_issues(directory, fs, changed, deny_mixed) == targeted_issues(
            unreleased_objects(pick(fs, apply_order(fs))),
            fs,
            changed,
            deny_mixed,
        ),
{
}

/// The findings on undeclared dependencies ascend by the fragment that is not declared.
pub proof fn law_findings_ascend(
    catalog: Map<Seq<char>, FragmentIdView>,
    f: FragmentView,
) -> (owners: Seq<FragmentIdView>)
    ensures
        fragment_issues(catalog, f, false).len() == owners.len(),
        forall|i: int|
            0 <= i < owners.len() ==> (#[trigger] fragment_issues(catalog, f, false)[i]).message
                == "Fragment touches unreleased object(s) from fragment `"@ + id_text(owners[i])
                + "` but does not declare '-- depends-on: "@ + id_text(owners[i]) + "'"@,
        forall|i: int, j: int|
            0 <= i < j < owners.len() ==> id_less(#[trigger] owners[i], #[trigger] owners[j]),
{
    let stmts = content_statements(f.sql_content);
    let all = touched_owners(catalog, f.id, stmts);
    law_touched_owners(catalog, f.id, stmts);
    lemma_undeclared_owners(f, all, all.len())
}

proof fn lemma_undeclared_owners(
    f: FragmentView,
    all: Seq<FragmentIdView>,
    n: nat,
) -> (owners: Seq<FragmentIdView>)
    requires
        n <= all.len(),
        ids_ascend(all),
    ensures
        undeclared_issues(f, all, n).len() == owners.len(),
        forall|i: int|
            0 <= i < owners.len() ==> #[trigger] undeclared_issues(f, all, n)[i]
                == undeclared_issue(f, owners[i]),
        forall|i: int, j: int|
            0 <= i < j < owners.len() ==> id_less(#[trigger] owners[i], #[trigger] owners[j]),
        n < all.len() ==> forall|i: int|
            0 <= i < owners.len() ==> id_less(#[trigger] owners[i], all[n as int]),
    decreases n,
{
    if n == 0 {
        seq![]
    } else {
        let m = (n - 1) as nat;
        let head = lemma_undeclared_owners(f, all, m);
        let earlier = undeclared_issues(f, all, m);
        if is_declared(f.dependencies, all[n - 1]) {
            assert forall|i: int| n < all.len() && 0 <= i < head.len() implies id_less(
                #[trigger] head[i],
                all[n as int],
            ) by {
                lemma_id_less_transitive(head[i], all[n - 1], all[n as int]);
            }
            head
        } else {
            let owners = head.push(all[n - 1]);
            assert forall|i: int| 0 <= i < owners.len() implies #[trigger] undeclared_issues(
                f,
                all,
                n,
            )[i] == undeclared_issue(f, owners[i]) by {
                if i < head.len() {
                    assert(undeclared_issues(f, all, n)[i] == earlier[i]);
                }
            }
            assert forall|i: int| n < all.len() && 0 <= i < owners.len() implies id_less(
                #[trigger] owners[i],
                all[n as int],
            ) by {
                if i < head.len() {
                    lemma_id_less_transitive(head[i], all[n - 1], all[n as int]);
                }
            }
            owners
        }
    }
}

/// A check is limited to changed files exactly where there is a base to compare with.
pub proof fn law_scope(config: LintConfig, changed: Seq<Seq<char>>)
    ensures
        config.base_ref is Some ==> scope(config, changed) == Some(changed),
        config.base_ref is None ==> scope(config, changed) is None,
{
}

/// The contents of findings are all of their parts, for each of them in its place.
pub proof fn law_finding_contents(v: Seq<DiagnosticIssue>, i: int)
    requires
        0 <= i < v.len(),
    ensures
        issue_views(v).len() == v.len(),
        issue_views(v)[i].file == v[i].file@,
        issue_views(v)[i].filename == v[i].filename@,
        issue_views(v)[i].rule == v[i].rule,
        issue_views(v)[i].message == v[i].message@,
{
}

}
