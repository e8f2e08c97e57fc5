//! The fragments in a directory.

use vstd::prelude::*;
use vstd::string::*;
use crate::error::{optional_text, ErrorView, MigrateError};
use crate::fragment::{
    are_told_apart, content_dependencies, fragment_id, fragment_views, id_text,
    law_filename_ids_are_told_apart, parse_depends_on, parse_fragment_id, DependencyView,
    FragmentView, MigrationFragment,
};
use crate::order::{
    apply_order, distinct_filenames, is_acyclic, law_each_dependency_comes_first,
    law_placed_or_stuck, law_sorting_rearranges, pick, stuck_names, topological_sort_fragments,
};
use crate::text::{chars_of, ends_with, ends_with_text};
use crate::version::optional_str;

verus! {

/// One entry of a directory: what it is called, if that is text, whether it is a file,
/// and what it holds, if it was read.
#[derive(Debug, Clone, PartialEq, Eq)]
pub struct DirectoryEntry {
    pub path: String,
    pub filename: Option<String>,
    pub is_file: bool,
    pub content: Option<String>,
}

/// The contents of a `DirectoryEntry`.
pub struct EntryView {
    pub path: Seq<char>,
    pub filename: Option<Seq<char>>,
    pub is_file: bool,
    pub content: Option<Seq<char>>,
}

impl View for DirectoryEntry {
    type V = EntryView;

    open spec fn view(&self) -> EntryView {
        EntryView {
            path: self.path@,
            filename: optional_text(self.filename),
            is_file: self.is_file,
            content: optional_text(self.content),
        }
    }
}

/// The contents of a vector of entries.
pub open spec fn entry_views(v: Seq<DirectoryEntry>) -> Seq<EntryView> {
    Seq::new(v.len(), |i: int| v[i]@)
}

/// Whether a file of this name is a fragment: an SQL file that is not hidden.
pub open spec fn is_fragment_name(name: Seq<char>) -> bool {
    !(name.len() > 0 && name[0] == '.') && ends_with(name, ".sql"@)
}

/// Whether an entry is a fragment.
pub open spec fn is_fragment_entry(e: EntryView) -> bool {
    e.is_file && (e.filename matches Some(name) && is_fragment_name(name))
}

/// The fragment with the given path, name and content.
pub open spec fn fragment_from(
    path: Seq<char>,
    filename: Seq<char>,
    content: Seq<char>,
) -> FragmentView {
    FragmentView {
        path,
        filename,
        id: fragment_id(filename),
        dependencies: content_dependencies(content),
        sql_content: content,
    }
}

/// The fragments among the entries.
pub open spec fn entry_fragments(es: Seq<EntryView>) -> Seq<FragmentView>
    decreases es.len(),
{
    if es.len() == 0 {
        seq![]
    } else {
        let earlier = entry_fragments(es.drop_last());
        let e = es.last();
        if is_fragment_entry(e) {
            earlier.push(fragment_from(e.path, e.filename->0, e.content->0))
        } else {
            earlier
        }
    }
}

/// The path of the first fragment among the entries that was not read.
pub open spec fn unreadable_path(es: Seq<EntryView>) -> Option<Seq<char>>
    decreases es.len(),
{
    if es.len() == 0 {
        None
    } else {
        match unreadable_path(es.drop_last()) {
            Some(path) => Some(path),
            None => if is_fragment_entry(es.last()) && es.last().content is None {
                Some(es.last().path)
            } else {
                None
            },
        }
    }
}

/// The fragments among the entries, in the order in which they are applied.
pub open spec fn collected(es: Seq<EntryView>) -> Result<Seq<FragmentView>, ErrorView> {
    let fs = entry_fragments(es);
    match unreadable_path(es) {
        Some(path) => Err(ErrorView::UnreadableFragment { path }),
        None => if is_acyclic(fs) {
            Ok(pick(fs, apply_order(fs)))
        } else {
            Err(ErrorView::CircularDependency { filenames: stuck_names(fs, fs.len()) })
        },
    }
}

/// Tells whether a file of this name is a fragment.
pub fn is_fragment_filename(name: &str) -> (r: bool)
    ensures
        r == is_fragment_name(name@),
{
    let chars = chars_of(name);
    !(chars.len() > 0 && chars[0] == '.') && ends_with_text(&chars, ".sql")
}

/// Makes a fragment of a file: its path, its name, if that is text, and its content, if
/// it could be read.
pub fn load_fragment(path: &str, filename: Option<&str>, sql_content: Option<&str>) -> (r: Result<
    MigrationFragment,
    MigrateError,
>)
    ensures
        match (optional_str(filename), optional_str(sql_content), r) {
            (None, _, Err(e)) => e@ == (ErrorView::InvalidFilename { path: path@ }),
            (Some(_), None, Err(e)) => e@ == (ErrorView::UnreadableFragment { path: path@ }),
            (Some(name), Some(content), Ok(f)) => f@ == fragment_from(path@, name, content),
            _ => false,
        },
{
    let name = match filename {
        Some(name) => name,
        None => return Err(MigrateError::InvalidFilename { path: path.to_owned() }),
    };
    let content = match sql_content {
        Some(content) => content,
        None => return Err(MigrateError::UnreadableFragment { path: path.to_owned() }),
    };
    Ok(
        MigrationFragment {
            path: path.to_owned(),
            filename: name.to_owned(),
            id: parse_fragment_id(name),
            dependencies: parse_depends_on(content),
            sql_content: content.to_owned(),
        },
    )
}

/// What the first entries determine stays as it is.
proof fn lemma_unreadable_stays(es: Seq<EntryView>, k: int)
    requires
        0 <= k <= es.len(),
        unreadable_path(es.take(k)) is Some,
    ensures
        unreadable_path(es) == unreadable_path(es.take(k)),
    decreases es.len() - k,
{
    if k < es.len() {
        assert(es.take(k + 1).drop_last() =~= es.take(k));
        lemma_unreadable_stays(es, k + 1);
    } else {
        assert(es.take(k) =~= es);
    }
}

/// Makes fragments of the entries of a directory, in the order of the entries.
pub fn load_fragments(entries: &Vec<DirectoryEntry>) -> (r: Result<
    Vec<MigrationFragment>,
    MigrateError,
>)
    ensures
        match (unreadable_path(entry_views(entries@)), r) {
            (None, Ok(fragments)) => fragment_views(fragments@) == entry_fragments(
                entry_views(entries@),
            ),
            (Some(path), Err(e)) => e@ == (ErrorView::UnreadableFragment { path }),
            _ => false,
        },
{
    let ghost es = entry_views(entries@);
    let mut fragments: Vec<MigrationFragment> = Vec::new();
    let mut i: usize = 0;
    assert(fragment_views(fragments@) =~= seq![]);
    while i < entries.len()
        invariant
            i <= entries@.len(),
            es == entry_views(entries@),
            unreadable_path(es.take(i as int)) is None,
            fragment_views(fragments@) == entry_fragments(es.take(i as int)),
        decreases entries@.len() - i,
    {
        let entry = &entries[i];
        proof {
            assert(es[i as int] == entry@);
            assert(es.take(i + 1).drop_last() =~= es.take(i as int));
        }
        if entry.is_file {
            if let Some(name) = &entry.filename {
                if is_fragment_filename(name.as_str()) {
                    let content = match &entry.content {
                        Some(content) => Some(content.as_str()),
                        None => None,
                    };
                    match load_fragment(entry.path.as_str(), Some(name.as_str()), content) {
                        Ok(f) => {
                            let ghost earlier = fragments@;
                            fragments.push(f);
                            assert(fragment_views(fragments@) =~= fragment_views(earlier).push(f@));
                        },
                        Err(e) => {
                            proof {
                                lemma_unreadable_stays(es, i + 1);
                            }
                            return Err(e);
                        },
                    }
                }
            }
        }
        i += 1;
    }
    assert(es.take(i as int) =~= es);
    Ok(fragments)
}

/// The fragments in a directory, in the order in which they are applied.
pub fn collect_fragments_from_dir(entries: &Vec<DirectoryEntry>) -> (r: Result<
    Vec<MigrationFragment>,
    MigrateError,
>)
    ensures
        match (collected(entry_views(entries@)), r) {
            (Ok(fs), Ok(fragments)) => fragment_views(fragments@) == fs,
            (Err(x), Err(e)) => e@ == x,
            _ => false,
        },
{
    match load_fragments(entries) {
        Ok(fragments) => {
            assert(fragments@.len() == fragment_views(fragments@).len());
            topological_sort_fragments(fragments)
        },
        Err(e) => Err(e),
    }
}

// ---------------------------------------------------------------------------
// Laws
// ---------------------------------------------------------------------------

/// A fragment among the entries has a fragment's name, and the identifier that this gives.
proof fn lemma_entry_fragments(es: Seq<EntryView>)
    ensures
        forall|i: int|
            0 <= i < entry_fragments(es).len() ==> is_fragment_name(
                (#[trigger] entry_fragments(es)[i]).filename,
            ) && entry_fragments(es)[i].id == fragment_id(entry_fragments(es)[i].filename),
    decreases es.len(),
{
    if es.len() > 0 {
        let earlier = entry_fragments(es.drop_last());
        let all = entry_fragments(es);
        lemma_entry_fragments(es.drop_last());
        assert forall|i: int| 0 <= i < all.len() implies is_fragment_name(
            (#[trigger] all[i]).filename,
        ) && all[i].id == fragment_id(all[i].filename) by {
            if i < earlier.len() {
                assert(all[i] == earlier[i]);
            }
        }
    }
}

/// The identifiers of the fragments in a directory are told apart by their texts.
pub proof fn law_entry_ids_are_told_apart(es: Seq<EntryView>)
    ensures
        are_told_apart(entry_fragments(es)),
{
    let fs = entry_fragments(es);
    lemma_entry_fragments(es);
    assert forall|i: int, j: int|
        0 <= i < fs.len() && 0 <= j < fs.len() && id_text((#[trigger] fs[i]).id) == id_text(
            (#[trigger] fs[j]).id,
        ) implies fs[i].id == fs[j].id by {
        lemma_fragment_name_has_dot(fs[i].filename);
        lemma_fragment_name_has_dot(fs[j].filename);
        law_filename_ids_are_told_apart(fs[i].filename, fs[j].filename);
    }
}

proof fn lemma_fragment_name_has_dot(name: Seq<char>)
    requires
        is_fragment_name(name),
    ensures
        name.contains('.'),
{
    reveal_strlit(".sql");
    let k = name.len() - 4;
    assert(name.skip(k)[0] == name[k]);
}

/// Fragments are the files whose names end in `.sql` with something before that, which does
/// not begin with a dot.
pub proof fn law_fragment_names(stem: Seq<char>, name: Seq<char>)
    ensures
        is_fragment_name(stem + ".sql"@) <==> stem.len() > 0 && stem[0] != '.',
        is_fragment_name(name) ==> name.len() > 4 && name == name.take(name.len() - 4) + ".sql"@,
{
    reveal_strlit(".sql");
    let whole = stem + ".sql"@;
    assert(whole.skip(whole.len() - 4) =~= ".sql"@);
    if is_fragment_name(name) {
        assert(name.skip(name.len() - 4)[0] == name[name.len() - 4]);
        assert(name =~= name.take(name.len() - 4) + name.skip(name.len() - 4));
    }
}

/// A file with a fragment's name is loaded once, after those before it: with its path, its
/// name, the identifier that this gives, the dependencies that it declares, and its text as
/// it is. No other entry is loaded.
pub proof fn law_entries_are_loaded_in_turn(es: Seq<EntryView>, e: EntryView)
    ensures
        entry_fragments(seq![]) == Seq::<FragmentView>::empty(),
        e.is_file && e.filename is Some && is_fragment_name(e.filename->0) ==> {
            let all = entry_fragments(es.push(e));
            &&& all.len() == entry_fragments(es).len() + 1
            &&& all.drop_last() == entry_fragments(es)
            &&& all.last().path == e.path
            &&& all.last().filename == e.filename->0
            &&& all.last().id == fragment_id(e.filename->0)
            &&& all.last().dependencies == content_dependencies(e.content->0)
            &&& all.last().sql_content == e.content->0
        },
        !e.is_file || e.filename is None || !is_fragment_name(e.filename->0) ==> entry_fragments(
            es.push(e),
        ) == entry_fragments(es),
{
    assert(es.push(e).drop_last() =~= es);
    assert(entry_fragments(es.push(e)).drop_last() =~= entry_fragments(es) || entry_fragments(
        es.push(e),
    ) == entry_fragments(es));
}

/// Collecting fails on a file with a fragment's name that could not be read, and names the
/// first one. It takes no notice of other entries that could not be read.
pub proof fn law_unread_files(es: Seq<EntryView>, k: int)
    requires
        0 <= k <= es.len(),
        forall|i: int|
            0 <= i < k ==> (#[trigger] es[i]).content is Some || !es[i].is_file || es[i].filename
                is None || !is_fragment_name(es[i].filename->0),
    ensures
        k == es.len() ==> !(collected(es) matches Err(ErrorView::UnreadableFragment { path })),
        k < es.len() && es[k].is_file && es[k].filename is Some && is_fragment_name(
            es[k].filename->0,
        ) && es[k].content is None ==> collected(es) == Err::<Seq<FragmentView>, ErrorView>(
            ErrorView::UnreadableFragment { path: es[k].path },
        ),
{
    lemma_all_read(es, k);
    assert(es.take(es.len() as int) =~= es);
    if k < es.len() {
        assert(es.take(k + 1).drop_last() =~= es.take(k));
        assert(es.take(k + 1).last() == es[k]);
        if unreadable_path(es.take(k + 1)) is Some {
            lemma_unreadable_stays(es, k + 1);
        }
    }
}

proof fn lemma_all_read(es: Seq<EntryView>, k: int)
    requires
        0 <= k <= es.len(),
        forall|i: int|
            0 <= i < k ==> (#[trigger] es[i]).content is Some || !es[i].is_file || es[i].filename
                is None || !is_fragment_name(es[i].filename->0),
    ensures
        unreadable_path(es.take(k)) is None,
    decreases k,
{
    if k > 0 {
        lemma_all_read(es, k - 1);
        assert(es.take(k).drop_last() =~= es.take(k - 1));
        assert(es.take(k).last() == es[k - 1]);
    }
}

/// What is collected from a directory is what was loaded, each fragment in one place, and
/// wherever a fragment lists another one, by identifier or by file name, that one stands
/// before it.
pub proof fn law_collected_fragments(es: Seq<EntryView>) -> (order: Seq<int>)
    requires
        collected(es) is Ok,
    ensures
        collected(es)->Ok_0.len() == entry_fragments(es).len(),
        order.len() == entry_fragments(es).len(),
        order.no_duplicates(),
        forall|i: int| 0 <= i < order.len() ==> #[trigger] order.contains(i),
        forall|k: int|
            0 <= k < order.len() ==> 0 <= #[trigger] order[k] < order.len() && collected(es)->Ok_0[k]
                == entry_fragments(es)[order[k]],
        forall|a: int, b: int, d: int|
            #![trigger collected(es)->Ok_0[a], collected(es)->Ok_0[b].dependencies[d]]
            0 <= a < order.len() && 0 <= b < order.len() && a != b && 0 <= d < collected(
                es,
            )->Ok_0[b].dependencies.len() ==> {
                &&& collected(es)->Ok_0[b].dependencies[d] == DependencyView::Id(
                    collected(es)->Ok_0[a].id,
                ) ==> a < b
                &&& distinct_filenames(entry_fragments(es)) && collected(
                    es,
                )->Ok_0[b].dependencies[d] == DependencyView::Filename(
                    collected(es)->Ok_0[a].filename,
                ) ==> a < b
            },
{
    let fs = entry_fragments(es);
    let sorted = collected(es)->Ok_0;
    law_sorting_rearranges(fs);
    assert forall|k: int| 0 <= k < fs.len() implies 0 <= #[trigger] apply_order(fs)[k] < fs.len()
        && sorted[k] == fs[apply_order(fs)[k]] by {
        law_placed_or_stuck(fs);
        assert(pick(fs, apply_order(fs))[k] == fs[apply_order(fs)[k]]);
    }
    assert forall|a: int, b: int, d: int|
        #![trigger sorted[a], sorted[b].dependencies[d]]
        0 <= a < fs.len() && 0 <= b < fs.len() && a != b && 0 <= d
            < sorted[b].dependencies.len() implies {
        &&& sorted[b].dependencies[d] == DependencyView::Id(sorted[a].id) ==> a < b
        &&& distinct_filenames(fs) && sorted[b].dependencies[d] == DependencyView::Filename(
            sorted[a].filename,
        ) ==> a < b
    } by {
        law_each_dependency_comes_first(fs, a, b, d);
    }
    apply_order(fs)
}

/// The contents of entries are all of their parts, for each of them in its place.
pub proof fn law_entry_contents(v: Seq<DirectoryEntry>, i: int)
    requires
        0 <= i < v.len(),
    ensures
        entry_views(v).len() == v.len(),
        entry_views(v)[i].path == v[i].path@,
        entry_views(v)[i].is_file == v[i].is_file,
        v[i].filename matches Some(name) ==> entry_views(v)[i].filename == Some(name@),
        v[i].filename is None ==> entry_views(v)[i].filename is None,
        v[i].content matches Some(content) ==> entry_views(v)[i].content == Some(content@),
        v[i].content is None ==> entry_views(v)[i].content is None,
{
}

}
