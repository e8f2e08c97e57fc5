//! Which fragments changed since a base, as `git` tells it.

use vstd::prelude::*;
use vstd::string::*;
use crate::error::{ErrorView, MigrateError};
use crate::text::{
    chars_of, ends_with, ends_with_text, is_space, law_trim, rows, split, split_chars,
    string_of, texts, trim, trim_chars, trim_text,
};
use crate::version::optional_str;

verus! {

/// What to compare with: the common ancestor that `git` found, or else the base itself.
pub open spec fn diff_base(base_ref: Seq<char>, merge_base: Option<Seq<char>>) -> Seq<char> {
    match merge_base {
        Some(output) => if trim(output).len() > 0 {
            trim(output)
        } else {
            base_ref
        },
        None => base_ref,
    }
}

/// The arguments that ask `git` for the common ancestor of a base and the current state.
pub open spec fn merge_base_arguments(base_ref: Seq<char>) -> Seq<Seq<char>> {
    seq!["merge-base"@, base_ref, "HEAD"@]
}

/// The arguments that ask `git` for the files that were added or modified, by their paths
/// from the directory in which it runs.
pub open spec fn diff_arguments(base: Seq<char>) -> Seq<Seq<char>> {
    seq!["diff"@, "--name-only"@, "--relative"@, "--diff-filter=AM"@, base + "...HEAD"@]
}

/// The SQL files among the lines of an output.
pub open spec fn sql_lines(lines: Seq<Seq<char>>) -> Seq<Seq<char>>
    decreases lines.len(),
{
    if lines.len() == 0 {
        seq![]
    } else {
        let earlier = sql_lines(lines.drop_last());
        let name = trim(lines.last());
        if name.len() > 0 && ends_with(name, ".sql"@) {
            earlier.push(name)
        } else {
            earlier
        }
    }
}

/// Chooses what to compare with, by what `git` printed when asked for the common ancestor,
/// if it succeeded.
pub fn choose_diff_base(base_ref: &str, merge_base: Option<&str>) -> (r: String)
    ensures
        r@ == diff_base(base_ref@, optional_str(merge_base)),
{
    if let Some(output) = merge_base {
        let ancestor = trim_text(output);
        if ancestor.as_str().unicode_len() > 0 {
            return ancestor;
        }
    }
    base_ref.to_owned()
}

/// Lists the arguments that ask `git` for the common ancestor.
pub fn list_merge_base_arguments(base_ref: &str) -> (r: Vec<String>)
    ensures
        texts(r@) == merge_base_arguments(base_ref@),
{
    let mut out: Vec<String> = Vec::new();
    out.push("merge-base".to_owned());
    out.push(base_ref.to_owned());
    out.push("HEAD".to_owned());
    assert(texts(out@) =~= merge_base_arguments(base_ref@));
    out
}

/// Lists the arguments that ask `git` for the changed files.
pub fn list_diff_arguments(base: &str) -> (r: Vec<String>)
    ensures
        texts(r@) == diff_arguments(base@),
{
    let mut range = base.to_owned();
    range.append("...HEAD");
    let mut out: Vec<String> = Vec::new();
    out.push("diff".to_owned());
    out.push("--name-only".to_owned());
    out.push("--relative".to_owned());
    out.push("--diff-filter=AM".to_owned());
    out.push(range);
    assert(texts(out@) =~= diff_arguments(base@));
    out
}

/// Reads the SQL files that `git` printed, or tells that it failed.
pub fn changed_sql_files(succeeded: bool, stdout: &str, stderr: &str) -> (r: Result<
    Vec<String>,
    MigrateError,
>)
    ensures
        match r {
            Ok(files) => succeeded && texts(files@) == sql_lines(split(stdout@, '\n')),
            Err(e) => !succeeded && e@ == (ErrorView::GitDiffFailed { output: stderr@ }),
        },
{
    if !succeeded {
        return Err(MigrateError::GitDiffFailed { output: stderr.to_owned() });
    }
    let lines = split_chars(&chars_of(stdout), '\n');
    let ghost all = split(stdout@, '\n');
    let mut files: Vec<String> = Vec::new();
    let mut i: usize = 0;
    assert(texts(files@) =~= seq![]);
    while i < lines.len()
        invariant
            i <= lines@.len(),
            rows(lines@) == all,
            texts(files@) == sql_lines(all.take(i as int)),
        decreases lines@.len() - i,
    {
        let name = trim_chars(&lines[i]);
        proof {
            assert(lines@[i as int]@ == all[i as int]);
            assert(all.take(i + 1).drop_last() =~= all.take(i as int));
        }
        if name.len() > 0 && ends_with_text(&name, ".sql") {
            let ghost earlier = files@;
            files.push(string_of(&name));
            assert(texts(files@) =~= texts(earlier).push(name@));
        }
        i += 1;
    }
    assert(all.take(i as int) =~= all);
    Ok(files)
}

/// A changed file on disk: its resolved path, if it can be resolved, and whether that is
/// in the directory of fragments; its path as printed, and whether that is in it.
#[derive(Debug, Clone, PartialEq, Eq)]
pub struct ChangedFile {
    pub resolved: Option<String>,
    pub resolved_in_dir: bool,
    pub printed: String,
    pub printed_in_dir: bool,
}

/// The path of a changed file, if it is in the directory of fragments.
pub open spec fn fragment_path(file: ChangedFile) -> Option<Seq<char>> {
    match file.resolved {
        Some(path) => if file.resolved_in_dir {
            Some(path@)
        } else {
            None
        },
        None => if file.printed_in_dir {
            Some(file.printed@)
        } else {
            None
        },
    }
}

/// The paths of the changed files that are in the directory of fragments.
pub open spec fn fragment_paths(files: Seq<ChangedFile>) -> Seq<Seq<char>>
    decreases files.len(),
{
    if files.len() == 0 {
        seq![]
    } else {
        let earlier = fragment_paths(files.drop_last());
        match fragment_path(files.last()) {
            Some(path) => earlier.push(path),
            None => earlier,
        }
    }
}

/// Lists the changed files that are in the directory of fragments.
pub fn get_changed_fragment_files(files: &Vec<ChangedFile>) -> (r: Vec<String>)
    ensures
        texts(r@) == fragment_paths(files@),
{
    let mut paths: Vec<String> = Vec::new();
    let mut i: usize = 0;
    assert(texts(paths@) =~= seq![]);
    while i < files.len()
        invariant
            i <= files@.len(),
            texts(paths@) == fragment_paths(files@.take(i as int)),
        decreases files@.len() - i,
    {
        let file = &files[i];
        proof {
            assert(files@.take(i + 1).drop_last() =~= files@.take(i as int));
            assert(files@.take(i + 1).last() == *file);
        }
        let path = match &file.resolved {
            Some(path) => if file.resolved_in_dir {
                Some(path.clone())
            } else {
                None
            },
            None => if file.printed_in_dir {
                Some(file.printed.clone())
            } else {
                None
            },
        };
        if let Some(path) = path {
            let ghost earlier = paths@;
            paths.push(path);
            assert(texts(paths@) =~= texts(earlier).push(path@));
        }
        i += 1;
    }
    assert(files@.take(i as int) =~= files@);
    paths
}

// ---------------------------------------------------------------------------
// Laws
// ---------------------------------------------------------------------------

/// The comparison is with the common ancestor, without the white space around it. Where
/// `git` failed or printed nothing but white space, it is with the base as it was given.
pub proof fn law_diff_base(
    base_ref: Seq<char>,
    left: Seq<char>,
    ancestor: Seq<char>,
    right: Seq<char>,
)
    requires
        forall|k: int| 0 <= k < left.len() ==> is_space(#[trigger] left[k]),
        forall|k: int| 0 <= k < right.len() ==> is_space(#[trigger] right[k]),
        ancestor.len() > 0 ==> !is_space(ancestor[0]) && !is_space(ancestor.last()),
    ensures
        diff_base(base_ref, None) == base_ref,
        ancestor.len() > 0 ==> diff_base(base_ref, Some(left + ancestor + right)) == ancestor,
        ancestor.len() == 0 ==> diff_base(base_ref, Some(left + ancestor + right)) == base_ref,
{
    law_trim(left, ancestor, right);
}

/// The ancestor is asked for with the base and the current state, and the files with the
/// range between them. Only added and modified files are asked for, by their names, as seen
/// from the current directory.
pub proof fn law_git_arguments(base: Seq<char>)
    ensures
        merge_base_arguments(base) == seq!["merge-base"@, base, "HEAD"@],
        diff_arguments(base).len() == 5,
        diff_arguments(base)[0] == "diff"@,
        diff_arguments(base).contains("--name-only"@),
        diff_arguments(base).contains("--relative"@),
        diff_arguments(base).contains("--diff-filter=AM"@),
        diff_arguments(base).last() == base + "...HEAD"@,
{
    let all = diff_arguments(base);
    assert(all[1] == "--name-only"@ && all[2] == "--relative"@ && all[3] == "--diff-filter=AM"@);
}

/// Lines are read in turn: one that ends in `.sql`, but for the white space around it, adds
/// its name, and any other adds nothing.
pub proof fn law_lines_are_read_in_turn(
    lines: Seq<Seq<char>>,
    left: Seq<char>,
    name: Seq<char>,
    right: Seq<char>,
)
    requires
        forall|k: int| 0 <= k < left.len() ==> is_space(#[trigger] left[k]),
        forall|k: int| 0 <= k < right.len() ==> is_space(#[trigger] right[k]),
        name.len() > 0 ==> !is_space(name[0]) && !is_space(name.last()),
    ensures
        sql_lines(seq![]) == Seq::<Seq<char>>::empty(),
        (exists|stem: Seq<char>| name == #[trigger] (stem + ".sql"@)) ==> sql_lines(
            lines.push(left + name + right),
        ) == sql_lines(lines).push(name),
        !(exists|stem: Seq<char>| name == #[trigger] (stem + ".sql"@)) ==> sql_lines(
            lines.push(left + name + right),
        ) == sql_lines(lines),
{
    reveal_strlit(".sql");
    law_trim(left, name, right);
    assert(lines.push(left + name + right).drop_last() =~= lines);
    if exists|stem: Seq<char>| name == #[trigger] (stem + ".sql"@) {
        let stem = choose|stem: Seq<char>| name == #[trigger] (stem + ".sql"@);
        assert(name.skip(name.len() - 4) =~= ".sql"@);
    } else if ends_with(name, ".sql"@) {
        assert(name =~= name.take(name.len() - 4) + ".sql"@);
    }
}

/// Changed files are looked at in turn. One that can be resolved counts where what it
/// resolves to is in the directory of fragments, and then by that path, whatever was printed.
/// One that cannot counts where the printed path is in it, and then by the printed path.
pub proof fn law_changed_files_in_turn(files: Seq<ChangedFile>, file: ChangedFile)
    ensures
        fragment_paths(seq![]) == Seq::<Seq<char>>::empty(),
        file.resolved is Some && file.resolved_in_dir ==> fragment_paths(files.push(file))
            == fragment_paths(files).push(file.resolved->0@),
        file.resolved is Some && !file.resolved_in_dir ==> fragment_paths(files.push(file))
            == fragment_paths(files),
        file.resolved is None && file.printed_in_dir ==> fragment_paths(files.push(file))
            == fragment_paths(files).push(file.printed@),
        file.resolved is None && !file.printed_in_dir ==> fragment_paths(files.push(file))
            == fragment_paths(files),
{
    assert(files.push(file).drop_last() =~= files);
}

}
