//! What can go wrong, and how it is put into words.

use vstd::prelude::*;
use vstd::string::*;
use crate::number::{decimal, decimal_of};
use crate::text::{join, join_texts, law_join, texts};

verus! {

/// Why a plan, a check or an assembly was refused.
#[derive(Debug, Clone, PartialEq, Eq)]
pub enum MigrateError {
    /// Fragments that wait for each other, or for fragments that do.
    CircularDependency { filenames: Vec<String> },
    /// A fragment whose path ends in no file name that is text.
    InvalidFilename { path: String },
    /// A fragment that could not be read.
    UnreadableFragment { path: String },
    /// A target version that is no version.
    InvalidTargetVersion { version: String },
    /// Nothing tells which version comes before the target.
    NoPreviousVersion { target: String },
    /// Nothing tells which version to go to.
    NoTargetVersion,
    /// There is nothing to assemble.
    NoFragments { directory: String },
    /// The control file that should be updated is in none of the places.
    NoControlFile { filename: String, output_dir: Option<String>, crate_dir: Option<String> },
    /// Fragments are left where none may be.
    UnreleasedFragments { directory: String },
    /// Nothing tells the version of a script that is made for development.
    NoEphemeralVersion,
    /// `git diff` reported a failure.
    GitDiffFailed { output: String },
    /// The check found problems.
    LintFailed { count: usize },
}

/// The contents of a `MigrateError`.
pub enum ErrorView {
    CircularDependency { filenames: Seq<Seq<char>> },
    InvalidFilename { path: Seq<char> },
    UnreadableFragment { path: Seq<char> },
    InvalidTargetVersion { version: Seq<char> },
    NoPreviousVersion { target: Seq<char> },
    NoTargetVersion,
    NoFragments { directory: Seq<char> },
    NoControlFile {
        filename: Seq<char>,
        output_dir: Option<Seq<char>>,
        crate_dir: Option<Seq<char>>,
    },
    UnreleasedFragments { directory: Seq<char> },
    NoEphemeralVersion,
    GitDiffFailed { output: Seq<char> },
    LintFailed { count: nat },
}

/// The contents of a string that may be missing.
pub open spec fn optional_text(s: Option<String>) -> Option<Seq<char>> {
    match s {
        Some(t) => Some(t@),
        None => None,
    }
}

impl View for MigrateError {
    type V = ErrorView;

    open spec fn view(&self) -> ErrorView {
        match *self {
            MigrateError::CircularDependency { filenames } => ErrorView::CircularDependency {
                filenames: texts(filenames@),
            },
            MigrateError::InvalidFilename { path } => ErrorView::InvalidFilename { path: path@ },
            MigrateError::UnreadableFragment { path } => ErrorView::UnreadableFragment {
                path: path@,
            },
            MigrateError::InvalidTargetVersion { version } => ErrorView::InvalidTargetVersion {
                version: version@,
            },
            MigrateError::NoPreviousVersion { target } => ErrorView::NoPreviousVersion {
                target: target@,
            },
            MigrateError::NoTargetVersion => ErrorView::NoTargetVersion,
            MigrateError::NoFragments { directory } => ErrorView::NoFragments {
                directory: directory@,
            },
            MigrateError::NoControlFile {
                filename,
                output_dir,
                crate_dir,
            } => ErrorView::NoControlFile {
                filename: filename@,
                output_dir: optional_text(output_dir),
                crate_dir: optional_text(crate_dir),
            },
            MigrateError::UnreleasedFragments { directory } => ErrorView::UnreleasedFragments {
                directory: directory@,
            },
            MigrateError::NoEphemeralVersion => ErrorView::NoEphemeralVersion,
            MigrateError::GitDiffFailed { output } => ErrorView::GitDiffFailed { output: output@ },
            MigrateError::LintFailed { count } => ErrorView::LintFailed { count: count as nat },
        }
    }
}

/// A place to look in, or that there is none.
pub open spec fn place_text(place: Option<Seq<char>>) -> Seq<char> {
    match place {
        Some(p) => p,
        None => "<none>"@,
    }
}

/// The error in words.
pub open spec fn error_text(e: ErrorView) -> Seq<char> {
    match e {
        ErrorView::CircularDependency { filenames } =>
            "circular or unresolved dependency among migration fragments: "@ + join(
            filenames,
            ", "@,
        ),
        ErrorView::InvalidFilename { path } => "invalid filename for fragment at `"@ + path + "`"@,
        ErrorView::UnreadableFragment { path } => "failed to read SQL fragment `"@ + path + "`"@,
        ErrorView::InvalidTargetVersion { version } => "invalid semver for target version `"@
            + version + "`"@,
        ErrorView::NoPreviousVersion { target } =>
            "could not automatically determine previous version for target `"@ + target
            + "`. Specify `--prev-version <VERSION>` explicitly."@,
        ErrorView::NoTargetVersion =>
            "could not automatically determine target version from Cargo.toml or sql/."@,
        ErrorView::NoFragments { directory } => "no unreleased SQL migration fragments found in `"@
            + directory
            + "`. Specify a target version or pass `--allow-empty` to generate a stub upgrade script."@,
        ErrorView::NoControlFile { filename, output_dir, crate_dir } => "could not find `"@
            + filename + "` to update default_version in `"@ + place_text(output_dir) + "` or `"@
            + place_text(crate_dir) + "`"@,
        ErrorView::UnreleasedFragments { directory } =>
            "found unreleased SQL migration fragments in `"@ + directory
            + "`.\nRun `cargo pgrx migrate assemble` before packaging for release, or pass `--assemble-unreleased`."@,
        ErrorView::NoEphemeralVersion =>
            "could not determine version for ephemeral upgrade script"@,
        ErrorView::GitDiffFailed { output } => "git diff failed: "@ + output,
        ErrorView::LintFailed { count } => "migration lint failed with "@ + decimal(count)
            + " error(s)"@,
    }
}

/// A text between two others.
fn framed(before: &str, middle: &str, after: &str) -> (r: String)
    ensures
        r@ == before@ + middle@ + after@,
{
    let mut out = before.to_owned();
    out.append(middle);
    out.append(after);
    out
}

/// Writes a place to look in.
fn place_string(place: &Option<String>) -> (r: String)
    ensures
        r@ == place_text(optional_text(*place)),
{
    match place {
        Some(p) => p.clone(),
        None => "<none>".to_owned(),
    }
}

impl MigrateError {
    /// The error in words.
    pub fn message(&self) -> (r: String)
        ensures
            r@ == error_text(self@),
    {
        match self {
            MigrateError::CircularDependency { filenames } => {
                let mut out =
                    "circular or unresolved dependency among migration fragments: ".to_owned();
                out.append(join_texts(filenames, ", ").as_str());
                out
            },
            MigrateError::InvalidFilename { path } => framed(
                "invalid filename for fragment at `",
                path.as_str(),
                "`",
            ),
            MigrateError::UnreadableFragment { path } => framed(
                "failed to read SQL fragment `",
                path.as_str(),
                "`",
            ),
            MigrateError::InvalidTargetVersion { version } => framed(
                "invalid semver for target version `",
                version.as_str(),
                "`",
            ),
            MigrateError::NoPreviousVersion { target } => framed(
                "could not automatically determine previous version for target `",
                target.as_str(),
                "`. Specify `--prev-version <VERSION>` explicitly.",
            ),
            MigrateError::NoTargetVersion =>
                "could not automatically determine target version from Cargo.toml or sql/.".to_owned(),
            MigrateError::NoFragments { directory } => framed(
                "no unreleased SQL migration fragments found in `",
                directory.as_str(),
                "`. Specify a target version or pass `--allow-empty` to generate a stub upgrade script.",
            ),
            MigrateError::NoControlFile { filename, output_dir, crate_dir } => {
                let mut out = framed(
                    "could not find `",
                    filename.as_str(),
                    "` to update default_version in `",
                );
                out.append(place_string(output_dir).as_str());
                out.append("` or `");
                out.append(place_string(crate_dir).as_str());
                out.append("`");
                out
            },
            MigrateError::UnreleasedFragments { directory } => framed(
                "found unreleased SQL migration fragments in `",
                directory.as_str(),
                "`.\nRun `cargo pgrx migrate assemble` before packaging for release, or pass `--assemble-unreleased`.",
            ),
            MigrateError::NoEphemeralVersion =>
                "could not determine version for ephemeral upgrade script".to_owned(),
            MigrateError::GitDiffFailed { output } => {
                let mut out = "git diff failed: ".to_owned();
                out.append(output.as_str());
                out
            },
            MigrateError::LintFailed { count } => framed(
                "migration lint failed with ",
                decimal_of(*count as u64).as_str(),
                " error(s)",
            ),
        }
    }
}

// ---------------------------------------------------------------------------
// Laws
// ---------------------------------------------------------------------------

/// A message says which file, version or directory it is about.
pub proof fn law_messages_name_their_subject(subject: Seq<char>)
    ensures
        error_text(ErrorView::InvalidFilename { path: subject })
            == "invalid filename for fragment at `"@ + subject + "`"@,
        error_text(ErrorView::UnreadableFragment { path: subject })
            == "failed to read SQL fragment `"@ + subject + "`"@,
        error_text(ErrorView::InvalidTargetVersion { version: subject })
            == "invalid semver for target version `"@ + subject + "`"@,
        error_text(ErrorView::NoPreviousVersion { target: subject })
            == "could not automatically determine previous version for target `"@ + subject
            + "`. Specify `--prev-version <VERSION>` explicitly."@,
        error_text(ErrorView::NoFragments { directory: subject })
            == "no unreleased SQL migration fragments found in `"@ + subject
            + "`. Specify a target version or pass `--allow-empty` to generate a stub upgrade script."@,
        error_text(ErrorView::UnreleasedFragments { directory: subject })
            == "found unreleased SQL migration fragments in `"@ + subject
            + "`.\nRun `cargo pgrx migrate assemble` before packaging for release, or pass `--assemble-unreleased`."@,
        error_text(ErrorView::GitDiffFailed { output: subject }) == "git diff failed: "@ + subject,
{
}

/// The message on a circle grows by a comma and a file name with each file in it.
pub proof fn law_circle_message_names_every_file(filenames: Seq<Seq<char>>, name: Seq<char>)
    ensures
        error_text(ErrorView::CircularDependency { filenames: seq![name] })
            == "circular or unresolved dependency among migration fragments: "@ + name,
        filenames.len() > 0 ==> error_text(
            ErrorView::CircularDependency { filenames: filenames.push(name) },
        ) == error_text(ErrorView::CircularDependency { filenames }) + ", "@ + name,
{
    law_join(filenames, name, ", "@);
    if filenames.len() > 0 {
        assert(error_text(ErrorView::CircularDependency { filenames: filenames.push(name) })
            =~= error_text(ErrorView::CircularDependency { filenames }) + ", "@ + name);
    }
}

/// The message on a missing control file names the file and both places, that of the output
/// first, and says where there is no such place.
pub proof fn law_control_file_message(
    filename: Seq<char>,
    output_dir: Option<Seq<char>>,
    crate_dir: Option<Seq<char>>,
    first: Seq<char>,
    second: Seq<char>,
)
    requires
        output_dir == Some(first) || output_dir is None && first == "<none>"@,
        crate_dir == Some(second) || crate_dir is None && second == "<none>"@,
    ensures
        error_text(ErrorView::NoControlFile { filename, output_dir, crate_dir })
            == "could not find `"@ + filename + "` to update default_version in `"@ + first
            + "` or `"@ + second + "`"@,
{
}

/// The message on findings tells how many there are.
pub proof fn law_lint_message(count: nat)
    ensures
        error_text(ErrorView::LintFailed { count }) == "migration lint failed with "@ + decimal(
            count,
        ) + " error(s)"@,
{
}

/// The contents of an error are what it is about.
pub proof fn law_error_contents(e: MigrateError)
    ensures
        match e {
            MigrateError::CircularDependency { filenames } => e@ == (ErrorView::CircularDependency {
                filenames: texts(filenames@),
            }),
            MigrateError::InvalidFilename { path } => e@ == (ErrorView::InvalidFilename {
                path: path@,
            }),
            MigrateError::UnreadableFragment { path } => e@ == (ErrorView::UnreadableFragment {
                path: path@,
            }),
            MigrateError::InvalidTargetVersion { version } => e@
                == (ErrorView::InvalidTargetVersion { version: version@ }),
            MigrateError::NoPreviousVersion { target } => e@ == (ErrorView::NoPreviousVersion {
                target: target@,
            }),
            MigrateError::NoTargetVersion => e@ is NoTargetVersion,
            MigrateError::NoFragments { directory } => e@ == (ErrorView::NoFragments {
                directory: directory@,
            }),
            MigrateError::NoControlFile { filename, output_dir, crate_dir } => {
                &&& e@ is NoControlFile
                &&& e@->NoControlFile_filename == filename@
                &&& output_dir matches Some(dir) ==> e@->output_dir == Some(dir@)
                &&& output_dir is None ==> e@->output_dir is None
                &&& crate_dir matches Some(dir) ==> e@->crate_dir == Some(dir@)
                &&& crate_dir is None ==> e@->crate_dir is None
            },
            MigrateError::UnreleasedFragments { directory } => e@
                == (ErrorView::UnreleasedFragments { directory: directory@ }),
            MigrateError::NoEphemeralVersion => e@ is NoEphemeralVersion,
            MigrateError::GitDiffFailed { output } => e@ == (ErrorView::GitDiffFailed {
                output: output@,
            }),
            MigrateError::LintFailed { count } => e@ == (ErrorView::LintFailed {
                count: count as nat,
            }),
        },
{
}

}
