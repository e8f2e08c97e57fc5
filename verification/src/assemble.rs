//! The assembly of fragments into the upgrade script of a release.

use vstd::prelude::*;
use vstd::string::*;
use crate::collect::{
    collect_fragments_from_dir, collected, entry_fragments, entry_views, law_collected_fragments,
    DirectoryEntry, EntryView,
};
use crate::error::{ErrorView, MigrateError};
use crate::fragment::{
    assemble_sql_content, assembled, echo_header, fragment_section, fragment_views,
    law_script_grows_by_sections, law_sections_in_order, FragmentView, MigrationFragment,
};
use crate::info::{
    fragment_infos, law_upgrade_follows_latest_release, migrate_plan, optional_dir,
    output_directory, resolve_versions_to, versions_to, PlanRequest, PlanVersionsView,
};
use crate::order::{apply_order, law_placed_or_stuck, law_prerequisites_first, needs};
use crate::path::{FilePath, PathView};
use crate::semantic::{version_less, version_text, VersionView};
use crate::text::{contains_text, is_space, occurs_at, texts};
use crate::version::{
    clean_version, clean_version_string, is_existing, lossy_version, optional_str, upgrade_script,
    upgrade_script_name,
};

verus! {

/// What becomes of fragments once they are assembled.
#[derive(Debug, Clone, Copy, PartialEq, Eq)]
pub enum FragmentRetention {
    Consume,
    Preserve,
}

/// Whether the control file gets the new version.
#[derive(Debug, Clone, Copy, PartialEq, Eq)]
pub enum ControlFileUpdate {
    Skip,
    Update,
}

/// Where the crate is.
#[derive(Debug, Clone, Copy, PartialEq, Eq)]
pub struct CrateDir<'a>(pub &'a str);

/// Where upgrade scripts are.
#[derive(Debug, Clone, Copy, PartialEq, Eq)]
pub struct SqlDir<'a>(pub &'a str);

/// Where fragments are.
#[derive(Debug, Clone, Copy, PartialEq, Eq)]
pub struct UnreleasedDir<'a>(pub &'a str);

/// Where the script goes.
#[derive(Debug, Clone, Copy, PartialEq, Eq)]
pub struct OutputDir<'a>(pub &'a str);

/// The directories of an assembly.
#[derive(Debug, Clone, Copy, PartialEq, Eq)]
pub struct MigrationDirectories<'a> {
    pub crate_dir: Option<CrateDir<'a>>,
    pub sql_dir: SqlDir<'a>,
    pub unreleased_dir: UnreleasedDir<'a>,
    pub output_dir: Option<OutputDir<'a>>,
}

/// The version that a release has.
#[derive(Debug, Clone, Copy, PartialEq, Eq)]
pub struct TargetVersionStr<'a>(pub &'a str);

/// The version that a release follows, if it is given.
#[derive(Debug, Clone, Copy, PartialEq, Eq)]
pub struct PrevVersionStr<'a>(pub Option<&'a str>);

/// The version of the package, if it has one.
#[derive(Debug, Clone, Copy, PartialEq, Eq)]
pub struct ManifestVersionStr<'a>(pub Option<&'a str>);

/// The versions of an assembly.
#[derive(Debug, Clone, Copy, PartialEq, Eq)]
pub struct VersionSpec<'a> {
    pub target_version: TargetVersionStr<'a>,
    pub prev_version: PrevVersionStr<'a>,
    pub manifest_version: ManifestVersionStr<'a>,
}

/// What is to be assembled, and how.
#[derive(Debug, Clone, Copy, PartialEq, Eq)]
pub struct AssembleParams<'a> {
    pub extname: &'a str,
    pub dirs: MigrationDirectories<'a>,
    pub versions: VersionSpec<'a>,
    pub retention: FragmentRetention,
    pub allow_empty: bool,
    pub control_update: ControlFileUpdate,
}

/// How the options of the command shape an assembly: fragments are kept on request,
/// the control file is updated on request, and there may be no fragments on request or
/// where a target version is given.
pub fn assemble_policy(
    preserve_fragments: bool,
    update_control: bool,
    allow_empty: bool,
    target_given: bool,
) -> (r: (FragmentRetention, ControlFileUpdate, bool))
    ensures
        r.0 == (if preserve_fragments {
            FragmentRetention::Preserve
        } else {
            FragmentRetention::Consume
        }),
        r.1 == (if update_control {
            ControlFileUpdate::Update
        } else {
            ControlFileUpdate::Skip
        }),
        r.2 == (target_given || allow_empty),
{
    let retention = if preserve_fragments {
        FragmentRetention::Preserve
    } else {
        FragmentRetention::Consume
    };
    let control_update = if update_control {
        ControlFileUpdate::Update
    } else {
        ControlFileUpdate::Skip
    };
    (retention, control_update, target_given || allow_empty)
}

// ---------------------------------------------------------------------------
// What is written
// ---------------------------------------------------------------------------

/// An upgrade script that is ready to be written, and the fragments in it.
#[derive(Debug, Clone)]
pub struct AssembledScript {
    pub output_file: FilePath,
    pub content: String,
    pub target_version: String,
    pub fragments: Vec<MigrationFragment>,
}

/// The contents of an `AssembledScript`.
pub struct ScriptView {
    pub output_file: PathView,
    pub content: Seq<char>,
    pub target_version: Seq<char>,
    pub fragments: Seq<FragmentView>,
}

impl View for AssembledScript {
    type V = ScriptView;

    open spec fn view(&self) -> ScriptView {
        ScriptView {
            output_file: self.output_file@,
            content: self.content@,
            target_version: self.target_version@,
            fragments: fragment_views(self.fragments@),
        }
    }
}

/// The contents of an output directory that may be missing.
pub open spec fn optional_output(dir: Option<OutputDir<'_>>) -> Option<Seq<char>> {
    match dir {
        Some(d) => Some(d.0@),
        None => None,
    }
}

/// The contents of a crate directory that may be missing.
pub open spec fn optional_crate(dir: Option<CrateDir<'_>>) -> Option<Seq<char>> {
    match dir {
        Some(d) => Some(d.0@),
        None => None,
    }
}

/// The script that upgrades between the given versions with the given fragments.
pub open spec fn script_of(
    extname: Seq<char>,
    directory: Seq<char>,
    versions: PlanVersionsView,
    fs: Seq<FragmentView>,
) -> ScriptView {
    ScriptView {
        output_file: PathView {
            directory,
            name: upgrade_script(extname, versions.prev, versions.target),
        },
        content: assembled(extname, versions.target, fs),
        target_version: versions.target,
        fragments: fs,
    }
}

/// The script of a release.
pub open spec fn release_script(
    params: AssembleParams<'_>,
    names: Seq<Seq<char>>,
    es: Seq<EntryView>,
) -> Result<ScriptView, ErrorView> {
    match versions_to(
        names,
        params.extname@,
        clean_version(params.versions.target_version.0@),
        optional_str(params.versions.prev_version.0),
        optional_str(params.versions.manifest_version.0),
    ) {
        Ok(versions) => match collected(es) {
            Ok(fs) => if fs.len() == 0 && !params.allow_empty {
                Err(ErrorView::NoFragments { directory: params.dirs.unreleased_dir.0@ })
            } else {
                Ok(
                    script_of(
                        params.extname@,
                        output_directory(
                            params.dirs.sql_dir.0@,
                            optional_output(params.dirs.output_dir),
                        ),
                        versions,
                        fs,
                    ),
                )
            },
            Err(e) => Err(e),
        },
        Err(e) => Err(e),
    }
}

/// Makes the upgrade script of a release from the names of the upgrade scripts that
/// exist and the entries of the directory of fragments.
pub fn assemble_release_upgrade_script(
    params: AssembleParams<'_>,
    sql_files: &Vec<String>,
    entries: &Vec<DirectoryEntry>,
) -> (r: Result<AssembledScript, MigrateError>)
    ensures
        match (release_script(params, texts(sql_files@), entry_views(entries@)), r) {
            (Ok(x), Ok(script)) => script@ == x,
            (Err(x), Err(e)) => e@ == x,
            _ => false,
        },
{
    let target = clean_version_string(params.versions.target_version.0);
    let versions = match resolve_versions_to(
        sql_files,
        params.extname,
        target,
        params.versions.prev_version.0,
        params.versions.manifest_version.0,
    ) {
        Ok(versions) => versions,
        Err(e) => return Err(e),
    };
    let fragments = match collect_fragments_from_dir(entries) {
        Ok(fragments) => fragments,
        Err(e) => return Err(e),
    };
    assert(fragment_views(fragments@).len() == fragments@.len());
    if fragments.len() == 0 && !params.allow_empty {
        return Err(
            MigrateError::NoFragments { directory: params.dirs.unreleased_dir.0.to_owned() },
        );
    }
    let directory = match params.dirs.output_dir {
        Some(dir) => dir.0,
        None => params.dirs.sql_dir.0,
    };
    let name = upgrade_script_name(params.extname, versions.prev.as_str(), target);
    let content = assemble_sql_content(params.extname, target, &fragments);
    Ok(
        AssembledScript {
            output_file: FilePath { directory: directory.to_owned(), name },
            content,
            target_version: versions.target,
            fragments,
        },
    )
}

// ---------------------------------------------------------------------------
// What is done, and in which order
// ---------------------------------------------------------------------------

/// The name of an extension's control file.
pub open spec fn control_filename(extname: Seq<char>) -> Seq<char> {
    extname + ".control"@
}

/// Names the control file of an extension.
pub fn control_file_name(extname: &str) -> (r: String)
    ensures
        r@ == control_filename(extname@),
{
    let mut out = extname.to_owned();
    out.append(".control");
    out
}

/// What is to be done next.
#[derive(Debug, Clone, PartialEq, Eq)]
pub enum AssembleStep {
    /// Write the script.
    WriteScript,
    /// Look for the control file in the output directory and in that of the crate.
    LookForControlFile,
    /// Write the new version into a control file.
    UpdateControlFile { path: FilePath },
    /// Remove a fragment, by its position, if it is still there.
    RemoveFragment { index: usize },
    /// Nothing is left to do.
    Finish,
}

/// What was done last.
#[derive(Debug, Clone, Copy, PartialEq, Eq)]
pub enum AssembleEvent {
    Started,
    ScriptWritten,
    ControlFilesSeen { in_output_dir: bool, in_crate_dir: bool },
    ControlFileUpdated,
    FragmentRemoved { index: usize },
}

/// The contents of an `AssembleStep`.
pub enum StepView {
    WriteScript,
    LookForControlFile,
    UpdateControlFile { path: PathView },
    RemoveFragment { index: int },
    Finish,
}

impl View for AssembleStep {
    type V = StepView;

    open spec fn view(&self) -> StepView {
        match *self {
            AssembleStep::WriteScript => StepView::WriteScript,
            AssembleStep::LookForControlFile => StepView::LookForControlFile,
            AssembleStep::UpdateControlFile { path } => StepView::UpdateControlFile { path: path@ },
            AssembleStep::RemoveFragment { index } => StepView::RemoveFragment {
                index: index as int,
            },
            AssembleStep::Finish => StepView::Finish,
        }
    }
}

/// The step that deals with the fragments from position `index` on.
pub open spec fn removal_step(retention: FragmentRetention, index: int, count: int) -> StepView {
    if retention is Consume && index < count {
        StepView::RemoveFragment { index }
    } else {
        StepView::Finish
    }
}

/// The control file to update: that in the output directory, or else that of the crate.
pub open spec fn chosen_control_file(
    extname: Seq<char>,
    output_dir: Option<Seq<char>>,
    crate_dir: Option<Seq<char>>,
    in_output_dir: bool,
    in_crate_dir: bool,
) -> Result<PathView, ErrorView> {
    let name = control_filename(extname);
    if output_dir is Some && in_output_dir {
        Ok(PathView { directory: output_dir->0, name })
    } else if crate_dir is Some && in_crate_dir {
        Ok(PathView { directory: crate_dir->0, name })
    } else {
        Err(ErrorView::NoControlFile { filename: name, output_dir, crate_dir })
    }
}

/// What follows what was done last.
pub open spec fn step_after(params: AssembleParams<'_>, count: int, event: AssembleEvent) -> Result<
    StepView,
    ErrorView,
> {
    match event {
        AssembleEvent::Started => Ok(StepView::WriteScript),
        AssembleEvent::ScriptWritten => if params.control_update is Update {
            Ok(StepView::LookForControlFile)
        } else {
            Ok(removal_step(params.retention, 0, count))
        },
        AssembleEvent::ControlFilesSeen { in_output_dir, in_crate_dir } => {
            match chosen_control_file(
                params.extname@,
                optional_output(params.dirs.output_dir),
                optional_crate(params.dirs.crate_dir),
                in_output_dir,
                in_crate_dir,
            ) {
                Ok(path) => Ok(StepView::UpdateControlFile { path }),
                Err(e) => Err(e),
            }
        },
        AssembleEvent::ControlFileUpdated => Ok(removal_step(params.retention, 0, count)),
        AssembleEvent::FragmentRemoved { index } => Ok(
            removal_step(params.retention, index + 1, count),
        ),
    }
}

/// Chooses the step that deals with the fragments from position `index` on.
fn next_removal(retention: FragmentRetention, index: usize, count: usize) -> (r: AssembleStep)
    ensures
        r@ == removal_step(retention, index as int, count as int),
{
    match retention {
        FragmentRetention::Consume => if index < count {
            AssembleStep::RemoveFragment { index }
        } else {
            AssembleStep::Finish
        },
        FragmentRetention::Preserve => AssembleStep::Finish,
    }
}

/// Chooses the control file to update, by where one was seen.
pub fn choose_control_file(
    extname: &str,
    dirs: MigrationDirectories<'_>,
    in_output_dir: bool,
    in_crate_dir: bool,
) -> (r: Result<FilePath, MigrateError>)
    ensures
        match (
            chosen_control_file(
                extname@,
                optional_output(dirs.output_dir),
                optional_crate(dirs.crate_dir),
                in_output_dir,
                in_crate_dir,
            ),
            r,
        ) {
            (Ok(x), Ok(path)) => path@ == x,
            (Err(x), Err(e)) => e@ == x,
            _ => false,
        },
{
    let name = control_file_name(extname);
    if let Some(dir) = dirs.output_dir {
        if in_output_dir {
            return Ok(FilePath { directory: dir.0.to_owned(), name });
        }
    }
    if let Some(dir) = dirs.crate_dir {
        if in_crate_dir {
            return Ok(FilePath { directory: dir.0.to_owned(), name });
        }
    }
    let output_dir = match dirs.output_dir {
        Some(dir) => Some(dir.0.to_owned()),
        None => None,
    };
    let crate_dir = match dirs.crate_dir {
        Some(dir) => Some(dir.0.to_owned()),
        None => None,
    };
    Err(MigrateError::NoControlFile { filename: name, output_dir, crate_dir })
}

/// Tells what follows what was done last, in an assembly of `count` fragments.
pub fn next_step(params: AssembleParams<'_>, count: usize, event: AssembleEvent) -> (r: Result<
    AssembleStep,
    MigrateError,
>)
    requires
        event matches AssembleEvent::FragmentRemoved { index } ==> index < count,
    ensures
        match (step_after(params, count as int, event), r) {
            (Ok(x), Ok(step)) => step@ == x,
            (Err(x), Err(e)) => e@ == x,
            _ => false,
        },
{
    match event {
        AssembleEvent::Started => Ok(AssembleStep::WriteScript),
        AssembleEvent::ScriptWritten => match params.control_update {
            ControlFileUpdate::Update => Ok(AssembleStep::LookForControlFile),
            ControlFileUpdate::Skip => Ok(next_removal(params.retention, 0, count)),
        },
        AssembleEvent::ControlFilesSeen { in_output_dir, in_crate_dir } => {
            match choose_control_file(params.extname, params.dirs, in_output_dir, in_crate_dir) {
                Ok(path) => Ok(AssembleStep::UpdateControlFile { path }),
                Err(e) => Err(e),
            }
        },
        AssembleEvent::ControlFileUpdated => Ok(next_removal(params.retention, 0, count)),
        AssembleEvent::FragmentRemoved { index } => Ok(
            next_removal(params.retention, index + 1, count),
        ),
    }
}

// ---------------------------------------------------------------------------
// Laws
// ---------------------------------------------------------------------------

/// Whether `event` tells that `step` was done.
pub open spec fn is_outcome(step: StepView, event: AssembleEvent) -> bool {
    match step {
        StepView::WriteScript => event is ScriptWritten,
        StepView::LookForControlFile => event is ControlFilesSeen,
        StepView::UpdateControlFile { path } => event is ControlFileUpdated,
        StepView::RemoveFragment { index } => event matches AssembleEvent::FragmentRemoved {
            index: i,
        } && i == index,
        StepView::Finish => false,
    }
}

/// Whether `events` is a course of an assembly: it starts, and each step that follows
/// from an event is what the next event tells of.
pub open spec fn is_course(
    params: AssembleParams<'_>,
    count: int,
    events: Seq<AssembleEvent>,
) -> bool {
    &&& events.len() > 0
    &&& events[0] is Started
    &&& forall|k: int|
        0 <= k < events.len() - 1 ==> {
            &&& step_after(params, count, #[trigger] events[k]) is Ok
            &&& is_outcome(step_after(params, count, events[k])->Ok_0, events[k + 1])
        }
}

/// The number of events before the first removal.
pub open spec fn steps_before_removal(params: AssembleParams<'_>) -> int {
    if params.control_update is Update {
        4
    } else {
        2
    }
}

/// In every course the script is written first; then, where that is asked for, the
/// control file is looked for and updated; then the fragments are removed, from the
/// first on and each one once.
pub proof fn law_order_of_steps(
    params: AssembleParams<'_>,
    count: int,
    events: Seq<AssembleEvent>,
    k: int,
)
    requires
        is_course(params, count, events),
        1 <= k < events.len(),
    ensures
        k == 1 ==> events[k] is ScriptWritten,
        params.control_update is Update && k == 2 ==> events[k] is ControlFilesSeen,
        params.control_update is Update && k == 3 ==> events[k] is ControlFileUpdated,
        k >= steps_before_removal(params) ==> {
            &&& params.retention is Consume
            &&& events[k] matches AssembleEvent::FragmentRemoved { index } && index == k
                - steps_before_removal(params) && index < count
        },
    decreases k,
{
    if k > 1 {
        law_order_of_steps(params, count, events, k - 1);
    }
    assert(is_outcome(step_after(params, count, events[k - 1])->Ok_0, events[k - 1 + 1]));
}

/// A course that ends has written the script, has updated the control file where that is
/// asked for, and has removed all fragments, or none where they are kept.
pub proof fn law_course_ends_complete(
    params: AssembleParams<'_>,
    count: int,
    events: Seq<AssembleEvent>,
)
    requires
        count >= 0,
        is_course(params, count, events),
        step_after(params, count, events.last()) == Ok::<StepView, ErrorView>(StepView::Finish),
    ensures
        events.len() == steps_before_removal(params) + (if params.retention is Consume {
            count
        } else {
            0
        }),
{
    let k = events.len() - 1;
    if k >= 1 {
        law_order_of_steps(params, count, events, k);
    }
}

/// No script without fragments is made unless that is allowed; then it is the header
/// alone.
pub proof fn law_empty_script(
    params: AssembleParams<'_>,
    names: Seq<Seq<char>>,
    es: Seq<EntryView>,
)
    requires
        collected(es) == Ok::<Seq<FragmentView>, ErrorView>(seq![]),
    ensures
        release_script(params, names, es) matches Ok(script) ==> params.allow_empty
            && script.content == echo_header(
            params.extname@,
            script.target_version,
        ),
{
    if let Ok(script) = release_script(params, names, es) {
        assert(script.content =~= echo_header(
            params.extname@,
            script.target_version,
        ));
    }
}

/// In a script every fragment stands after all of its prerequisites, and no two
/// fragments overlap.
pub proof fn law_script_respects_prerequisites(
    params: AssembleParams<'_>,
    names: Seq<Seq<char>>,
    es: Seq<EntryView>,
    i: int,
    t: int,
) -> (r: (int, int))
    requires
        release_script(params, names, es) is Ok,
        needs(entry_fragments(es), i, t),
    ensures
        ({
            let fs = entry_fragments(es);
            let script = release_script(params, names, es)->Ok_0;
            let (a, b) = r;
            &&& occurs_at(script.content, fragment_section(fs[t]), a)
            &&& occurs_at(script.content, fragment_section(fs[i]), b)
            &&& a + fragment_section(fs[t]).len() <= b
        }),
{
    let fs = entry_fragments(es);
    let order = apply_order(fs);
    let script = release_script(params, names, es)->Ok_0;
    let sorted = script.fragments;
    let (ext, version) = (params.extname@, script.target_version);
    law_placed_or_stuck(fs);
    assert(order.contains(i) && order.contains(t));
    let (a, b) = (order.index_of(t), order.index_of(i));
    law_prerequisites_first(fs, a, b);
    law_sections_in_order(ext, version, sorted, a);
    law_sections_in_order(ext, version, sorted, b);
    lemma_offsets_grow(ext, version, sorted, a + 1, b);
    (
        assembled(ext, version, sorted.take(a)).len() as int,
        assembled(ext, version, sorted.take(b)).len() as int,
    )
}

/// More fragments make a script no shorter.
proof fn lemma_offsets_grow(
    extname: Seq<char>,
    version: Seq<char>,
    fs: Seq<FragmentView>,
    a: int,
    b: int,
)
    requires
        0 <= a <= b <= fs.len(),
    ensures
        assembled(extname, version, fs.take(a)).len() <= assembled(
            extname,
            version,
            fs.take(b),
        ).len(),
    decreases b - a,
{
    if a < b {
        law_sections_in_order(extname, version, fs, a);
        lemma_offsets_grow(extname, version, fs, a + 1, b);
    }
}

/// Whether a plan is asked for what is to be assembled.
pub open spec fn previews(req: PlanRequest<'_>, params: AssembleParams<'_>) -> bool {
    &&& req.extname@ == params.extname@
    &&& req.dirs.sql_dir.0@ == params.dirs.sql_dir.0@
    &&& optional_dir(req.dirs.output_dir) == optional_output(params.dirs.output_dir)
    &&& optional_str(req.target_version) == Some(params.versions.target_version.0@)
    &&& optional_str(req.prev_version) == optional_str(params.versions.prev_version.0)
    &&& optional_str(req.manifest_version) == optional_str(params.versions.manifest_version.0)
}

/// The plan shows what an assembly does: the same script, the same versions, and the same
/// fragments in the same order. Where there is no plan there is no script either.
pub proof fn law_plan_previews_script(
    req: PlanRequest<'_>,
    params: AssembleParams<'_>,
    names: Seq<Seq<char>>,
    es: Seq<EntryView>,
)
    requires
        previews(req, params),
    ensures
        release_script(params, names, es) matches Ok(script) ==> {
            &&& migrate_plan(req, names, es) matches Ok(plan)
            &&& plan.output_file == script.output_file
            &&& plan.target_version == script.target_version
            &&& plan.fragments == fragment_infos(script.fragments)
        },
        migrate_plan(req, names, es) matches Err(e) ==> release_script(params, names, es) == Err::<
            ScriptView,
            ErrorView,
        >(e),
{
}

/// A script is named after the extension and the two versions, goes to the output directory,
/// or without one to the directory of the scripts, and holds the collected fragments.
pub proof fn law_files_of_a_release(
    params: AssembleParams<'_>,
    names: Seq<Seq<char>>,
    es: Seq<EntryView>,
)
    ensures
        release_script(params, names, es) matches Ok(script) ==> {
            &&& collected(es) is Ok && script.fragments == collected(es)->Ok_0
            &&& script.fragments.len() > 0 || params.allow_empty
            &&& script.target_version == clean_version(params.versions.target_version.0@)
            &&& script.content == assembled(
                params.extname@,
                script.target_version,
                script.fragments,
            )
            &&& params.dirs.output_dir matches Some(dir) ==> script.output_file.directory == dir.0@
            &&& params.dirs.output_dir is None ==> script.output_file.directory
                == params.dirs.sql_dir.0@
            &&& params.versions.prev_version.0 matches Some(prev) ==> script.output_file.name
                == params.extname@ + "--"@ + clean_version(prev@) + "--"@ + script.target_version
                + ".sql"@
        },
{
}

/// The version that a release follows is the greatest that a script leads to before the
/// target, where it is not given and there is one.
pub proof fn law_release_follows_latest_release(
    params: AssembleParams<'_>,
    names: Seq<Seq<char>>,
    es: Seq<EntryView>,
    to: VersionView,
    v: VersionView,
)
    requires
        params.versions.prev_version.0 is None,
        lossy_version(clean_version(params.versions.target_version.0@)) == Some(to),
        is_existing(names, params.extname@, v),
        version_less(v, to),
        forall|w: VersionView|
            #[trigger] is_existing(names, params.extname@, w) && version_less(w, to) ==> w == v
                || version_less(w, v),
    ensures
        release_script(params, names, es) matches Ok(script) ==> script.output_file.name
            == params.extname@ + "--"@ + version_text(v) + "--"@ + clean_version(
            params.versions.target_version.0@,
        ) + ".sql"@,
{
    law_upgrade_follows_latest_release(
        names,
        params.extname@,
        params.versions.target_version.0@,
        optional_str(params.versions.manifest_version.0),
        to,
        v,
    );
}

/// A release is refused for lack of fragments exactly where there is no other error, none was
/// loaded, and that is not allowed.
pub proof fn law_release_needs_fragments(
    params: AssembleParams<'_>,
    names: Seq<Seq<char>>,
    es: Seq<EntryView>,
)
    requires
        params.versions.prev_version.0 is Some,
        lossy_version(clean_version(params.versions.target_version.0@)) is Some,
        collected(es) is Ok,
    ensures
        release_script(params, names, es) is Ok <==> entry_fragments(es).len() > 0
            || params.allow_empty,
        release_script(params, names, es) is Err ==> release_script(params, names, es) == Err::<
            ScriptView,
            ErrorView,
        >(ErrorView::NoFragments { directory: params.dirs.unreleased_dir.0@ }),
{
    let order = law_collected_fragments(es);
}

/// Before each fragment the script says which file follows; so each file name stands in the
/// script, and each text without the white space around it.
pub proof fn law_release_holds_every_fragment(
    params: AssembleParams<'_>,
    names: Seq<Seq<char>>,
    es: Seq<EntryView>,
    k: int,
    left: Seq<char>,
    sql: Seq<char>,
    right: Seq<char>,
)
    requires
        release_script(params, names, es) is Ok,
        0 <= k < entry_fragments(es).len(),
        entry_fragments(es)[k].sql_content == left + sql + right,
        forall|j: int| 0 <= j < left.len() ==> is_space(#[trigger] left[j]),
        forall|j: int| 0 <= j < right.len() ==> is_space(#[trigger] right[j]),
        sql.len() > 0 ==> !is_space(sql[0]) && !is_space(sql.last()),
    ensures
        contains_text(
            release_script(params, names, es)->Ok_0.content,
            "\n-- ============================================================================\n"@
                + "-- Fragment: "@ + entry_fragments(es)[k].filename
                + "\n-- ============================================================================\n"@
                + sql + "\n"@,
        ),
{
    let script = release_script(params, names, es)->Ok_0;
    let fs = script.fragments;
    let (ext, version) = (params.extname@, script.target_version);
    let order = law_collected_fragments(es);
    assert(order.contains(k));
    let at = order.index_of(k);
    let f = fs[at];
    assert(f == entry_fragments(es)[k]);
    let head = fs.take(at);
    law_script_grows_by_sections(ext, version, head, f, left, sql, right);
    assert(fs.take(at + 1) =~= head.push(f));
    law_sections_in_order(ext, version, fs, at);
    let section = fragment_section(f);
    let grown = assembled(ext, version, head.push(f));
    let before = assembled(ext, version, head);
    assert(grown =~= before + section) by {
        assert(head.push(f).drop_last() =~= head);
    }
    let told = "\n-- ============================================================================\n"@
        + "-- Fragment: "@ + f.filename
        + "\n-- ============================================================================\n"@
        + sql + "\n"@;
    assert(section =~= told) by {
        assert((before + section).skip(before.len() as int) =~= section);
        assert((before + told).skip(before.len() as int) =~= told);
    }
    assert(occurs_at(script.content, told, before.len() as int));
}

/// The control file is named after the extension. That in the output directory is updated, or
/// else that of the crate, and without either the update fails.
pub proof fn law_control_file_is_chosen(
    params: AssembleParams<'_>,
    count: int,
    in_output_dir: bool,
    in_crate_dir: bool,
)
    ensures
        ({
            let seen = AssembleEvent::ControlFilesSeen { in_output_dir, in_crate_dir };
            let name = params.extname@ + ".control"@;
            let next = step_after(params, count, seen);
            let (output, own) = (params.dirs.output_dir, params.dirs.crate_dir);
            &&& output is Some && in_output_dir ==> next == Ok::<StepView, ErrorView>(
                StepView::UpdateControlFile {
                    path: PathView { directory: (output->0).0@, name },
                },
            )
            &&& !(output is Some && in_output_dir) && own is Some && in_crate_dir ==> next == Ok::<
                StepView,
                ErrorView,
            >(StepView::UpdateControlFile { path: PathView { directory: (own->0).0@, name } })
            &&& next is Err <==> !(output is Some && in_output_dir) && !(own is Some
                && in_crate_dir)
            &&& next matches Err(e) ==> {
                &&& e matches ErrorView::NoControlFile { filename, output_dir, crate_dir }
                &&& filename == name
                &&& output matches Some(dir) ==> output_dir == Some(dir.0@)
                &&& output is None ==> output_dir is None
                &&& own matches Some(dir) ==> crate_dir == Some(dir.0@)
                &&& own is None ==> crate_dir is None
            }
        }),
{
}

/// Every course but one without a control file goes on until it is complete: an event that can
/// follow is never met by an error.
pub proof fn law_only_a_missing_control_file_stops(
    params: AssembleParams<'_>,
    count: int,
    event: AssembleEvent,
)
    ensures
        !(event is ControlFilesSeen) ==> step_after(params, count, event) is Ok,
        step_after(params, count, event) == Ok::<StepView, ErrorView>(StepView::LookForControlFile)
            <==> event is ScriptWritten && params.control_update is Update,
        step_after(params, count, event) == Ok::<StepView, ErrorView>(StepView::WriteScript)
            <==> event is Started,
        params.retention is Preserve ==> !(step_after(params, count, event) matches Ok(
            StepView::RemoveFragment { index },
        )),
{
}

/// The contents of a script and of a step are all of their parts.
pub proof fn law_script_contents(script: AssembledScript, step: AssembleStep)
    ensures
        script@.output_file == script.output_file@,
        script@.content == script.content@,
        script@.target_version == script.target_version@,
        script@.fragments == fragment_views(script.fragments@),
        step is WriteScript <==> step@ is WriteScript,
        step is LookForControlFile <==> step@ is LookForControlFile,
        step is Finish <==> step@ is Finish,
        step matches AssembleStep::UpdateControlFile { path } ==> step@
            == (StepView::UpdateControlFile { path: path@ }),
        step matches AssembleStep::RemoveFragment { index } ==> step@ == (StepView::RemoveFragment {
            index: index as int,
        }),
{
}

}
