//! The plan of an upgrade: which versions, which fragments, and where the script goes.

use vstd::prelude::*;
use vstd::string::*;
use crate::collect::{
    collect_fragments_from_dir, collected, entry_fragments, entry_views, law_collected_fragments,
    DirectoryEntry, EntryView,
};
use crate::error::{ErrorView, MigrateError};
use crate::fragment::{
    dependency_text, fragment_views, id_text, DependencyView, FragmentDependency, FragmentIdView,
    FragmentView, MigrationFragment,
};
use crate::number::decimal;
use crate::path::{FilePath, PathView};
use crate::semantic::{law_version_order_is_total, version_less, version_text, VersionView};
use crate::text::texts;
use crate::version::{
    checked_target_version, clean_version, has_target_version, is_existing, is_latest_before,
    latest_before, law_latest_version, law_prev_is_latest_earlier_release, law_prev_is_missing,
    lossy_version, optional_str, parse_version_lossy, prev_version, resolve_prev_version,
    resolve_target_version, target_version, upgrade_script, upgrade_script_name,
};

verus! {

/// The name of an extension.
#[derive(Debug, Clone, PartialEq, Eq, PartialOrd, Ord, Hash)]
pub struct ExtensionName(pub String);

impl ExtensionName {
    /// The name as text.
    pub fn to_string(&self) -> (r: String)
        ensures
            r@ == self.0@,
    {
        self.0.clone()
    }
}

/// The version that an upgrade goes to.
#[derive(Debug, Clone, PartialEq, Eq, PartialOrd, Ord, Hash)]
pub struct TargetVersion(pub String);

impl TargetVersion {
    /// The version as text.
    pub fn to_string(&self) -> (r: String)
        ensures
            r@ == self.0@,
    {
        self.0.clone()
    }
}

/// The version that an upgrade comes from.
#[derive(Debug, Clone, PartialEq, Eq, PartialOrd, Ord, Hash)]
pub struct PredecessorVersion(pub String);

impl PredecessorVersion {
    /// The version as text.
    pub fn to_string(&self) -> (r: String)
        ensures
            r@ == self.0@,
    {
        self.0.clone()
    }
}

/// Where upgrade scripts are.
#[derive(Debug, Clone, Copy, PartialEq, Eq)]
pub struct SqlDir<'a>(pub &'a str);

/// Where fragments are.
#[derive(Debug, Clone, Copy, PartialEq, Eq)]
pub struct UnreleasedDir<'a>(pub &'a str);

/// Where the script goes.
#[derive(Debug, Clone, Copy, PartialEq, Eq)]
pub struct OutputDir<'a>(pub &'a str);

/// The directories of a plan.
#[derive(Debug, Clone, Copy, PartialEq, Eq)]
pub struct PlanDirectories<'a> {
    pub sql_dir: SqlDir<'a>,
    pub unreleased_dir: UnreleasedDir<'a>,
    pub output_dir: Option<OutputDir<'a>>,
}

/// What an upgrade will do.
#[derive(Debug, Clone, PartialEq, Eq)]
pub struct MigratePlan {
    pub extension_name: ExtensionName,
    pub target_version: TargetVersion,
    pub prev_version: PredecessorVersion,
    pub output_file: FilePath,
    pub is_empty: bool,
    pub fragments: Vec<FragmentInfo>,
}

/// A fragment in a plan.
#[derive(Debug, Clone, PartialEq, Eq)]
pub struct FragmentInfo {
    pub filename: String,
    pub id: String,
    pub dependencies: Vec<String>,
}

/// What a plan is asked for.
#[derive(Debug, Clone, Copy, PartialEq, Eq)]
pub struct PlanRequest<'a> {
    pub extname: &'a str,
    pub dirs: PlanDirectories<'a>,
    pub target_version: Option<&'a str>,
    pub prev_version: Option<&'a str>,
    pub manifest_version: Option<&'a str>,
}

/// The contents of a `FragmentInfo`.
pub struct InfoView {
    pub filename: Seq<char>,
    pub id: Seq<char>,
    pub dependencies: Seq<Seq<char>>,
}

/// The contents of a `MigratePlan`.
pub struct PlanView {
    pub extension_name: Seq<char>,
    pub target_version: Seq<char>,
    pub prev_version: Seq<char>,
    pub output_file: PathView,
    pub is_empty: bool,
    pub fragments: Seq<InfoView>,
}

impl View for FragmentInfo {
    type V = InfoView;

    open spec fn view(&self) -> InfoView {
        InfoView {
            filename: self.filename@,
            id: self.id@,
            dependencies: texts(self.dependencies@),
        }
    }
}

/// The contents of a vector of fragments in a plan.
pub open spec fn info_views(v: Seq<FragmentInfo>) -> Seq<InfoView> {
    Seq::new(v.len(), |i: int| v[i]@)
}

impl View for MigratePlan {
    type V = PlanView;

    open spec fn view(&self) -> PlanView {
        PlanView {
            extension_name: self.extension_name.0@,
            target_version: self.target_version.0@,
            prev_version: self.prev_version.0@,
            output_file: self.output_file@,
            is_empty: self.is_empty,
            fragments: info_views(self.fragments@),
        }
    }
}

// ---------------------------------------------------------------------------
// Versions
// ---------------------------------------------------------------------------

/// The versions that an upgrade comes from and goes to.
#[derive(Debug, Clone, PartialEq, Eq)]
pub struct PlanVersions {
    pub prev: String,
    pub target: String,
}

/// The contents of `PlanVersions`.
pub struct PlanVersionsView {
    pub prev: Seq<char>,
    pub target: Seq<char>,
}

impl View for PlanVersions {
    type V = PlanVersionsView;

    open spec fn view(&self) -> PlanVersionsView {
        PlanVersionsView { prev: self.prev@, target: self.target@ }
    }
}

/// The versions of an upgrade to `target`.
pub open spec fn versions_to(
    names: Seq<Seq<char>>,
    extname: Seq<char>,
    target: Seq<char>,
    explicit_prev: Option<Seq<char>>,
    manifest_version: Option<Seq<char>>,
) -> Result<PlanVersionsView, ErrorView> {
    match lossy_version(target) {
        Some(v) => match prev_version(names, extname, v, explicit_prev, manifest_version) {
            Some(prev) => Ok(PlanVersionsView { prev, target }),
            None => Err(ErrorView::NoPreviousVersion { target: version_text(v) }),
        },
        None => Err(ErrorView::InvalidTargetVersion { version: target }),
    }
}

/// The versions of an upgrade.
pub open spec fn upgrade_versions(
    names: Seq<Seq<char>>,
    extname: Seq<char>,
    explicit_target: Option<Seq<char>>,
    explicit_prev: Option<Seq<char>>,
    manifest_version: Option<Seq<char>>,
) -> Result<PlanVersionsView, ErrorView> {
    match target_version(names, extname, explicit_target, manifest_version) {
        Some(target) => versions_to(names, extname, target, explicit_prev, manifest_version),
        None => Err(ErrorView::NoTargetVersion),
    }
}

/// Tells the versions of an upgrade to `target`.
pub fn resolve_versions_to(
    file_names: &Vec<String>,
    extname: &str,
    target: &str,
    explicit_prev: Option<&str>,
    manifest_version: Option<&str>,
) -> (r: Result<PlanVersions, MigrateError>)
    ensures
        match (
            versions_to(
                texts(file_names@),
                extname@,
                target@,
                optional_str(explicit_prev),
                optional_str(manifest_version),
            ),
            r,
        ) {
            (Ok(x), Ok(versions)) => versions@ == x,
            (Err(x), Err(e)) => e@ == x,
            _ => false,
        },
{
    let parsed = match parse_version_lossy(target) {
        Some(v) => v,
        None => return Err(MigrateError::InvalidTargetVersion { version: target.to_owned() }),
    };
    match resolve_prev_version(file_names, extname, &parsed, explicit_prev, manifest_version) {
        Ok(prev) => Ok(PlanVersions { prev, target: target.to_owned() }),
        Err(e) => Err(e),
    }
}

/// Tells the versions of the upgrade that a plan is asked for.
pub fn plan_versions(req: PlanRequest<'_>, sql_files: &Vec<String>) -> (r: Result<
    PlanVersions,
    MigrateError,
>)
    requires
        has_target_version(
            texts(sql_files@),
            req.extname@,
            optional_str(req.target_version),
            optional_str(req.manifest_version),
        ),
    ensures
        match (
            upgrade_versions(
                texts(sql_files@),
                req.extname@,
                optional_str(req.target_version),
                optional_str(req.prev_version),
                optional_str(req.manifest_version),
            ),
            r,
        ) {
            (Ok(x), Ok(versions)) => versions@ == x,
            (Err(x), Err(e)) => e@ == x,
            _ => false,
        },
{
    match resolve_target_version(
        sql_files,
        req.extname,
        req.target_version,
        req.manifest_version,
    ) {
        Ok(target) => resolve_versions_to(
            sql_files,
            req.extname,
            target.as_str(),
            req.prev_version,
            req.manifest_version,
        ),
        Err(e) => Err(e),
    }
}

// ---------------------------------------------------------------------------
// Plans
// ---------------------------------------------------------------------------

/// A fragment as it appears in a plan.
pub open spec fn fragment_info(f: FragmentView) -> InfoView {
    InfoView {
        filename: f.filename,
        id: id_text(f.id),
        dependencies: Seq::new(
            f.dependencies.len(),
            |i: int| dependency_text(f.dependencies[i]),
        ),
    }
}

/// Fragments as they appear in a plan.
pub open spec fn fragment_infos(fs: Seq<FragmentView>) -> Seq<InfoView> {
    Seq::new(fs.len(), |i: int| fragment_info(fs[i]))
}

/// The directory that the script goes to: the given one, or that of the scripts.
pub open spec fn output_directory(sql_dir: Seq<char>, output_dir: Option<Seq<char>>) -> Seq<char> {
    match output_dir {
        Some(dir) => dir,
        None => sql_dir,
    }
}

/// The contents of an output directory that may be missing.
pub open spec fn optional_dir(dir: Option<OutputDir<'_>>) -> Option<Seq<char>> {
    match dir {
        Some(d) => Some(d.0@),
        None => None,
    }
}

/// The plan of an upgrade between the given versions with the given fragments.
pub open spec fn plan_of(
    extname: Seq<char>,
    directory: Seq<char>,
    versions: PlanVersionsView,
    fs: Seq<FragmentView>,
) -> PlanView {
    PlanView {
        extension_name: extname,
        target_version: versions.target,
        prev_version: versions.prev,
        output_file: PathView {
            directory,
            name: upgrade_script(extname, versions.prev, versions.target),
        },
        is_empty: fs.len() == 0,
        fragments: fragment_infos(fs),
    }
}

/// The plan that is asked for.
pub open spec fn migrate_plan(
    req: PlanRequest<'_>,
    names: Seq<Seq<char>>,
    es: Seq<EntryView>,
) -> Result<PlanView, ErrorView> {
    match upgrade_versions(
        names,
        req.extname@,
        optional_str(req.target_version),
        optional_str(req.prev_version),
        optional_str(req.manifest_version),
    ) {
        Ok(versions) => match collected(es) {
            Ok(fs) => Ok(
                plan_of(
                    req.extname@,
                    output_directory(req.dirs.sql_dir.0@, optional_dir(req.dirs.output_dir)),
                    versions,
                    fs,
                ),
            ),
            Err(e) => Err(e),
        },
        Err(e) => Err(e),
    }
}

/// Writes dependencies as they appear in a plan.
fn dependency_strings(deps: &Vec<FragmentDependency>) -> (r: Vec<String>)
    ensures
        texts(r@) == Seq::new(deps@.len(), |i: int| dependency_text(deps@[i]@)),
{
    let mut out: Vec<String> = Vec::new();
    let mut i: usize = 0;
    while i < deps.len()
        invariant
            i <= deps@.len(),
            out@.len() == i,
            forall|j: int| 0 <= j < i ==> (#[trigger] out@[j])@ == dependency_text(deps@[j]@),
        decreases deps@.len() - i,
    {
        out.push(deps[i].to_string());
        i += 1;
    }
    out
}

/// Writes fragments as they appear in a plan.
fn describe_fragments(fragments: &Vec<MigrationFragment>) -> (r: Vec<FragmentInfo>)
    ensures
        info_views(r@) == fragment_infos(fragment_views(fragments@)),
{
    let ghost fs = fragment_views(fragments@);
    let mut out: Vec<FragmentInfo> = Vec::new();
    let mut i: usize = 0;
    while i < fragments.len()
        invariant
            i <= fragments@.len(),
            fs == fragment_views(fragments@),
            out@.len() == i,
            forall|j: int| 0 <= j < i ==> (#[trigger] out@[j])@ == fragment_info(fs[j]),
        decreases fragments@.len() - i,
    {
        let f = &fragments[i];
        assert(fs[i as int] == f@);
        let info = FragmentInfo {
            filename: f.filename.clone(),
            id: f.id.to_string(),
            dependencies: dependency_strings(&f.dependencies),
        };
        assert(info@.dependencies =~= fragment_info(f@).dependencies);
        out.push(info);
        i += 1;
    }
    assert(info_views(out@) =~= fragment_infos(fs));
    out
}

/// Makes the plan of an upgrade from the names of the upgrade scripts and the entries
/// of the directory of fragments.
pub fn build_migrate_plan(
    req: PlanRequest<'_>,
    sql_files: &Vec<String>,
    entries: &Vec<DirectoryEntry>,
) -> (r: Result<MigratePlan, MigrateError>)
    requires
        has_target_version(
            texts(sql_files@),
            req.extname@,
            optional_str(req.target_version),
            optional_str(req.manifest_version),
        ),
    ensures
        match (migrate_plan(req, texts(sql_files@), entry_views(entries@)), r) {
            (Ok(x), Ok(plan)) => plan@ == x,
            (Err(x), Err(e)) => e@ == x,
            _ => false,
        },
{
    let versions = match plan_versions(req, sql_files) {
        Ok(versions) => versions,
        Err(e) => return Err(e),
    };
    let fragments = match collect_fragments_from_dir(entries) {
        Ok(fragments) => fragments,
        Err(e) => return Err(e),
    };
    let directory = match req.dirs.output_dir {
        Some(dir) => dir.0,
        None => req.dirs.sql_dir.0,
    };
    let name = upgrade_script_name(req.extname, versions.prev.as_str(), versions.target.as_str());
    let is_empty = fragments.len() == 0;
    assert(fragment_views(fragments@).len() == fragments@.len());
    Ok(
        MigratePlan {
            extension_name: ExtensionName(req.extname.to_owned()),
            target_version: TargetVersion(versions.target),
            prev_version: PredecessorVersion(versions.prev),
            output_file: FilePath { directory: directory.to_owned(), name },
            is_empty,
            fragments: describe_fragments(&fragments),
        },
    )
}

/// Makes the plan of an upgrade, or nothing where the next patch number does not fit.
pub fn checked_migrate_plan(
    req: PlanRequest<'_>,
    sql_files: &Vec<String>,
    entries: &Vec<DirectoryEntry>,
) -> (r: Option<Result<MigratePlan, MigrateError>>)
    ensures
        r is Some <==> has_target_version(
            texts(sql_files@),
            req.extname@,
            optional_str(req.target_version),
            optional_str(req.manifest_version),
        ),
        r matches Some(built) ==> match (
            migrate_plan(req, texts(sql_files@), entry_views(entries@)),
            built,
        ) {
            (Ok(x), Ok(plan)) => plan@ == x,
            (Err(x), Err(e)) => e@ == x,
            _ => false,
        },
{
    if checked_target_version(
        sql_files,
        req.extname,
        req.target_version,
        req.manifest_version,
    ).is_some() {
        Some(build_migrate_plan(req, sql_files, entries))
    } else {
        None
    }
}

// ---------------------------------------------------------------------------
// Laws
// ---------------------------------------------------------------------------

/// A plan is about the extension that was asked for. Its script is named after the extension
/// and the two versions, and goes to the output directory, or without one to the directory of
/// the scripts. The plan is empty exactly where no fragment was loaded.
pub proof fn law_plan_names_its_script(
    req: PlanRequest<'_>,
    names: Seq<Seq<char>>,
    es: Seq<EntryView>,
)
    requires
        migrate_plan(req, names, es) is Ok,
    ensures
        ({
            let plan = migrate_plan(req, names, es)->Ok_0;
            &&& plan.extension_name == req.extname@
            &&& plan.output_file.name == req.extname@ + "--"@ + plan.prev_version + "--"@
                + plan.target_version + ".sql"@
            &&& req.dirs.output_dir matches Some(dir) ==> plan.output_file.directory == dir.0@
            &&& req.dirs.output_dir is None ==> plan.output_file.directory == req.dirs.sql_dir.0@
            &&& plan.is_empty <==> entry_fragments(es).len() == 0
            &&& plan.fragments.len() == entry_fragments(es).len()
        }),
{
    let order = law_collected_fragments(es);
}

/// A plan shows the fragments in the order in which they are applied, each with its file name,
/// its identifier and all of its dependencies, one after the other.
pub proof fn law_plan_shows_every_dependency(
    req: PlanRequest<'_>,
    names: Seq<Seq<char>>,
    es: Seq<EntryView>,
    k: int,
    d: int,
)
    requires
        migrate_plan(req, names, es) is Ok,
        collected(es) is Ok,
        0 <= k < collected(es)->Ok_0.len(),
    ensures
        ({
            let f = collected(es)->Ok_0[k];
            let shown = migrate_plan(req, names, es)->Ok_0.fragments[k];
            &&& shown.filename == f.filename
            &&& f.id matches FragmentIdView::Numeric(n) ==> shown.id == decimal(n as nat)
            &&& f.id matches FragmentIdView::Slug(slug) ==> shown.id == slug
            &&& shown.dependencies.len() == f.dependencies.len()
            &&& 0 <= d < f.dependencies.len() ==> {
                &&& f.dependencies[d] matches DependencyView::Id(FragmentIdView::Numeric(n))
                    ==> shown.dependencies[d] == decimal(n as nat)
                &&& f.dependencies[d] matches DependencyView::Id(FragmentIdView::Slug(slug))
                    ==> shown.dependencies[d] == slug
                &&& f.dependencies[d] matches DependencyView::Filename(name)
                    ==> shown.dependencies[d] == name
            }
        }),
{
}

/// Versions that are given are used, but for what is cut off of them. A given target must be
/// a version. No target is found exactly where none is given, no script leads to a version,
/// and the package has none.
pub proof fn law_given_versions(
    names: Seq<Seq<char>>,
    extname: Seq<char>,
    target: Option<Seq<char>>,
    prev: Option<Seq<char>>,
    manifest_version: Option<Seq<char>>,
)
    ensures
        match upgrade_versions(names, extname, target, prev, manifest_version) {
            Ok(versions) => {
                &&& target matches Some(given) ==> versions.target == clean_version(given)
                &&& prev matches Some(given) ==> versions.prev == clean_version(given)
                &&& lossy_version(versions.target) is Some
                &&& target is Some || manifest_version is Some || exists|v: VersionView|
                    is_existing(names, extname, v)
            },
            Err(ErrorView::NoTargetVersion) => {
                &&& target is None && manifest_version is None
                &&& forall|v: VersionView| !is_existing(names, extname, v)
            },
            Err(ErrorView::InvalidTargetVersion { version }) => {
                &&& target matches Some(given) ==> version == clean_version(given)
                &&& lossy_version(version) is None
            },
            Err(ErrorView::NoPreviousVersion { target: shown }) => {
                &&& prev is None && manifest_version is None
                &&& target matches Some(given) ==> lossy_version(
                    clean_version(given),
                ) matches Some(v) && shown == version_text(v)
            },
            Err(_) => false,
        },
{
    law_latest_version(names, extname);
    if let Some(t) = target_version(names, extname, target, manifest_version) {
        if let Some(v) = lossy_version(t) {
            law_prev_is_missing(names, extname, v, prev, manifest_version);
        }
    }
}

/// The version that an upgrade comes from is the greatest that a script leads to before the
/// target, where it is not given and there is one.
pub proof fn law_upgrade_follows_latest_release(
    names: Seq<Seq<char>>,
    extname: Seq<char>,
    target: Seq<char>,
    manifest_version: Option<Seq<char>>,
    to: VersionView,
    v: VersionView,
)
    requires
        lossy_version(clean_version(target)) == Some(to),
        is_existing(names, extname, v),
        version_less(v, to),
        forall|w: VersionView|
            #[trigger] is_existing(names, extname, w) && version_less(w, to) ==> w == v
                || version_less(w, v),
    ensures
        upgrade_versions(names, extname, Some(target), None, manifest_version) == Ok::<
            PlanVersionsView,
            ErrorView,
        >(PlanVersionsView { prev: version_text(v), target: clean_version(target) }),
{
    law_prev_is_latest_earlier_release(names, extname, to, manifest_version, v);
    let found = latest_before(names, extname, to)->0;
    assert(is_latest_before(names, extname, to, found));
    if found != v {
        assert(version_less(found, v));
        law_version_order_is_total(found, v);
    }
}

/// The contents of a plan are all of its parts, with all fragments in their places.
pub proof fn law_plan_contents(plan: MigratePlan, i: int, d: int)
    ensures
        plan@.extension_name == plan.extension_name.0@,
        plan@.target_version == plan.target_version.0@,
        plan@.prev_version == plan.prev_version.0@,
        plan@.output_file == plan.output_file@,
        plan@.is_empty == plan.is_empty,
        plan@.fragments.len() == plan.fragments@.len(),
        0 <= i < plan.fragments@.len() ==> {
            let f = plan.fragments@[i];
            &&& plan@.fragments[i].filename == f.filename@
            &&& plan@.fragments[i].id == f.id@
            &&& plan@.fragments[i].dependencies.len() == f.dependencies@.len()
            &&& 0 <= d < f.dependencies@.len() ==> plan@.fragments[i].dependencies[d]
                == f.dependencies@[d]@
        },
{
}

}
