//! Fragments during development and packaging: where they are, and what becomes of them.

use vstd::prelude::*;
use vstd::string::*;
use crate::assemble::{control_file_name, control_filename};
use crate::collect::{
    collect_fragments_from_dir, collected, entry_fragments, entry_views, law_collected_fragments,
    DirectoryEntry, EntryView,
};
use crate::error::{ErrorView, MigrateError};
use crate::fragment::{assemble_sql_content, assembled, fragment_views, FragmentView};
use crate::path::{FilePath, PathView};
use crate::semantic::{
    law_version_order_is_total, release, version_less, version_text, Version, VersionView,
};
use crate::text::{same_text, texts};
use crate::version::{
    derive_ephemeral_target_version, ephemeral_version, has_ephemeral_version, is_existing,
    is_latest, latest_sql_target, latest_version, law_ephemeral_version_is_later, law_latest_version,
    lossy_version, optional_str, parse_version_lossy, upgrade_script, upgrade_script_name,
};

verus! {

// ---------------------------------------------------------------------------
// Where fragments are
// ---------------------------------------------------------------------------

/// A value in the metadata of a package.
#[derive(Debug)]
pub enum MetadataValue {
    Table(Vec<(String, MetadataValue)>),
    Text(String),
    Other,
}

/// The first value with the given key from position `from` on.
pub open spec fn value_from(
    table: Seq<(String, MetadataValue)>,
    key: Seq<char>,
    from: int,
) -> Option<MetadataValue>
    decreases table.len() - from,
{
    if from >= table.len() {
        None
    } else if table[from].0@ == key {
        Some(table[from].1)
    } else {
        value_from(table, key, from + 1)
    }
}

/// The value with the given key.
pub open spec fn value_of(table: Seq<(String, MetadataValue)>, key: Seq<char>) -> Option<
    MetadataValue,
> {
    value_from(table, key, 0)
}

/// The directory that the metadata of a package configures.
pub open spec fn configured_dir(metadata: Option<MetadataValue>) -> Option<Seq<char>> {
    match metadata {
        Some(MetadataValue::Table(tools)) => match value_of(tools@, "pgrx"@) {
            Some(MetadataValue::Table(settings)) => {
                let setting = match value_of(settings@, "unreleased-sql-dir"@) {
                    Some(v) => Some(v),
                    None => value_of(settings@, "unreleased_sql_dir"@),
                };
                match setting {
                    Some(MetadataValue::Text(dir)) => Some(dir@),
                    _ => None,
                }
            },
            _ => None,
        },
        _ => None,
    }
}

/// The directory of fragments, seen from that of the manifest.
pub open spec fn unreleased_dir(
    metadata: Option<MetadataValue>,
    manifest_dir: Option<Seq<char>>,
) -> PathView {
    PathView {
        directory: match manifest_dir {
            Some(dir) => dir,
            None => "."@,
        },
        name: match configured_dir(metadata) {
            Some(dir) => dir,
            None => "sql/unreleased"@,
        },
    }
}

/// Looks a value up.
fn find_value<'a>(table: &'a Vec<(String, MetadataValue)>, key: &str) -> (r: Option<
    &'a MetadataValue,
>)
    ensures
        match r {
            Some(v) => value_of(table@, key@) == Some(*v),
            None => value_of(table@, key@) is None,
        },
{
    let mut i: usize = 0;
    while i < table.len()
        invariant
            i <= table@.len(),
            value_of(table@, key@) == value_from(table@, key@, i as int),
        decreases table@.len() - i,
    {
        if same_text(table[i].0.as_str(), key) {
            return Some(&table[i].1);
        }
        i += 1;
    }
    None
}

/// Reads the directory that the metadata of a package configures.
fn find_configured_dir(metadata: Option<&MetadataValue>) -> (r: Option<String>)
    ensures
        match r {
            Some(dir) => metadata is Some && configured_dir(Some(*metadata->0)) == Some(dir@),
            None => metadata is None || configured_dir(Some(*metadata->0)) is None,
        },
{
    if let Some(MetadataValue::Table(tools)) = metadata {
        if let Some(MetadataValue::Table(settings)) = find_value(tools, "pgrx") {
            let setting = match find_value(settings, "unreleased-sql-dir") {
                Some(v) => Some(v),
                None => find_value(settings, "unreleased_sql_dir"),
            };
            if let Some(MetadataValue::Text(dir)) = setting {
                return Some(dir.clone());
            }
        }
    }
    None
}

/// The metadata that may be missing, as a value.
pub open spec fn optional_metadata(metadata: Option<&MetadataValue>) -> Option<MetadataValue> {
    match metadata {
        Some(v) => Some(*v),
        None => None,
    }
}

/// Tells where the fragments of a package are: where its metadata says, or in
/// `sql/unreleased`.
pub fn resolve_unreleased_dir(metadata: Option<&MetadataValue>, manifest_dir: Option<&str>) -> (r:
    FilePath)
    ensures
        r@ == unreleased_dir(optional_metadata(metadata), optional_str(manifest_dir)),
{
    let directory = match manifest_dir {
        Some(dir) => dir.to_owned(),
        None => ".".to_owned(),
    };
    let name = match find_configured_dir(metadata) {
        Some(dir) => dir,
        None => "sql/unreleased".to_owned(),
    };
    FilePath { directory, name }
}

// ---------------------------------------------------------------------------
// What becomes of fragments
// ---------------------------------------------------------------------------

/// What is done with fragments that are not released.
#[derive(Debug, Clone, Copy, PartialEq, Eq)]
pub enum UnreleasedFragmentMode {
    /// Assemble them into the directory of the installed extension.
    AssembleEphemeral,
    /// Assemble them into the directory of the package.
    PackageAssemble,
    /// Refuse to go on.
    Disallow,
    /// Leave them out, without an error.
    Skip,
}

/// The files of an upgrade that is made for development or packaging.
#[derive(Debug, Clone, PartialEq, Eq)]
pub struct EphemeralUpgrade {
    pub prev_version: String,
    pub target_version: String,
    /// Where the script goes.
    pub script: FilePath,
    pub content: String,
    /// The control file that gets the target version, if it is there.
    pub control_file: FilePath,
    /// The base schema that is copied, if it is there, and where it goes.
    pub base_schema: Option<(FilePath, FilePath)>,
}

/// The contents of an `EphemeralUpgrade`.
pub struct UpgradeView {
    pub prev_version: Seq<char>,
    pub target_version: Seq<char>,
    pub script: PathView,
    pub content: Seq<char>,
    pub control_file: PathView,
    pub base_schema: Option<(PathView, PathView)>,
}

impl View for EphemeralUpgrade {
    type V = UpgradeView;

    open spec fn view(&self) -> UpgradeView {
        UpgradeView {
            prev_version: self.prev_version@,
            target_version: self.target_version@,
            script: self.script@,
            content: self.content@,
            control_file: self.control_file@,
            base_schema: match self.base_schema {
                Some(copy) => Some((copy.0@, copy.1@)),
                None => None,
            },
        }
    }
}

/// The version of the package.
pub open spec fn package_version(manifest_version: Option<Seq<char>>) -> Option<VersionView> {
    match manifest_version {
        Some(m) => lossy_version(m),
        None => None,
    }
}

/// The next patch after a version.
pub open spec fn next_patch(v: VersionView) -> VersionView {
    release(v.major, v.minor, (v.patch + 1) as u64)
}

/// The versions of an upgrade for development: from the latest release, or from the
/// version of the package.
pub open spec fn ephemeral_versions(
    names: Seq<Seq<char>>,
    extname: Seq<char>,
    manifest_version: Option<Seq<char>>,
) -> Option<(VersionView, VersionView)> {
    match (latest_version(names, extname), package_version(manifest_version)) {
        (Some(latest), package) => Some((latest, ephemeral_version(latest, package))),
        (None, Some(package)) => Some((package, next_patch(package))),
        (None, None) => None,
    }
}

/// Whether the versions of an upgrade for development can be told: the next patch
/// number, where it is used, fits.
pub open spec fn has_ephemeral_versions(
    names: Seq<Seq<char>>,
    extname: Seq<char>,
    manifest_version: Option<Seq<char>>,
) -> bool {
    match (latest_version(names, extname), package_version(manifest_version)) {
        (Some(latest), package) => has_ephemeral_version(latest, package),
        (None, Some(package)) => package.patch < u64::MAX,
        (None, None) => true,
    }
}

/// The name of the schema that installs a version.
pub open spec fn base_schema_name(extname: Seq<char>, version: Seq<char>) -> Seq<char> {
    extname + "--"@ + version + ".sql"@
}

/// The copy of the schema of the package for the target version, where they differ.
pub open spec fn base_schema_copy(
    extname: Seq<char>,
    extdir: Seq<char>,
    manifest_version: Option<Seq<char>>,
    target: Seq<char>,
) -> Option<(PathView, PathView)> {
    match manifest_version {
        Some(package) => if package != target {
            Some(
                (
                    PathView { directory: extdir, name: base_schema_name(extname, package) },
                    PathView { directory: extdir, name: base_schema_name(extname, target) },
                ),
            )
        } else {
            None
        },
        None => None,
    }
}

/// The upgrade between the given versions with the given fragments.
pub open spec fn upgrade_of(
    extname: Seq<char>,
    extdir: Seq<char>,
    manifest_version: Option<Seq<char>>,
    versions: (VersionView, VersionView),
    fs: Seq<FragmentView>,
) -> UpgradeView {
    let prev = version_text(versions.0);
    let target = version_text(versions.1);
    UpgradeView {
        prev_version: prev,
        target_version: target,
        script: PathView { directory: extdir, name: upgrade_script(extname, prev, target) },
        content: assembled(extname, target, fs),
        control_file: PathView { directory: extdir, name: control_filename(extname) },
        base_schema: base_schema_copy(extname, extdir, manifest_version, target),
    }
}

/// Whether fragments are assembled in this mode.
pub open spec fn is_assembling(mode: UnreleasedFragmentMode) -> bool {
    mode is AssembleEphemeral || mode is PackageAssemble
}

/// Whether there are fragments, and they are to be assembled.
pub open spec fn is_to_be_assembled(es: Seq<EntryView>, mode: UnreleasedFragmentMode) -> bool {
    is_assembling(mode) && (collected(es) matches Ok(fs) && fs.len() > 0)
}

/// What becomes of the fragments in a directory: nothing, a refusal, or an upgrade.
pub open spec fn unreleased_outcome(
    directory: Seq<char>,
    es: Seq<EntryView>,
    names: Seq<Seq<char>>,
    extname: Seq<char>,
    extdir: Seq<char>,
    manifest_version: Option<Seq<char>>,
    mode: UnreleasedFragmentMode,
) -> Result<Option<UpgradeView>, ErrorView> {
    if mode is Skip {
        Ok(None)
    } else {
        match collected(es) {
            Ok(fs) => if fs.len() == 0 {
                Ok(None)
            } else if mode is Disallow {
                Err(ErrorView::UnreleasedFragments { directory })
            } else {
                match ephemeral_versions(names, extname, manifest_version) {
                    Some(versions) => Ok(
                        Some(upgrade_of(extname, extdir, manifest_version, versions, fs)),
                    ),
                    None => Err(ErrorView::NoEphemeralVersion),
                }
            },
            Err(e) => Err(e),
        }
    }
}

/// Tells whether fragments need to be read: where they are left out, they do not.
pub fn needs_fragments(mode: UnreleasedFragmentMode) -> (r: bool)
    ensures
        r == !(mode is Skip),
{
    match mode {
        UnreleasedFragmentMode::Skip => false,
        _ => true,
    }
}

/// Names the schema that installs a version.
fn base_schema_file(extname: &str, version: &str) -> (r: String)
    ensures
        r@ == base_schema_name(extname@, version@),
{
    let mut out = extname.to_owned();
    out.append("--");
    out.append(version);
    out.append(".sql");
    out
}

/// Reads the version of the package.
fn parse_package_version(manifest_version: Option<&str>) -> (r: Option<Version>)
    ensures
        match r {
            Some(v) => v.wf() && package_version(optional_str(manifest_version)) == Some(v@),
            None => package_version(optional_str(manifest_version)) is None,
        },
{
    match manifest_version {
        Some(m) => parse_version_lossy(m),
        None => None,
    }
}

/// Tells the versions of an upgrade for development.
pub fn resolve_ephemeral_versions(
    file_names: &Vec<String>,
    extname: &str,
    manifest_version: Option<&str>,
) -> (r: Option<(Version, Version)>)
    requires
        has_ephemeral_versions(texts(file_names@), extname@, optional_str(manifest_version)),
    ensures
        match r {
            Some(versions) => ephemeral_versions(
                texts(file_names@),
                extname@,
                optional_str(manifest_version),
            ) == Some((versions.0@, versions.1@)),
            None => ephemeral_versions(
                texts(file_names@),
                extname@,
                optional_str(manifest_version),
            ) is None,
        },
{
    let package = parse_package_version(manifest_version);
    match (latest_sql_target(file_names, extname), package) {
        (Some(latest), Some(package)) => {
            let target = derive_ephemeral_target_version(&latest, Some(&package));
            Some((latest, target))
        },
        (Some(latest), None) => {
            let target = derive_ephemeral_target_version(&latest, None);
            Some((latest, target))
        },
        (None, Some(package)) => {
            let target = Version::new(package.major, package.minor, package.patch + 1);
            Some((package, target))
        },
        (None, None) => None,
    }
}

/// Tells whether the versions of an upgrade for development can be told.
fn ephemeral_versions_fit(
    file_names: &Vec<String>,
    extname: &str,
    manifest_version: Option<&str>,
) -> (r: bool)
    ensures
        r == has_ephemeral_versions(texts(file_names@), extname@, optional_str(manifest_version)),
{
    let package = parse_package_version(manifest_version);
    match (latest_sql_target(file_names, extname), package) {
        (Some(latest), Some(package)) => latest.patch < u64::MAX || latest.precedes(&package),
        (Some(latest), None) => latest.patch < u64::MAX,
        (None, Some(package)) => package.patch < u64::MAX,
        (None, None) => true,
    }
}

/// Tells whether there are fragments that are to be assembled.
fn has_upgrade(entries: &Vec<DirectoryEntry>, mode: UnreleasedFragmentMode) -> (r: bool)
    ensures
        r == is_to_be_assembled(entry_views(entries@), mode),
{
    let assembling = match mode {
        UnreleasedFragmentMode::AssembleEphemeral | UnreleasedFragmentMode::PackageAssemble => true,
        UnreleasedFragmentMode::Disallow | UnreleasedFragmentMode::Skip => false,
    };
    match collect_fragments_from_dir(entries) {
        Ok(fragments) => {
            assert(fragment_views(fragments@).len() == fragments@.len());
            assembling && fragments.len() > 0
        },
        Err(_) => false,
    }
}

/// Tells what becomes of the fragments in a directory, from its entries and from the
/// names of the upgrade scripts that exist.
pub fn handle_unreleased_fragments(
    directory: &str,
    entries: &Vec<DirectoryEntry>,
    file_names: &Vec<String>,
    extname: &str,
    extdir: &str,
    manifest_version: Option<&str>,
    mode: UnreleasedFragmentMode,
) -> (r: Result<Option<EphemeralUpgrade>, MigrateError>)
    requires
        is_to_be_assembled(entry_views(entries@), mode) ==> has_ephemeral_versions(
            texts(file_names@),
            extname@,
            optional_str(manifest_version),
        ),
    ensures
        match (
            unreleased_outcome(
                directory@,
                entry_views(entries@),
                texts(file_names@),
                extname@,
                extdir@,
                optional_str(manifest_version),
                mode,
            ),
            r,
        ) {
            (Ok(None), Ok(None)) => true,
            (Ok(Some(x)), Ok(Some(upgrade))) => upgrade@ == x,
            (Err(x), Err(e)) => e@ == x,
            _ => false,
        },
{
    if !needs_fragments(mode) {
        return Ok(None);
    }
    let fragments = match collect_fragments_from_dir(entries) {
        Ok(fragments) => fragments,
        Err(e) => return Err(e),
    };
    assert(fragment_views(fragments@).len() == fragments@.len());
    if fragments.len() == 0 {
        return Ok(None);
    }
    match mode {
        UnreleasedFragmentMode::Disallow => return Err(
            MigrateError::UnreleasedFragments { directory: directory.to_owned() },
        ),
        _ => {},
    }
    let (prev, target) = match resolve_ephemeral_versions(file_names, extname, manifest_version) {
        Some(versions) => versions,
        None => return Err(MigrateError::NoEphemeralVersion),
    };
    let prev_version = prev.to_string();
    let target_version = target.to_string();
    let name = upgrade_script_name(extname, prev_version.as_str(), target_version.as_str());
    let content = assemble_sql_content(extname, target_version.as_str(), &fragments);
    let control_file = FilePath { directory: extdir.to_owned(), name: control_file_name(extname) };
    let base_schema = match manifest_version {
        Some(package) => if same_text(package, target_version.as_str()) {
            None
        } else {
            let from = FilePath {
                directory: extdir.to_owned(),
                name: base_schema_file(extname, package),
            };
            let to = FilePath {
                directory: extdir.to_owned(),
                name: base_schema_file(extname, target_version.as_str()),
            };
            Some((from, to))
        },
        None => None,
    };
    Ok(
        Some(
            EphemeralUpgrade {
                prev_version,
                target_version,
                script: FilePath { directory: extdir.to_owned(), name },
                content,
                control_file,
                base_schema,
            },
        ),
    )
}

/// Tells what becomes of the fragments in a directory, or nothing where the next patch
/// number does not fit.
pub fn checked_unreleased_fragments(
    directory: &str,
    entries: &Vec<DirectoryEntry>,
    file_names: &Vec<String>,
    extname: &str,
    extdir: &str,
    manifest_version: Option<&str>,
    mode: UnreleasedFragmentMode,
) -> (r: Option<Result<Option<EphemeralUpgrade>, MigrateError>>)
    ensures
        r is Some <==> (is_to_be_assembled(entry_views(entries@), mode) ==> has_ephemeral_versions(
            texts(file_names@),
            extname@,
            optional_str(manifest_version),
        )),
        r matches Some(outcome) ==> match (
            unreleased_outcome(
                directory@,
                entry_views(entries@),
                texts(file_names@),
                extname@,
                extdir@,
                optional_str(manifest_version),
                mode,
            ),
            outcome,
        ) {
            (Ok(None), Ok(None)) => true,
            (Ok(Some(x)), Ok(Some(upgrade))) => upgrade@ == x,
            (Err(x), Err(e)) => e@ == x,
            _ => false,
        },
{
    if !has_upgrade(entries, mode) || ephemeral_versions_fit(file_names, extname, manifest_version) {
        Some(
            handle_unreleased_fragments(
                directory,
                entries,
                file_names,
                extname,
                extdir,
                manifest_version,
                mode,
            ),
        )
    } else {
        None
    }
}

/// What is to be done next with an upgrade.
#[derive(Debug, Clone, Copy, PartialEq, Eq)]
pub enum InstallStep {
    /// Write the script.
    WriteScript,
    /// See whether the control file is there.
    LookForControlFile,
    /// Write the target version into the control file.
    UpdateControlFile,
    /// See whether the base schema of the package is there.
    LookForBaseSchema,
    /// Copy the base schema.
    CopyBaseSchema,
    /// Nothing is left to do.
    Finish,
}

/// What was done last with an upgrade.
#[derive(Debug, Clone, Copy, PartialEq, Eq)]
pub enum InstallEvent {
    Started,
    ScriptWritten,
    ControlFileSeen { exists: bool },
    ControlFileUpdated,
    BaseSchemaSeen { exists: bool },
    BaseSchemaCopied,
}

/// The step that follows the control file.
pub open spec fn base_schema_step(has_base_schema: bool) -> InstallStep {
    if has_base_schema {
        InstallStep::LookForBaseSchema
    } else {
        InstallStep::Finish
    }
}

/// What follows what was done last with an upgrade.
pub open spec fn install_step_after(has_base_schema: bool, event: InstallEvent) -> InstallStep {
    match event {
        InstallEvent::Started => InstallStep::WriteScript,
        InstallEvent::ScriptWritten => InstallStep::LookForControlFile,
        InstallEvent::ControlFileSeen { exists } => if exists {
            InstallStep::UpdateControlFile
        } else {
            base_schema_step(has_base_schema)
        },
        InstallEvent::ControlFileUpdated => base_schema_step(has_base_schema),
        InstallEvent::BaseSchemaSeen { exists } => if exists {
            InstallStep::CopyBaseSchema
        } else {
            InstallStep::Finish
        },
        InstallEvent::BaseSchemaCopied => InstallStep::Finish,
    }
}

/// Tells what follows what was done last with an upgrade.
pub fn next_install_step(upgrade: &EphemeralUpgrade, event: InstallEvent) -> (r: InstallStep)
    ensures
        r == install_step_after(upgrade@.base_schema is Some, event),
{
    let after_control = if upgrade.base_schema.is_some() {
        InstallStep::LookForBaseSchema
    } else {
        InstallStep::Finish
    };
    match event {
        InstallEvent::Started => InstallStep::WriteScript,
        InstallEvent::ScriptWritten => InstallStep::LookForControlFile,
        InstallEvent::ControlFileSeen { exists } => if exists {
            InstallStep::UpdateControlFile
        } else {
            after_control
        },
        InstallEvent::ControlFileUpdated => after_control,
        InstallEvent::BaseSchemaSeen { exists } => if exists {
            InstallStep::CopyBaseSchema
        } else {
            InstallStep::Finish
        },
        InstallEvent::BaseSchemaCopied => InstallStep::Finish,
    }
}

/// The file that a step writes: the script, the control file, or the copy of the base
/// schema.
pub open spec fn step_path(upgrade: UpgradeView, step: InstallStep) -> Option<PathView> {
    match step {
        InstallStep::WriteScript => Some(upgrade.script),
        InstallStep::UpdateControlFile => Some(upgrade.control_file),
        InstallStep::CopyBaseSchema => match upgrade.base_schema {
            Some(copy) => Some(copy.1),
            None => None,
        },
        _ => None,
    }
}

/// Tells which file a step writes.
pub fn step_file(upgrade: &EphemeralUpgrade, step: InstallStep) -> (r: Option<FilePath>)
    ensures
        match r {
            Some(file) => step_path(upgrade@, step) == Some(file@),
            None => step_path(upgrade@, step) is None,
        },
{
    match step {
        InstallStep::WriteScript => Some(upgrade.script.duplicate()),
        InstallStep::UpdateControlFile => Some(upgrade.control_file.duplicate()),
        InstallStep::CopyBaseSchema => match &upgrade.base_schema {
            Some(copy) => Some(copy.1.duplicate()),
            None => None,
        },
        _ => None,
    }
}

/// The file that is new once something was done: the script, or the copied base schema.
pub open spec fn new_file(upgrade: UpgradeView, event: InstallEvent) -> Option<PathView> {
    match event {
        InstallEvent::ScriptWritten => Some(upgrade.script),
        InstallEvent::BaseSchemaCopied => match upgrade.base_schema {
            Some(copy) => Some(copy.1),
            None => None,
        },
        _ => None,
    }
}

/// Tells which file is new once something was done.
pub fn written_file(upgrade: &EphemeralUpgrade, event: InstallEvent) -> (r: Option<FilePath>)
    ensures
        match r {
            Some(file) => new_file(upgrade@, event) == Some(file@),
            None => new_file(upgrade@, event) is None,
        },
{
    match event {
        InstallEvent::ScriptWritten => Some(upgrade.script.duplicate()),
        InstallEvent::BaseSchemaCopied => match &upgrade.base_schema {
            Some(copy) => Some(copy.1.duplicate()),
            None => None,
        },
        _ => None,
    }
}

// ---------------------------------------------------------------------------
// Laws
// ---------------------------------------------------------------------------

/// Packaging refuses to go on exactly where there are fragments.
pub proof fn law_packaging_is_protected(
    directory: Seq<char>,
    es: Seq<EntryView>,
    names: Seq<Seq<char>>,
    extname: Seq<char>,
    extdir: Seq<char>,
    manifest_version: Option<Seq<char>>,
)
    ensures
        collected(es) matches Ok(fs) ==> unreleased_outcome(
            directory,
            es,
            names,
            extname,
            extdir,
            manifest_version,
            UnreleasedFragmentMode::Disallow,
        ) == (if fs.len() == 0 {
            Ok::<Option<UpgradeView>, ErrorView>(None)
        } else {
            Err(ErrorView::UnreleasedFragments { directory })
        }),
{
}

/// Where fragments are left out, whatever they hold, and where there are none, in whatever
/// mode, nothing is done, and that is no error.
pub proof fn law_nothing_to_do(
    directory: Seq<char>,
    es: Seq<EntryView>,
    names: Seq<Seq<char>>,
    extname: Seq<char>,
    extdir: Seq<char>,
    manifest_version: Option<Seq<char>>,
    mode: UnreleasedFragmentMode,
)
    requires
        mode is Skip || (collected(es) matches Ok(fs) && fs.len() == 0),
    ensures
        unreleased_outcome(directory, es, names, extname, extdir, manifest_version, mode) == Ok::<
            Option<UpgradeView>,
            ErrorView,
        >(None),
{
}

/// For development and for packaging fragments are assembled in the same way.
pub proof fn law_assembling_modes_agree(
    directory: Seq<char>,
    es: Seq<EntryView>,
    names: Seq<Seq<char>>,
    extname: Seq<char>,
    extdir: Seq<char>,
    manifest_version: Option<Seq<char>>,
)
    ensures
        unreleased_outcome(
            directory,
            es,
            names,
            extname,
            extdir,
            manifest_version,
            UnreleasedFragmentMode::AssembleEphemeral,
        ) == unreleased_outcome(
            directory,
            es,
            names,
            extname,
            extdir,
            manifest_version,
            UnreleasedFragmentMode::PackageAssemble,
        ),
{
}

/// Every file that an installation writes lies in the directory of the extension, whatever
/// it finds there.
pub proof fn law_installation_stays_in_its_directory(
    directory: Seq<char>,
    es: Seq<EntryView>,
    names: Seq<Seq<char>>,
    extname: Seq<char>,
    extdir: Seq<char>,
    manifest_version: Option<Seq<char>>,
    mode: UnreleasedFragmentMode,
    events: Seq<InstallEvent>,
)
    ensures
        unreleased_outcome(
            directory,
            es,
            names,
            extname,
            extdir,
            manifest_version,
            mode,
        ) matches Ok(Some(upgrade)) ==> {
            &&& forall|step: InstallStep| #[trigger]
                step_path(upgrade, step) matches Some(file) ==> file.directory == extdir
            &&& forall|k: int|
                0 <= k < new_files(upgrade, events).len() ==> (#[trigger] new_files(
                    upgrade,
                    events,
                )[k]).directory == extdir
        },
    decreases events.len(),
{
    if events.len() > 0 {
        let head = events.drop_last();
        law_installation_stays_in_its_directory(
            directory,
            es,
            names,
            extname,
            extdir,
            manifest_version,
            mode,
            head,
        );
        if let Ok(Some(upgrade)) = unreleased_outcome(
            directory,
            es,
            names,
            extname,
            extdir,
            manifest_version,
            mode,
        ) {
            let earlier = new_files(upgrade, head);
            let all = new_files(upgrade, events);
            assert forall|k: int| 0 <= k < all.len() implies (#[trigger] all[k]).directory
                == extdir by {
                if k < earlier.len() {
                    assert(all[k] == earlier[k]);
                }
            }
        }
    }
}

/// A file that is new was written by a step: the one that the event tells of.
pub proof fn law_new_files_are_written(
    upgrade: UpgradeView,
    step: InstallStep,
    event: InstallEvent,
)
    requires
        is_install_outcome(step, event),
    ensures
        new_file(upgrade, event) matches Some(file) ==> step_path(upgrade, step) == Some(file),
{
}

/// An upgrade for development goes to a later version than it comes from.
pub proof fn law_ephemeral_upgrade_goes_forward(
    names: Seq<Seq<char>>,
    extname: Seq<char>,
    manifest_version: Option<Seq<char>>,
)
    requires
        has_ephemeral_versions(names, extname, manifest_version),
    ensures
        ephemeral_versions(names, extname, manifest_version) matches Some(versions)
            ==> version_less(versions.0, versions.1),
{
    if let Some(latest) = latest_version(names, extname) {
        law_ephemeral_version_is_later(latest, package_version(manifest_version));
    }
}

/// An upgrade for development comes from the latest release, if there is one.
pub proof fn law_ephemeral_upgrade_starts_at_latest(
    names: Seq<Seq<char>>,
    extname: Seq<char>,
    manifest_version: Option<Seq<char>>,
    v: VersionView,
)
    requires
        is_existing(names, extname, v),
    ensures
        ephemeral_versions(names, extname, manifest_version) matches Some(versions)
            && is_latest(names, extname, versions.0),
{
    law_latest_version(names, extname);
}

/// Whether `event` tells that `step` was done.
pub open spec fn is_install_outcome(step: InstallStep, event: InstallEvent) -> bool {
    match step {
        InstallStep::WriteScript => event is ScriptWritten,
        InstallStep::LookForControlFile => event is ControlFileSeen,
        InstallStep::UpdateControlFile => event is ControlFileUpdated,
        InstallStep::LookForBaseSchema => event is BaseSchemaSeen,
        InstallStep::CopyBaseSchema => event is BaseSchemaCopied,
        InstallStep::Finish => false,
    }
}

/// Whether `events` is a course of an installation: it starts, and each step that follows
/// from an event is what the next event tells of.
pub open spec fn is_install_course(has_base_schema: bool, events: Seq<InstallEvent>) -> bool {
    &&& events.len() > 0
    &&& events[0] is Started
    &&& forall|k: int|
        0 <= k < events.len() - 1 ==> is_install_outcome(
            install_step_after(has_base_schema, #[trigger] events[k]),
            events[k + 1],
        )
}

/// The course of an installation, by what it finds.
pub open spec fn install_course(
    has_base_schema: bool,
    control_exists: bool,
    base_exists: bool,
) -> Seq<InstallEvent> {
    let head = seq![
        InstallEvent::Started,
        InstallEvent::ScriptWritten,
        InstallEvent::ControlFileSeen { exists: control_exists },
    ];
    let control = if control_exists {
        seq![InstallEvent::ControlFileUpdated]
    } else {
        seq![]
    };
    let base = if !has_base_schema {
        seq![]
    } else if base_exists {
        seq![InstallEvent::BaseSchemaSeen { exists: true }, InstallEvent::BaseSchemaCopied]
    } else {
        seq![InstallEvent::BaseSchemaSeen { exists: false }]
    };
    head + control + base
}

/// Every installation that comes to its end writes the script, then updates the control
/// file where there is one, and then copies the base schema where that is called for and
/// there is one.
pub proof fn law_install_course(has_base_schema: bool, events: Seq<InstallEvent>)
    requires
        is_install_course(has_base_schema, events),
        install_step_after(has_base_schema, events.last()) is Finish,
    ensures
        exists|control_exists: bool, base_exists: bool|
            events == #[trigger] install_course(has_base_schema, control_exists, base_exists),
{
    let next = |k: int| install_step_after(has_base_schema, events[k]);
    assert(next(0) is WriteScript);
    assert(events.len() > 1 && is_install_outcome(next(0), events[1]));
    assert(next(1) is LookForControlFile);
    assert(events.len() > 2 && is_install_outcome(next(1), events[2]));
    let control_exists = events[2]->ControlFileSeen_exists;
    let n: int = if control_exists {
        assert(next(2) is UpdateControlFile);
        assert(events.len() > 3 && is_install_outcome(next(2), events[3]));
        3
    } else {
        2
    };
    assert(next(n) == base_schema_step(has_base_schema));
    if has_base_schema {
        assert(events.len() > n + 1 && is_install_outcome(next(n), events[n + 1]));
        let base_exists = events[n + 1]->BaseSchemaSeen_exists;
        if base_exists {
            assert(next(n + 1) is CopyBaseSchema);
            assert(events.len() > n + 2 && is_install_outcome(next(n + 1), events[n + 2]));
            assert(next(n + 2) is Finish);
            if events.len() > n + 3 {
                assert(is_install_outcome(next(n + 2), events[n + 3]));
            }
        } else {
            assert(next(n + 1) is Finish);
            if events.len() > n + 2 {
                assert(is_install_outcome(next(n + 1), events[n + 2]));
            }
        }
        assert(events =~= install_course(has_base_schema, control_exists, base_exists));
    } else {
        if events.len() > n + 1 {
            assert(is_install_outcome(next(n), events[n + 1]));
        }
        assert(events =~= install_course(has_base_schema, control_exists, false));
    }
}

/// The files that are new once all of this was done.
pub open spec fn new_files(upgrade: UpgradeView, events: Seq<InstallEvent>) -> Seq<PathView>
    decreases events.len(),
{
    if events.len() == 0 {
        seq![]
    } else {
        let earlier = new_files(upgrade, events.drop_last());
        match new_file(upgrade, events.last()) {
            Some(file) => earlier.push(file),
            None => earlier,
        }
    }
}

/// An installation leaves the script and, where there was a base schema to copy, that
/// schema under the target version: a new installation of the extension finds it whenever
/// the package has another version.
pub proof fn law_installed_files(
    extname: Seq<char>,
    extdir: Seq<char>,
    manifest_version: Option<Seq<char>>,
    versions: (VersionView, VersionView),
    fs: Seq<FragmentView>,
    control_exists: bool,
    base_exists: bool,
)
    ensures
        ({
            let target = version_text(versions.1);
            let upgrade = upgrade_of(extname, extdir, manifest_version, versions, fs);
            let called_for = manifest_version is Some && manifest_version != Some(target);
            let installed = PathView { directory: extdir, name: base_schema_name(extname, target) };
            &&& (upgrade.base_schema is Some) == called_for
            &&& new_files(upgrade, install_course(called_for, control_exists, base_exists)) == (
            if called_for && base_exists {
                seq![upgrade.script, installed]
            } else {
                seq![upgrade.script]
            })
        }),
{
    let target = version_text(versions.1);
    let upgrade = upgrade_of(extname, extdir, manifest_version, versions, fs);
    let called_for = manifest_version is Some && manifest_version != Some(target);
    let events = install_course(called_for, control_exists, base_exists);
    lemma_new_files(upgrade, events, events.len() as int);
}

/// The files that are new once the first `n` things of a course were done.
proof fn lemma_new_files(upgrade: UpgradeView, events: Seq<InstallEvent>, n: int)
    requires
        0 <= n <= events.len(),
        events.len() > 1,
        forall|k: int| 0 <= k < events.len() ==> (#[trigger] events[k] is ScriptWritten <==> k == 1),
        forall|k: int|
            0 <= k < events.len() && (#[trigger] events[k]) is BaseSchemaCopied ==> k == events.len()
                - 1,
    ensures
        new_files(upgrade, events.take(n)) == if n <= 1 {
            seq![]
        } else if n == events.len() && events.last() is BaseSchemaCopied && upgrade.base_schema is Some {
            seq![upgrade.script, (upgrade.base_schema->0).1]
        } else {
            seq![upgrade.script]
        },
        new_files(upgrade, events) == new_files(upgrade, events.take(events.len() as int)),
    decreases n,
{
    assert(events.take(events.len() as int) =~= events);
    if n > 0 {
        lemma_new_files(upgrade, events, n - 1);
        assert(events.take(n).drop_last() =~= events.take(n - 1));
        assert(events.take(n).last() == events[n - 1]);
        assert(new_files(upgrade, events.take(n)) =~= if n <= 1 {
            seq![]
        } else if n == events.len() && events.last() is BaseSchemaCopied && upgrade.base_schema is Some {
            seq![upgrade.script, (upgrade.base_schema->0).1]
        } else {
            seq![upgrade.script]
        });
    }
}

/// A key has the value that stands first under it, and none where no entry has the key.
pub proof fn law_first_value_counts(
    table: Seq<(String, MetadataValue)>,
    key: Seq<char>,
    k: int,
)
    requires
        0 <= k <= table.len(),
        forall|i: int| 0 <= i < k ==> (#[trigger] table[i]).0@ != key,
    ensures
        k < table.len() && table[k].0@ == key ==> value_of(table, key) == Some(table[k].1),
        k == table.len() ==> value_of(table, key) is None,
{
    lemma_value_from(table, key, 0, k);
}

proof fn lemma_value_from(table: Seq<(String, MetadataValue)>, key: Seq<char>, from: int, k: int)
    requires
        0 <= from <= k <= table.len(),
        forall|i: int| from <= i < k ==> (#[trigger] table[i]).0@ != key,
    ensures
        value_from(table, key, from) == value_from(table, key, k),
    decreases k - from,
{
    if from < k {
        lemma_value_from(table, key, from + 1, k);
    }
}

/// The settings of the tool stand under `pgrx`. There the directory of fragments is the text
/// under `unreleased-sql-dir`, or where that key is missing under `unreleased_sql_dir`, and
/// otherwise `sql/unreleased`. It is seen from the directory of the manifest.
pub proof fn law_directory_of_fragments(
    tools: Vec<(String, MetadataValue)>,
    settings: Vec<(String, MetadataValue)>,
    manifest_dir: Seq<char>,
    dir: String,
)
    requires
        value_of(tools@, "pgrx"@) == Some(MetadataValue::Table(settings)),
    ensures
        ({
            let found = unreleased_dir(Some(MetadataValue::Table(tools)), Some(manifest_dir));
            let dashes = value_of(settings@, "unreleased-sql-dir"@);
            let underscores = value_of(settings@, "unreleased_sql_dir"@);
            &&& found.directory == manifest_dir
            &&& dashes == Some(MetadataValue::Text(dir)) ==> found.name == dir@
            &&& dashes is None && underscores == Some(MetadataValue::Text(dir)) ==> found.name
                == dir@
            &&& dashes is None && underscores is None ==> found.name == "sql/unreleased"@
            &&& dashes is Some && !(dashes->0 is Text) ==> found.name == "sql/unreleased"@
        }),
{
}

/// Without settings of the tool fragments are in `sql/unreleased`, and without a directory
/// of the manifest that is seen from the current one.
pub proof fn law_default_directory_of_fragments(
    metadata: Option<MetadataValue>,
    manifest_dir: Option<Seq<char>>,
)
    ensures
        manifest_dir is None ==> unreleased_dir(metadata, manifest_dir).directory == "."@,
        metadata is None ==> unreleased_dir(metadata, manifest_dir).name == "sql/unreleased"@,
        metadata matches Some(MetadataValue::Table(tools)) && value_of(tools@, "pgrx"@) is None
            ==> unreleased_dir(metadata, manifest_dir).name == "sql/unreleased"@,
{
}

/// An upgrade is made exactly where fragments are to be assembled, there are some, and the
/// versions can be told. Where they cannot, that is the error.
pub proof fn law_when_an_upgrade_is_made(
    directory: Seq<char>,
    es: Seq<EntryView>,
    names: Seq<Seq<char>>,
    extname: Seq<char>,
    extdir: Seq<char>,
    manifest_version: Option<Seq<char>>,
    mode: UnreleasedFragmentMode,
)
    requires
        collected(es) is Ok,
    ensures
        ({
            let outcome = unreleased_outcome(
                directory,
                es,
                names,
                extname,
                extdir,
                manifest_version,
                mode,
            );
            let assembling = (mode is AssembleEphemeral || mode is PackageAssemble)
                && entry_fragments(es).len() > 0;
            let told = (manifest_version matches Some(m) && lossy_version(m) is Some) || exists|
                v: VersionView,
            | is_existing(names, extname, v);
            &&& (outcome is Ok && outcome->Ok_0 is Some) <==> assembling && told
            &&& outcome == Err::<Option<UpgradeView>, ErrorView>(ErrorView::NoEphemeralVersion)
                <==> assembling && !told
        }),
{
    law_latest_version(names, extname);
    let order = law_collected_fragments(es);
}

/// A directory whose fragments cannot be collected is an error in every mode but that which
/// leaves them out.
pub proof fn law_broken_fragments_are_reported(
    directory: Seq<char>,
    es: Seq<EntryView>,
    names: Seq<Seq<char>>,
    extname: Seq<char>,
    extdir: Seq<char>,
    manifest_version: Option<Seq<char>>,
    mode: UnreleasedFragmentMode,
    e: ErrorView,
)
    requires
        collected(es) == Err::<Seq<FragmentView>, ErrorView>(e),
        !(mode is Skip),
    ensures
        unreleased_outcome(directory, es, names, extname, extdir, manifest_version, mode) == Err::<
            Option<UpgradeView>,
            ErrorView,
        >(e),
{
}

/// The files of an upgrade are in the directory of the extension and are named after it: the
/// script after both versions, the schema that is copied after that of the package, its copy
/// after the target. The script holds the collected fragments.
pub proof fn law_files_of_an_upgrade(
    directory: Seq<char>,
    es: Seq<EntryView>,
    names: Seq<Seq<char>>,
    extname: Seq<char>,
    extdir: Seq<char>,
    manifest_version: Option<Seq<char>>,
    mode: UnreleasedFragmentMode,
)
    ensures
        unreleased_outcome(
            directory,
            es,
            names,
            extname,
            extdir,
            manifest_version,
            mode,
        ) matches Ok(Some(upgrade)) ==> {
            &&& upgrade.script.directory == extdir
            &&& upgrade.script.name == extname + "--"@ + upgrade.prev_version + "--"@
                + upgrade.target_version + ".sql"@
            &&& upgrade.control_file.directory == extdir
            &&& upgrade.control_file.name == extname + ".control"@
            &&& collected(es) is Ok && upgrade.content == assembled(
                extname,
                upgrade.target_version,
                collected(es)->Ok_0,
            )
            &&& upgrade.base_schema is Some <==> manifest_version is Some && manifest_version->0
                != upgrade.target_version
            &&& upgrade.base_schema matches Some(copy) ==> {
                &&& copy.0.directory == extdir && copy.1.directory == extdir
                &&& copy.0.name == extname + "--"@ + manifest_version->0 + ".sql"@
                &&& copy.1.name == extname + "--"@ + upgrade.target_version + ".sql"@
            }
        },
{
}

/// The versions of an upgrade for development. From the latest release it goes to the version
/// of the package, where that is ahead, and otherwise to the next patch. Without a release it
/// goes from the version of the package to the next patch.
pub proof fn law_versions_of_an_upgrade(
    directory: Seq<char>,
    es: Seq<EntryView>,
    names: Seq<Seq<char>>,
    extname: Seq<char>,
    extdir: Seq<char>,
    manifest_version: Option<Seq<char>>,
    mode: UnreleasedFragmentMode,
    latest: VersionView,
    package: VersionView,
    next: VersionView,
)
    requires
        latest.patch < u64::MAX,
        next == release(latest.major, latest.minor, (latest.patch + 1) as u64),
    ensures
        unreleased_outcome(
            directory,
            es,
            names,
            extname,
            extdir,
            manifest_version,
            mode,
        ) matches Ok(Some(upgrade)) ==> {
            &&& is_latest(names, extname, latest) && (manifest_version is Some && lossy_version(
                manifest_version->0,
            ) == Some(package)) ==> upgrade.prev_version == version_text(latest)
                && upgrade.target_version == (if version_less(latest, package) {
                version_text(package)
            } else {
                version_text(next)
            })
            &&& is_latest(names, extname, latest) && (manifest_version is None || lossy_version(
                manifest_version->0,
            ) is None) ==> upgrade.prev_version == version_text(latest) && upgrade.target_version
                == version_text(next)
            &&& (forall|v: VersionView| !is_existing(names, extname, v)) && (manifest_version
                is Some && lossy_version(manifest_version->0) == Some(latest))
                ==> upgrade.prev_version == version_text(latest) && upgrade.target_version
                == version_text(next)
        },
{
    law_latest_version(names, extname);
    if is_latest(names, extname, latest) {
        let top = latest_version(names, extname)->0;
        if top != latest {
            law_version_order_is_total(top, latest);
        }
    }
}

/// The steps that write a file are those that write the script, update the control file and
/// copy the base schema, each of them its own. Of the files that are written only the updated
/// control file is not new.
pub proof fn law_steps_that_write(upgrade: UpgradeView, step: InstallStep)
    ensures
        step_path(upgrade, InstallStep::WriteScript) == Some(upgrade.script),
        step_path(upgrade, InstallStep::UpdateControlFile) == Some(upgrade.control_file),
        upgrade.base_schema matches Some(copy) ==> step_path(upgrade, InstallStep::CopyBaseSchema)
            == Some(copy.1),
        step is LookForControlFile || step is LookForBaseSchema || step is Finish ==> step_path(
            upgrade,
            step,
        ) is None,
        new_file(upgrade, InstallEvent::ScriptWritten) == Some(upgrade.script),
        upgrade.base_schema matches Some(copy) ==> new_file(upgrade, InstallEvent::BaseSchemaCopied)
            == Some(copy.1),
        new_file(upgrade, InstallEvent::ControlFileUpdated) is None,
{
}

/// The contents of an upgrade are all of its parts.
pub proof fn law_upgrade_contents(upgrade: EphemeralUpgrade)
    ensures
        upgrade@.prev_version == upgrade.prev_version@,
        upgrade@.target_version == upgrade.target_version@,
        upgrade@.script == upgrade.script@,
        upgrade@.content == upgrade.content@,
        upgrade@.control_file == upgrade.control_file@,
        upgrade.base_schema is None <==> upgrade@.base_schema is None,
        upgrade.base_schema matches Some(copy) ==> upgrade@.base_schema == Some(
            (copy.0@, copy.1@),
        ),
{
}

}
