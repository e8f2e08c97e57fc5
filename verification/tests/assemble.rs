use pgrx_migrate::assemble::{
    assemble_policy, assemble_release_upgrade_script, choose_control_file, control_file_name,
    next_step, AssembleEvent, AssembleParams, AssembleStep, ControlFileUpdate, CrateDir,
    FragmentRetention, ManifestVersionStr, MigrationDirectories, OutputDir, PrevVersionStr, SqlDir,
    TargetVersionStr, UnreleasedDir, VersionSpec,
};
use pgrx_migrate::collect::DirectoryEntry;
use pgrx_migrate::error::MigrateError;
use pgrx_migrate::info;
use pgrx_migrate::path::FilePath;
use pgrx_migrate::report::{render_plan_text, Piece, Style};

fn entry(filename: &str, content: &str) -> DirectoryEntry {
    DirectoryEntry {
        path: format!("sql/unreleased/{filename}"),
        filename: Some(filename.to_string()),
        is_file: true,
        content: Some(content.to_string()),
    }
}

fn path(directory: &str, name: &str) -> FilePath {
    FilePath { directory: directory.to_string(), name: name.to_string() }
}

fn params<'a>(target: &'a str, prev: Option<&'a str>, manifest: Option<&'a str>) -> AssembleParams<'a> {
    AssembleParams {
        extname: "test_ext",
        dirs: MigrationDirectories {
            crate_dir: None,
            sql_dir: SqlDir("sql"),
            unreleased_dir: UnreleasedDir("sql/unreleased"),
            output_dir: None,
        },
        versions: VersionSpec {
            target_version: TargetVersionStr(target),
            prev_version: PrevVersionStr(prev),
            manifest_version: ManifestVersionStr(manifest),
        },
        retention: FragmentRetention::Consume,
        allow_empty: false,
        control_update: ControlFileUpdate::Skip,
    }
}

fn request<'a>(target: Option<&'a str>, manifest: Option<&'a str>) -> info::PlanRequest<'a> {
    info::PlanRequest {
        extname: "test_ext",
        dirs: info::PlanDirectories {
            sql_dir: info::SqlDir("sql"),
            unreleased_dir: info::UnreleasedDir("sql/unreleased"),
            output_dir: None,
        },
        target_version: target,
        prev_version: None,
        manifest_version: manifest,
    }
}

/// Runs an assembly without failures, and tells the steps.
fn course(params: AssembleParams<'_>, count: usize, seen: (bool, bool)) -> Result<Vec<AssembleStep>, MigrateError> {
    let mut steps = vec![];
    let mut event = AssembleEvent::Started;
    loop {
        let step = next_step(params, count, event)?;
        event = match &step {
            AssembleStep::WriteScript => AssembleEvent::ScriptWritten,
            AssembleStep::LookForControlFile => {
                AssembleEvent::ControlFilesSeen { in_output_dir: seen.0, in_crate_dir: seen.1 }
            }
            AssembleStep::UpdateControlFile { .. } => AssembleEvent::ControlFileUpdated,
            AssembleStep::RemoveFragment { index } => AssembleEvent::FragmentRemoved { index: *index },
            AssembleStep::Finish => return Ok(steps),
        };
        steps.push(step);
    }
}

#[test]
fn assembles_a_script() {
    let files = vec!["test_ext--0.1.0--0.2.0.sql".to_string()];
    let entries = vec![entry("10.f1.sql", "SELECT 1;")];
    let script =
        assemble_release_upgrade_script(params("0.3.0", None, Some("0.3.0")), &files, &entries).unwrap();
    assert_eq!(script.output_file, path("sql", "test_ext--0.2.0--0.3.0.sql"));
    assert_eq!(script.target_version, "0.3.0");
    assert!(script.content.contains("ALTER EXTENSION test_ext UPDATE TO '0.3.0'"));
    assert!(script.content.contains("SELECT 1;"));
    assert_eq!(script.fragments.len(), 1);
    assert_eq!(script.fragments[0].path, "sql/unreleased/10.f1.sql");
}

#[test]
fn scripts_hold_prerequisites_first() {
    let entries = vec![
        entry("1.late.sql", "-- depends-on: base\nSELECT 'late';"),
        entry("base.sql", "SELECT 'base';"),
        entry("2.free.sql", "SELECT 'free';"),
    ];
    let script =
        assemble_release_upgrade_script(params("0.3.0", Some("0.2.0"), None), &vec![], &entries).unwrap();
    let at = |text: &str| script.content.find(text).unwrap();
    assert!(at("SELECT 'free';") < at("SELECT 'base';"));
    assert!(at("SELECT 'base';") < at("SELECT 'late';"));
    assert!(at("-- Fragment: base.sql") < at("SELECT 'base';"));
}

#[test]
fn an_output_directory_takes_precedence() {
    let mut p = params("v0.3.0-rc1", Some("0.2.0"), None);
    p.dirs.output_dir = Some(OutputDir("out"));
    let script =
        assemble_release_upgrade_script(p, &vec![], &vec![entry("10.f1.sql", "SELECT 1;")]).unwrap();
    assert_eq!(script.output_file, path("out", "test_ext--0.2.0--0.3.0.sql"));
}

#[test]
fn nothing_to_assemble_is_an_error() {
    let err = assemble_release_upgrade_script(params("0.3.0", Some("0.2.0"), None), &vec![], &vec![])
        .unwrap_err();
    assert_eq!(err, MigrateError::NoFragments { directory: "sql/unreleased".to_string() });
    assert_eq!(
        err.message(),
        "no unreleased SQL migration fragments found in `sql/unreleased`. Specify a target version or pass `--allow-empty` to generate a stub upgrade script."
    );
}

#[test]
fn a_stub_where_that_is_allowed() {
    let mut p = params("0.3.0", Some("0.2.0"), None);
    p.allow_empty = true;
    let script = assemble_release_upgrade_script(p, &vec![], &vec![]).unwrap();
    assert_eq!(script.output_file, path("sql", "test_ext--0.2.0--0.3.0.sql"));
    assert_eq!(
        script.content.trim(),
        "\\echo Use \"ALTER EXTENSION test_ext UPDATE TO '0.3.0'\" to load this file. \\quit"
    );
}

#[test]
fn versions_are_checked_before_fragments() {
    let unreadable = vec![DirectoryEntry { content: None, ..entry("1.a.sql", "") }];
    let err = assemble_release_upgrade_script(params("x.y", None, None), &vec![], &unreadable)
        .unwrap_err();
    assert_eq!(err, MigrateError::InvalidTargetVersion { version: "x.y".to_string() });
    assert_eq!(err.message(), "invalid semver for target version `x.y`");
    let err = assemble_release_upgrade_script(params("1.0", None, None), &vec![], &unreadable)
        .unwrap_err();
    assert_eq!(err, MigrateError::NoPreviousVersion { target: "1.0.0".to_string() });
    let err = assemble_release_upgrade_script(params("1.0", Some("0.9"), None), &vec![], &unreadable)
        .unwrap_err();
    assert_eq!(err, MigrateError::UnreadableFragment { path: "sql/unreleased/1.a.sql".to_string() });
}

#[test]
fn options_shape_an_assembly() {
    assert_eq!(
        assemble_policy(false, false, false, false),
        (FragmentRetention::Consume, ControlFileUpdate::Skip, false)
    );
    assert_eq!(
        assemble_policy(true, true, false, true),
        (FragmentRetention::Preserve, ControlFileUpdate::Update, true)
    );
    assert!(assemble_policy(false, false, true, false).2);
}

#[test]
fn steps_of_an_assembly() {
    let mut p = params("0.3.0", None, None);
    assert_eq!(
        course(p, 2, (false, false)).unwrap(),
        vec![
            AssembleStep::WriteScript,
            AssembleStep::RemoveFragment { index: 0 },
            AssembleStep::RemoveFragment { index: 1 },
        ]
    );
    p.retention = FragmentRetention::Preserve;
    assert_eq!(course(p, 2, (false, false)).unwrap(), vec![AssembleStep::WriteScript]);
    p.control_update = ControlFileUpdate::Update;
    p.dirs.crate_dir = Some(CrateDir("crate"));
    p.dirs.output_dir = Some(OutputDir("out"));
    p.retention = FragmentRetention::Consume;
    assert_eq!(
        course(p, 1, (false, true)).unwrap(),
        vec![
            AssembleStep::WriteScript,
            AssembleStep::LookForControlFile,
            AssembleStep::UpdateControlFile { path: path("crate", "test_ext.control") },
            AssembleStep::RemoveFragment { index: 0 },
        ]
    );
    assert_eq!(
        course(p, 1, (false, false)).unwrap_err(),
        MigrateError::NoControlFile {
            filename: "test_ext.control".to_string(),
            output_dir: Some("out".to_string()),
            crate_dir: Some("crate".to_string()),
        }
    );
}

#[test]
fn control_files_are_chosen() {
    assert_eq!(control_file_name("e"), "e.control");
    let mut dirs = params("1", None, None).dirs;
    dirs.crate_dir = Some(CrateDir("crate"));
    let err = choose_control_file("e", dirs, true, false).unwrap_err();
    assert_eq!(
        err.message(),
        "could not find `e.control` to update default_version in `<none>` or `crate`"
    );
    dirs.output_dir = Some(OutputDir("out"));
    assert_eq!(choose_control_file("e", dirs, true, true).unwrap(), path("out", "e.control"));
    assert_eq!(choose_control_file("e", dirs, false, true).unwrap(), path("crate", "e.control"));
}

#[test]
fn plans_name_versions_and_fragments() {
    let files = vec!["test_ext--0.25.0--0.25.9.sql".to_string()];
    let entries = vec![
        entry("6221.unfielded.sql", "-- depends-on: 5903\nSELECT 2;"),
        entry("5903.rename_test.sql", "SELECT 1;"),
    ];
    let plan =
        info::build_migrate_plan(request(Some("0.26.0"), Some("0.26.0")), &files, &entries).unwrap();
    assert_eq!(plan.extension_name.0, "test_ext");
    assert_eq!(plan.prev_version.0, "0.25.9");
    assert_eq!(plan.target_version.0, "0.26.0");
    assert!(!plan.is_empty);
    assert_eq!(plan.fragments.len(), 2);
    assert_eq!(plan.fragments[0].filename, "5903.rename_test.sql");
    assert_eq!(plan.fragments[1].filename, "6221.unfielded.sql");
    assert_eq!(plan.fragments[1].id, "6221");
    assert_eq!(plan.fragments[1].dependencies, vec!["5903"]);
    assert_eq!(plan.output_file, path("sql", "test_ext--0.25.9--0.26.0.sql"));
    assert_eq!(plan.extension_name.to_string(), "test_ext");
    assert_eq!(plan.prev_version.to_string(), "0.25.9");
    assert_eq!(plan.target_version.to_string(), "0.26.0");

    let mut p = params("0.26.0", None, Some("0.26.0"));
    p.allow_empty = true;
    let script = assemble_release_upgrade_script(p, &files, &entries).unwrap();
    assert_eq!(script.output_file, plan.output_file);
}

#[test]
fn plans_default_to_the_next_patch() {
    let files = vec!["test_ext--0.25.0--0.25.9.sql".to_string()];
    let entries = vec![entry("1.test.sql", "SELECT 1;")];
    let plan = info::build_migrate_plan(request(None, Some("0.25.6")), &files, &entries).unwrap();
    assert_eq!(plan.target_version.0, "0.25.10");
    assert_eq!(plan.prev_version.0, "0.25.9");
    let versions = info::plan_versions(request(None, Some("0.25.6")), &files).unwrap();
    assert_eq!((versions.prev.as_str(), versions.target.as_str()), ("0.25.9", "0.25.10"));
    let checked = info::checked_migrate_plan(request(None, Some("0.25.6")), &files, &entries);
    assert_eq!(checked.unwrap().unwrap(), plan);
}

#[test]
fn plans_that_fail() {
    let err = info::build_migrate_plan(request(None, None), &vec![], &vec![]).unwrap_err();
    assert_eq!(err, MigrateError::NoTargetVersion);
    let err = info::build_migrate_plan(request(Some("a"), None), &vec![], &vec![]).unwrap_err();
    assert_eq!(err, MigrateError::InvalidTargetVersion { version: "a".to_string() });
    let files = vec!["test_ext--1--1.0.18446744073709551615.sql".to_string()];
    assert!(info::checked_migrate_plan(request(None, None), &files, &vec![]).is_none());
    let circle = vec![entry("1.a.sql", "-- depends-on: 2"), entry("2.b.sql", "-- depends-on: 1")];
    let err = info::build_migrate_plan(request(Some("1"), Some("0.1.0")), &vec![], &circle).unwrap_err();
    assert!(err.message().starts_with("circular or unresolved dependency"));
}

#[test]
fn plans_in_text() {
    let files = vec!["test_ext--0.25.0--0.25.9.sql".to_string()];
    let entries = vec![
        entry("5.a.sql", "SELECT 1;"),
        entry("6.b.sql", "-- depends-on: 5, x.sql\nSELECT 2;"),
    ];
    let printed = |plan: &info::MigratePlan| -> Vec<String> {
        render_plan_text(plan)
            .iter()
            .map(|l| {
                l.pieces
                    .iter()
                    .map(|p| match p {
                        Piece::Text(_, text) => text.clone(),
                        Piece::OutputPath => {
                            format!("{}/{}", plan.output_file.directory, plan.output_file.name)
                        }
                    })
                    .collect()
            })
            .collect()
    };
    let plan = info::build_migrate_plan(request(Some("0.26.0"), None), &files, &entries).unwrap();
    assert_eq!(
        printed(&plan),
        vec![
            "Extension: test_ext (0.25.9 -> 0.26.0)",
            "Output: sql/test_ext--0.25.9--0.26.0.sql",
            "Fragments: (2):",
            "  - 5.a.sql (id: 5)",
            "  - 6.b.sql (id: 6, depends on: [5, x.sql])",
        ]
    );
    assert_eq!(
        render_plan_text(&plan)[0].pieces[2],
        Piece::Text(Style::Cyan, "test_ext".to_string())
    );
    let plan = info::build_migrate_plan(request(Some("0.26.0"), None), &files, &vec![]).unwrap();
    assert!(plan.is_empty);
    assert_eq!(printed(&plan)[2], "Fragments: none (stub upgrade script)");
    assert_eq!(printed(&plan).len(), 3);
}
