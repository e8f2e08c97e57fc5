use pgrx_migrate::collect::DirectoryEntry;
use pgrx_migrate::error::MigrateError;
use pgrx_migrate::path::FilePath;
use pgrx_migrate::unreleased::{
    checked_unreleased_fragments, handle_unreleased_fragments, needs_fragments, next_install_step,
    resolve_ephemeral_versions, resolve_unreleased_dir, step_file, written_file, EphemeralUpgrade,
    InstallEvent, InstallStep, MetadataValue, UnreleasedFragmentMode,
};
use std::path::{Path, PathBuf};

fn metadata_value(value: &cargo_toml::Value) -> MetadataValue {
    match value {
        cargo_toml::Value::Table(table) => MetadataValue::Table(
            table.iter().map(|(k, v)| (k.clone(), metadata_value(v))).collect(),
        ),
        cargo_toml::Value::String(text) => MetadataValue::Text(text.clone()),
        _ => MetadataValue::Other,
    }
}

fn resolve(manifest: &cargo_toml::Manifest, manifest_path: &Path) -> PathBuf {
    let metadata =
        manifest.package.as_ref().and_then(|p| p.metadata.as_ref()).map(metadata_value);
    let parent = manifest_path.parent().and_then(|p| p.to_str());
    let dir = resolve_unreleased_dir(metadata.as_ref(), parent);
    Path::new(&dir.directory).join(&dir.name)
}

fn text(s: &str) -> MetadataValue {
    MetadataValue::Text(s.to_string())
}

fn table(entries: Vec<(&str, MetadataValue)>) -> MetadataValue {
    MetadataValue::Table(entries.into_iter().map(|(k, v)| (k.to_string(), v)).collect())
}

fn entries() -> Vec<DirectoryEntry> {
    vec![DirectoryEntry {
        path: "my_ext/sql/unreleased/101.add_func.sql".to_string(),
        filename: Some("101.add_func.sql".to_string()),
        is_file: true,
        content: Some("CREATE FUNCTION f() RETURNS void AS $$ $$ LANGUAGE sql;".to_string()),
    }]
}

fn handle(
    entries: &Vec<DirectoryEntry>,
    files: &[&str],
    manifest: Option<&str>,
    mode: UnreleasedFragmentMode,
) -> Result<Option<EphemeralUpgrade>, MigrateError> {
    let names: Vec<String> = files.iter().map(|f| f.to_string()).collect();
    handle_unreleased_fragments(
        "my_ext/sql/unreleased",
        entries,
        &names,
        "my_ext",
        "share/extension",
        manifest,
        mode,
    )
}

fn path(name: &str) -> FilePath {
    FilePath { directory: "share/extension".to_string(), name: name.to_string() }
}

#[test]
fn resolve_unreleased_dir_default() {
    let manifest = cargo_toml::Manifest::from_str("\
[package]
name = \"my_ext\"
version = \"0.1.0\"
").unwrap();
    let path = Path::new("/some/dir/Cargo.toml");
    assert_eq!(
        resolve(&manifest, path),
        PathBuf::from("/some/dir/sql/unreleased")
    );
}

#[test]
fn resolve_unreleased_dir_custom_metadata() {
    let manifest = cargo_toml::Manifest::from_str("\
[package]
name = \"my_ext\"
version = \"0.1.0\"

[package.metadata.pgrx]
unreleased-sql-dir = \"custom/migrations\"
").unwrap();
    let path = Path::new("/some/dir/Cargo.toml");
    assert_eq!(
        resolve(&manifest, path),
        PathBuf::from("/some/dir/custom/migrations")
    );
}

#[test]
fn metadata_keys() {
    let name = |metadata: MetadataValue| resolve_unreleased_dir(Some(&metadata), None).name;
    assert_eq!(resolve_unreleased_dir(None, None).directory, ".");
    assert_eq!(resolve_unreleased_dir(None, Some("a")).directory, "a");
    assert_eq!(resolve_unreleased_dir(None, None).name, "sql/unreleased");
    assert_eq!(name(table(vec![("pgrx", table(vec![("unreleased_sql_dir", text("u"))]))])), "u");
    assert_eq!(
        name(table(vec![(
            "pgrx",
            table(vec![("unreleased_sql_dir", text("u")), ("unreleased-sql-dir", text("d"))])
        )])),
        "d"
    );
    // The first key counts even where its value is no text.
    assert_eq!(
        name(table(vec![(
            "pgrx",
            table(vec![
                ("unreleased_sql_dir", text("u")),
                ("unreleased-sql-dir", MetadataValue::Other)
            ])
        )])),
        "sql/unreleased"
    );
    assert_eq!(name(table(vec![("pgrx", text("x"))])), "sql/unreleased");
    assert_eq!(name(text("x")), "sql/unreleased");
    assert_eq!(name(table(vec![("other", table(vec![]))])), "sql/unreleased");
}

#[test]
fn packaging_is_refused() {
    let err = handle(&entries(), &[], Some("0.25.0"), UnreleasedFragmentMode::Disallow).unwrap_err();
    assert_eq!(
        err,
        MigrateError::UnreleasedFragments { directory: "my_ext/sql/unreleased".to_string() }
    );
    assert_eq!(
        err.message(),
        "found unreleased SQL migration fragments in `my_ext/sql/unreleased`.\nRun `cargo pgrx migrate assemble` before packaging for release, or pass `--assemble-unreleased`."
    );
    assert_eq!(handle(&vec![], &[], None, UnreleasedFragmentMode::Disallow), Ok(None));
}

#[test]
fn skipping_does_nothing() {
    assert_eq!(handle(&entries(), &[], Some("0.25.0"), UnreleasedFragmentMode::Skip), Ok(None));
    for mode in [
        UnreleasedFragmentMode::AssembleEphemeral,
        UnreleasedFragmentMode::PackageAssemble,
        UnreleasedFragmentMode::Disallow,
        UnreleasedFragmentMode::Skip,
    ] {
        assert_eq!(handle(&vec![], &[], None, mode), Ok(None));
        assert_eq!(needs_fragments(mode), mode != UnreleasedFragmentMode::Skip);
    }
}

#[test]
fn skipping_does_not_fail() {
    let mut circle = entries();
    circle[0].content = Some("-- depends-on: 102\nSELECT 1;".to_string());
    circle.push(DirectoryEntry {
        path: "my_ext/sql/unreleased/102.b.sql".to_string(),
        filename: Some("102.b.sql".to_string()),
        is_file: true,
        content: Some("-- depends-on: 101\nSELECT 2;".to_string()),
    });
    let mut unreadable = entries();
    unreadable[0].content = None;
    for entries in [circle, unreadable] {
        assert_eq!(handle(&entries, &[], Some("0.25.0"), UnreleasedFragmentMode::Skip), Ok(None));
        assert!(handle(&entries, &[], Some("0.25.0"), UnreleasedFragmentMode::Disallow).is_err());
    }
}

#[test]
fn both_assembling_modes_do_the_same() {
    let files = ["my_ext--0.24.0--0.25.0.sql"];
    let upgrade = |mode: UnreleasedFragmentMode| handle(&entries(), &files, Some("0.25.0"), mode);
    assert_eq!(
        upgrade(UnreleasedFragmentMode::AssembleEphemeral),
        upgrade(UnreleasedFragmentMode::PackageAssemble)
    );
}

#[test]
fn steps_write_into_the_directory() {
    let upgrade = handle(
        &entries(),
        &["my_ext--0.24.0--0.25.0.sql"],
        Some("0.25.0"),
        UnreleasedFragmentMode::AssembleEphemeral,
    )
    .unwrap()
    .unwrap();
    for (step, name) in [
        (InstallStep::WriteScript, Some("my_ext--0.25.0--0.25.1.sql")),
        (InstallStep::LookForControlFile, None),
        (InstallStep::UpdateControlFile, Some("my_ext.control")),
        (InstallStep::LookForBaseSchema, None),
        (InstallStep::CopyBaseSchema, Some("my_ext--0.25.1.sql")),
        (InstallStep::Finish, None),
    ] {
        assert_eq!(step_file(&upgrade, step), name.map(path));
    }
}

#[test]
fn assembles_for_development() {
    for mode in [UnreleasedFragmentMode::AssembleEphemeral, UnreleasedFragmentMode::PackageAssemble] {
        let upgrade =
            handle(&entries(), &["my_ext--0.24.0--0.25.0.sql"], Some("0.25.0"), mode).unwrap().unwrap();
        assert_eq!(upgrade.prev_version, "0.25.0");
        assert_eq!(upgrade.target_version, "0.25.1");
        assert_eq!(upgrade.script, path("my_ext--0.25.0--0.25.1.sql"));
        assert!(upgrade.content.contains("ALTER EXTENSION my_ext UPDATE TO '0.25.1'"));
        assert!(upgrade.content.contains("CREATE FUNCTION f()"));
        assert_eq!(upgrade.control_file, path("my_ext.control"));
        assert_eq!(
            upgrade.base_schema,
            Some((path("my_ext--0.25.0.sql"), path("my_ext--0.25.1.sql")))
        );
        assert_eq!(
            written_file(&upgrade, InstallEvent::ScriptWritten),
            Some(path("my_ext--0.25.0--0.25.1.sql"))
        );
        assert_eq!(
            written_file(&upgrade, InstallEvent::BaseSchemaCopied),
            Some(path("my_ext--0.25.1.sql"))
        );
        assert_eq!(written_file(&upgrade, InstallEvent::ControlFileUpdated), None);
    }
}

#[test]
fn packages_ahead_of_releases_need_no_copy() {
    let upgrade = handle(
        &entries(),
        &["my_ext--0.24.0--0.25.0.sql"],
        Some("0.26.0"),
        UnreleasedFragmentMode::AssembleEphemeral,
    )
    .unwrap()
    .unwrap();
    assert_eq!(upgrade.target_version, "0.26.0");
    assert_eq!(upgrade.base_schema, None);
    assert_eq!(upgrade.script, path("my_ext--0.25.0--0.26.0.sql"));
    assert_eq!(written_file(&upgrade, InstallEvent::BaseSchemaCopied), None);
}

#[test]
fn without_releases_the_package_counts() {
    let upgrade =
        handle(&entries(), &[], Some("v0.3-rc"), UnreleasedFragmentMode::AssembleEphemeral)
            .unwrap()
            .unwrap();
    assert_eq!(upgrade.prev_version, "0.3.0");
    assert_eq!(upgrade.target_version, "0.3.1");
    assert_eq!(
        upgrade.base_schema,
        Some((path("my_ext--v0.3-rc.sql"), path("my_ext--0.3.1.sql")))
    );
    let err = handle(&entries(), &[], Some("junk"), UnreleasedFragmentMode::AssembleEphemeral)
        .unwrap_err();
    assert_eq!(err, MigrateError::NoEphemeralVersion);
    assert_eq!(err.message(), "could not determine version for ephemeral upgrade script");
    let (prev, target) = resolve_ephemeral_versions(&vec![], "e", Some("1")).unwrap();
    assert_eq!((prev.to_string().as_str(), target.to_string().as_str()), ("1.0.0", "1.0.1"));
    assert_eq!(resolve_ephemeral_versions(&vec![], "e", None), None);
}

#[test]
fn next_patches_that_do_not_fit() {
    let checked = |manifest: &str, mode: UnreleasedFragmentMode| {
        checked_unreleased_fragments("d", &entries(), &vec![], "e", "x", Some(manifest), mode)
    };
    let last = "1.0.18446744073709551615";
    assert!(checked(last, UnreleasedFragmentMode::AssembleEphemeral).is_none());
    assert_eq!(checked(last, UnreleasedFragmentMode::Skip), Some(Ok(None)));
    assert_eq!(
        checked_unreleased_fragments(
            "d",
            &vec![],
            &vec![],
            "e",
            "x",
            Some(last),
            UnreleasedFragmentMode::AssembleEphemeral,
        ),
        Some(Ok(None))
    );
    let upgrade = checked("1.0.0", UnreleasedFragmentMode::PackageAssemble).unwrap().unwrap().unwrap();
    assert_eq!(upgrade.target_version, "1.0.1");
}

#[test]
fn steps_of_an_installation() {
    let course = |manifest: &str, control_exists: bool, base_exists: bool| {
        let upgrade = handle(
            &entries(),
            &["my_ext--0.24.0--0.25.0.sql"],
            Some(manifest),
            UnreleasedFragmentMode::AssembleEphemeral,
        )
        .unwrap()
        .unwrap();
        let mut steps = vec![];
        let mut files = vec![];
        let mut event = InstallEvent::Started;
        loop {
            files.extend(written_file(&upgrade, event).map(|file| file.name));
            let step = next_install_step(&upgrade, event);
            event = match step {
                InstallStep::WriteScript => InstallEvent::ScriptWritten,
                InstallStep::LookForControlFile => {
                    InstallEvent::ControlFileSeen { exists: control_exists }
                }
                InstallStep::UpdateControlFile => InstallEvent::ControlFileUpdated,
                InstallStep::LookForBaseSchema => {
                    InstallEvent::BaseSchemaSeen { exists: base_exists }
                }
                InstallStep::CopyBaseSchema => InstallEvent::BaseSchemaCopied,
                InstallStep::Finish => return (steps, files),
            };
            steps.push(step);
        }
    };
    assert_eq!(
        course("0.25.0", true, true),
        (
            vec![
                InstallStep::WriteScript,
                InstallStep::LookForControlFile,
                InstallStep::UpdateControlFile,
                InstallStep::LookForBaseSchema,
                InstallStep::CopyBaseSchema,
            ],
            vec!["my_ext--0.25.0--0.25.1.sql".to_string(), "my_ext--0.25.1.sql".to_string()]
        )
    );
    assert_eq!(
        course("0.25.0", false, false),
        (
            vec![
                InstallStep::WriteScript,
                InstallStep::LookForControlFile,
                InstallStep::LookForBaseSchema,
            ],
            vec!["my_ext--0.25.0--0.25.1.sql".to_string()]
        )
    );
    assert_eq!(
        course("0.26.0", false, true),
        (
            vec![InstallStep::WriteScript, InstallStep::LookForControlFile],
            vec!["my_ext--0.25.0--0.26.0.sql".to_string()]
        )
    );
}
