use pgrx_migrate::control::update_control_file_default_version;
use pgrx_migrate::error::MigrateError;
use pgrx_migrate::semantic::Version;
use pgrx_migrate::version::{
    checked_target_version, clean_version_string, derive_ephemeral_target_version,
    get_existing_sql_targets, latest_sql_target, parse_manifest_version, parse_version_lossy,
    resolve_prev_version, resolve_target_version, upgrade_script_name,
};

fn files(names: &[&str]) -> Vec<String> {
    names.iter().map(|n| n.to_string()).collect()
}

fn version(text: &str) -> Version {
    Version::parse(text).unwrap()
}

fn version_texts(versions: &[Version]) -> Vec<String> {
    versions.iter().map(|v| v.to_string()).collect()
}

#[test]
fn cleans_version_strings() {
    assert_eq!(clean_version_string("v0.25.0"), "0.25.0");
    assert_eq!(clean_version_string("0.25.0-rc1"), "0.25.0");
    assert_eq!(clean_version_string("v1.2.3-beta.2"), "1.2.3");
}

#[test]
fn cleaning_at_the_edges() {
    assert_eq!(clean_version_string("  v1.0 \n"), "1.0");
    assert_eq!(clean_version_string("vv1"), "v1");
    assert_eq!(clean_version_string("-1"), "");
    assert_eq!(clean_version_string(""), "");
    assert_eq!(clean_version_string("v"), "");
    assert_eq!(clean_version_string("1.2.3+x"), "1.2.3+x");
}

#[test]
fn derives_ephemeral_target_version_correctly() {
    let prev = Version::parse("0.25.0").unwrap();
    let pkg_higher = Version::parse("0.26.0").unwrap();
    assert_eq!(derive_ephemeral_target_version(&prev, Some(&pkg_higher)), pkg_higher);

    let pkg_equal = Version::parse("0.25.0").unwrap();
    assert_eq!(
        derive_ephemeral_target_version(&prev, Some(&pkg_equal)),
        Version::parse("0.25.1").unwrap()
    );

    assert_eq!(
        derive_ephemeral_target_version(&prev, None),
        Version::parse("0.25.1").unwrap()
    );
}

#[test]
fn versions_are_read_and_written() {
    let v = version("1.2.3-rc.1+build-5.007");
    assert_eq!((v.major, v.minor, v.patch), (1, 2, 3));
    assert_eq!(v.pre, "rc.1");
    assert_eq!(v.build, "build-5.007");
    assert_eq!(v.to_string(), "1.2.3-rc.1+build-5.007");
    assert_eq!(v.duplicate(), v);
    assert_eq!(Version::new(4, 5, 6).to_string(), "4.5.6");
    assert_eq!(version("18446744073709551615.0.0").major, u64::MAX);
    for text in [
        "", "1", "1.2", "1.2.3.4", "01.2.3", "1.2.3-", "1.2.3+", "1.2.3-01", "1.2.3-a..b", "1.2.x",
        " 1.2.3", "1.2.3 ", "18446744073709551616.0.0", "1.2.3-é", "1.2.3+a_b",
    ] {
        assert_eq!(Version::parse(text), None, "{text}");
    }
    for text in ["0.0.0", "1.2.3-0", "1.2.3-0a", "1.2.3+01", "1.2.3--", "1.2.3+a.b.c"] {
        assert_eq!(version(text).to_string(), text);
    }
}

#[test]
fn versions_are_ordered() {
    let ascending = [
        "0.9.10",
        "0.10.0",
        "1.0.0-1",
        "1.0.0-2",
        "1.0.0-10",
        "1.0.0-alpha",
        "1.0.0-alpha.1",
        "1.0.0-alpha.beta",
        "1.0.0-beta",
        "1.0.0",
        "1.0.0+0",
        "1.0.0+00",
        "1.0.0+1",
        "1.0.0+01",
        "1.0.0+2",
        "1.0.0+10",
        "1.0.0+a",
        "1.0.0+a.0",
        "1.0.1",
        "2.0.0",
    ];
    for (i, a) in ascending.iter().enumerate() {
        for (j, b) in ascending.iter().enumerate() {
            assert_eq!(version(a).precedes(&version(b)), i < j, "{a} {b}");
        }
    }
}

#[test]
fn lossy_versions() {
    assert_eq!(parse_version_lossy("v1.2-rc1"), Some(Version::new(1, 2, 0)));
    assert_eq!(parse_version_lossy("7"), Some(Version::new(7, 0, 0)));
    assert_eq!(parse_version_lossy("1.2.3"), Some(Version::new(1, 2, 3)));
    assert_eq!(parse_version_lossy("1.2.3.4"), None);
    assert_eq!(parse_version_lossy("x"), None);
    assert_eq!(parse_version_lossy(""), None);
    assert_eq!(parse_version_lossy("1."), None);
    assert_eq!(parse_version_lossy("1.2.3-rc1+x"), Some(Version::new(1, 2, 3)));
    assert_eq!(parse_version_lossy("1.2.3+x").unwrap().to_string(), "1.2.3+x");
    assert_eq!(parse_manifest_version(Some("vv3")), Some(Version::new(3, 0, 0)));
    assert_eq!(parse_version_lossy("vv3"), None);
    assert_eq!(parse_manifest_version(None), None);
}

#[test]
fn finds_existing_targets() {
    let names = files(&[
        "my_ext--0.24.0--0.25.0.sql",
        "my_ext--0.25.0--0.25.10.sql",
        "my_ext--0.25.0--0.25.9.sql",
        "my_ext--0.23.0--0.25.0.sql",
        "my_ext--0.25.0.sql",
        "my_ext--a--b.sql",
        "other--0.1.0--9.0.0.sql",
        "my_ext--1--2.sql.bak",
        "xmy_ext--1--2.sql",
        "my_ext----3.0.0.sql",
        "my_ext--1--2--0.5.sql",
        "my_ext--1---4.0.0.sql",
    ]);
    assert_eq!(
        version_texts(&get_existing_sql_targets(&names, "my_ext")),
        vec!["0.5.0", "0.25.0", "0.25.9", "0.25.10", "4.0.0"]
    );
    assert_eq!(latest_sql_target(&names, "my_ext"), Some(Version::new(4, 0, 0)));
    assert_eq!(latest_sql_target(&names, "none"), None);
    assert!(get_existing_sql_targets(&vec![], "my_ext").is_empty());
}

#[test]
fn names_of_extensions_are_taken_literally() {
    let names = files(&["a.b--1--2.0.0.sql", "axb--1--3.0.0.sql", "a+(b)--1--4.0.0.sql"]);
    assert_eq!(version_texts(&get_existing_sql_targets(&names, "a.b")), vec!["2.0.0"]);
    assert_eq!(version_texts(&get_existing_sql_targets(&names, "a+(b)")), vec!["4.0.0"]);
}

#[test]
fn written_scripts_are_found_again() {
    let name = upgrade_script_name("my_ext", "0.25.0", "0.26.0");
    assert_eq!(name, "my_ext--0.25.0--0.26.0.sql");
    assert_eq!(latest_sql_target(&vec![name], "my_ext"), Some(Version::new(0, 26, 0)));
}

#[test]
fn resolves_targets() {
    let none = files(&[]);
    assert_eq!(
        resolve_target_version(&none, "my_ext", Some("0.27.0"), Some("0.25.0")).unwrap(),
        "0.27.0"
    );
    assert_eq!(resolve_target_version(&none, "my_ext", None, Some("0.1.0")).unwrap(), "0.1.0");
    let mut names = files(&["my_ext--0.24.0--0.25.0.sql"]);
    assert_eq!(resolve_target_version(&names, "my_ext", None, Some("0.26.0")).unwrap(), "0.26.0");
    names.push("my_ext--0.25.0--0.25.9.sql".to_string());
    assert_eq!(resolve_target_version(&names, "my_ext", None, Some("0.25.6")).unwrap(), "0.25.10");
    assert_eq!(resolve_target_version(&names, "my_ext", None, None).unwrap(), "0.25.10");
    assert_eq!(resolve_target_version(&names, "my_ext", None, Some("junk")).unwrap(), "0.25.10");
    assert_eq!(resolve_target_version(&none, "my_ext", None, Some("junk-1")).unwrap(), "junk");
    let err = resolve_target_version(&none, "my_ext", None, None).unwrap_err();
    assert_eq!(err, MigrateError::NoTargetVersion);
    assert_eq!(
        err.message(),
        "could not automatically determine target version from Cargo.toml or sql/."
    );
}

#[test]
fn patch_numbers_that_do_not_fit() {
    let names = files(&["e--1.0.0--1.0.18446744073709551615.sql"]);
    assert!(checked_target_version(&names, "e", None, None).is_none());
    assert!(checked_target_version(&names, "e", None, Some("1.0.0")).is_none());
    assert_eq!(
        checked_target_version(&names, "e", None, Some("1.1.0")).unwrap().unwrap(),
        "1.1.0"
    );
    assert_eq!(checked_target_version(&names, "e", Some("3"), None).unwrap().unwrap(), "3");
    assert_eq!(
        checked_target_version(&vec![], "e", None, None).unwrap().unwrap_err(),
        MigrateError::NoTargetVersion
    );
}

#[test]
fn resolves_previous_versions() {
    let names = files(&["e--0.1.0--0.2.0.sql", "e--0.2.0--0.3.0.sql", "e--0.3.0--0.4.0.sql"]);
    let target = version("0.4.0");
    assert_eq!(
        resolve_prev_version(&names, "e", &target, Some("v0.1-x"), Some("9")).unwrap(),
        "0.1"
    );
    assert_eq!(resolve_prev_version(&names, "e", &target, None, Some("9")).unwrap(), "0.3.0");
    let early = version("0.2.0");
    assert_eq!(resolve_prev_version(&names, "e", &early, None, Some("0.1")).unwrap(), "0.1.0");
    assert_eq!(resolve_prev_version(&names, "e", &early, None, Some("0.5-a")).unwrap(), "0.5");
    assert_eq!(resolve_prev_version(&names, "e", &early, None, Some("junk")).unwrap(), "junk");
    let err = resolve_prev_version(&names, "e", &early, None, None).unwrap_err();
    assert_eq!(err, MigrateError::NoPreviousVersion { target: "0.2.0".to_string() });
    assert_eq!(
        err.message(),
        "could not automatically determine previous version for target `0.2.0`. Specify `--prev-version <VERSION>` explicitly."
    );
}

#[test]
fn updates_control_file_text() {
    let content = "comment = 'test ext'\ndefault_version = '0.25.0'\nrelocatable = false\n";
    let updated = update_control_file_default_version(content, "0.26.0");
    assert_eq!(
        updated,
        "comment = 'test ext'\ndefault_version = '0.26.0'\nrelocatable = false\n"
    );
    assert_eq!(update_control_file_default_version(&updated, "0.26.0"), updated);
}

#[test]
fn control_file_edges() {
    assert_eq!(
        update_control_file_default_version("a = 1", "2"),
        "a = 1\ndefault_version = '2'\n"
    );
    assert_eq!(update_control_file_default_version("", "2"), "\ndefault_version = '2'\n");
    assert_eq!(
        update_control_file_default_version("default_version=1\ndefault_version = 1", "2"),
        "default_version = '2'\ndefault_version = 1"
    );
    assert_eq!(
        update_control_file_default_version(" default_version = 1\n", "2"),
        " default_version = 1\n\ndefault_version = '2'\n"
    );
    assert_eq!(
        update_control_file_default_version("default_version\n = 1\nx", "2"),
        "default_version = '2'\nx"
    );
    // A dollar sign in the version stands for itself.
    assert_eq!(
        update_control_file_default_version("default_version = 1\n", "a$b"),
        "default_version = 'a$b'\n"
    );
    assert_eq!(
        update_control_file_default_version("default_version = 1\n", "$0"),
        "default_version = '$0'\n"
    );
    assert_eq!(update_control_file_default_version("", "a$b"), "\ndefault_version = 'a$b'\n");
}
