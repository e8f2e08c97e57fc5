use pgrx_migrate::collect::{
    collect_fragments_from_dir, is_fragment_filename, load_fragment, load_fragments, DirectoryEntry,
};
use pgrx_migrate::error::MigrateError;
use pgrx_migrate::fragment::{
    assemble_sql_content, dependencies_from_lists, format_echo_header, format_fragment_banner,
    parse_depends_on, parse_fragment_id, FragmentDependency, FragmentId, MigrationFragment,
};
use pgrx_migrate::number::{decimal_of, parse_u64};

fn fragment(filename: &str, sql: &str) -> MigrationFragment {
    load_fragment(filename, Some(filename), Some(sql)).unwrap()
}

fn entry(filename: &str, content: Option<&str>) -> DirectoryEntry {
    DirectoryEntry {
        path: format!("sql/unreleased/{filename}"),
        filename: Some(filename.to_string()),
        is_file: true,
        content: content.map(|c| c.to_string()),
    }
}

fn filenames(fragments: &[MigrationFragment]) -> Vec<String> {
    fragments.iter().map(|f| f.filename.clone()).collect()
}

#[test]
fn parses_numeric_fragment_id() {
    assert_eq!(
        parse_fragment_id("6099.rename_solve_mvcc_to_visibility.sql"),
        FragmentId::Numeric(6099)
    );
    assert_eq!(parse_fragment_id("123.sql"), FragmentId::Numeric(123));
}

#[test]
fn parses_slug_fragment_id() {
    assert_eq!(
        parse_fragment_id("add_vector_index.sql"),
        FragmentId::Slug("add_vector_index".to_string())
    );
}

#[test]
fn identifiers_at_the_edges() {
    assert_eq!(parse_fragment_id("007.x.sql"), FragmentId::Numeric(7));
    assert_eq!(
        parse_fragment_id("18446744073709551615.sql"),
        FragmentId::Numeric(18446744073709551615)
    );
    assert_eq!(
        parse_fragment_id("18446744073709551616.sql"),
        FragmentId::Slug("18446744073709551616".to_string())
    );
    assert_eq!(parse_fragment_id("123"), FragmentId::Slug("123".to_string()));
    assert_eq!(parse_fragment_id("12a.sql"), FragmentId::Slug("12a".to_string()));
    assert_eq!(parse_fragment_id(".sql"), FragmentId::Slug(String::new()));
    assert_eq!(parse_fragment_id(""), FragmentId::Slug(String::new()));
    assert_eq!(parse_fragment_id("a.b.sql"), FragmentId::Slug("a".to_string()));
    // Digits of another script match the number prefix but are no number.
    assert_eq!(
        parse_fragment_id("\u{0661}\u{0662}.x.sql"),
        FragmentId::Slug("\u{0661}\u{0662}".to_string())
    );
}

#[test]
fn parses_depends_on_single_and_block_comments() {
    let content = "\
-- depends-on: 6099, 6120
/* depends-on: #6221, other.sql */
SELECT 1;
";
    let deps = parse_depends_on(content);
    assert_eq!(
        deps,
        vec![
            FragmentDependency::Id(FragmentId::Numeric(6099)),
            FragmentDependency::Id(FragmentId::Numeric(6120)),
            FragmentDependency::Id(FragmentId::Numeric(6221)),
            FragmentDependency::Filename("other.sql".to_string()),
        ]
    );
}

#[test]
fn depends_on_forms() {
    assert_eq!(parse_depends_on("SELECT 1;"), vec![]);
    assert_eq!(
        parse_depends_on("--DEPENDS-ON:7"),
        vec![FragmentDependency::Id(FragmentId::Numeric(7))]
    );
    assert_eq!(
        parse_depends_on("-- depends-on: first, second"),
        vec![
            FragmentDependency::Id(FragmentId::Slug("first".to_string())),
            FragmentDependency::Id(FragmentId::Slug("second".to_string())),
        ]
    );
    assert_eq!(
        parse_depends_on("SELECT 1;\n-- depends-on: 5\n/* depends-on: 6*/SELECT 2;"),
        vec![
            FragmentDependency::Id(FragmentId::Numeric(5)),
            FragmentDependency::Id(FragmentId::Numeric(6)),
        ]
    );
    assert_eq!(parse_depends_on("-- depends: 5\n"), vec![]);
    assert_eq!(
        parse_depends_on("-- Adds an index.\n/* See below. */\n-- depends-on: 5\nSELECT 1;"),
        vec![FragmentDependency::Id(FragmentId::Numeric(5))]
    );
}

#[test]
fn the_case_of_the_keyword_plays_no_part() {
    let seven = vec![FragmentDependency::Id(FragmentId::Numeric(7))];
    for content in [
        "--DEPENDS-ON:7",
        "-- Depends-On: 7\n",
        "--\t depends-ON: \t7\nSELECT 1;",
        "/*\n DEPENDS-on:\n 7*/SELECT 1;",
        "/* Depends-on: 7\n*/",
        "-- depend\u{17f}-on: 7\n",
    ] {
        assert_eq!(parse_depends_on(content), seven, "{content}");
    }
    assert_eq!(parse_depends_on("-- DEPENDS-ON:\nSELECT 1;"), vec![]);
}

#[test]
fn comments_without_a_list_declare_nothing() {
    assert_eq!(parse_depends_on("-- depends-on:\nSELECT 1;"), vec![]);
    assert_eq!(parse_depends_on("-- depends-on: \t \nSELECT 1;"), vec![]);
    assert_eq!(parse_depends_on("-- depends-on:\r\nSELECT 1;\r\n"), vec![]);
    assert_eq!(parse_depends_on("-- depends-on:"), vec![]);
    assert_eq!(parse_depends_on("--\ndepends-on: 5\n"), vec![]);
    assert_eq!(parse_depends_on("/* depends-on: */ SELECT 1;"), vec![]);
    assert_eq!(parse_depends_on("/* depends-on:\n*/ SELECT 1;"), vec![]);
    assert_eq!(
        parse_depends_on("-- depends-on:\n-- depends-on: 7\nSELECT 1;"),
        vec![FragmentDependency::Id(FragmentId::Numeric(7))]
    );
    // In a block comment the list may stand in a line of its own.
    assert_eq!(
        parse_depends_on("/*\n  depends-on:\n  7, 8\n*/\nSELECT 1;"),
        vec![
            FragmentDependency::Id(FragmentId::Numeric(7)),
            FragmentDependency::Id(FragmentId::Numeric(8)),
        ]
    );
}

#[test]
fn lists_declare_each_dependency_once() {
    let lists = vec!["1, #1, +1, 01".to_string(), " , ## , a.sql,a.sql , ##b".to_string()];
    assert_eq!(
        dependencies_from_lists(&lists),
        vec![
            FragmentDependency::Id(FragmentId::Numeric(1)),
            FragmentDependency::Filename("a.sql".to_string()),
            FragmentDependency::Id(FragmentId::Slug("b".to_string())),
        ]
    );
    assert_eq!(dependencies_from_lists(&vec![]), vec![]);
}

#[test]
fn names_in_text() {
    assert_eq!(FragmentId::Numeric(105).to_string(), "105");
    assert_eq!(FragmentId::Slug("a".to_string()).to_string(), "a");
    assert_eq!(FragmentDependency::Id(FragmentId::Numeric(0)).to_string(), "0");
    assert_eq!(FragmentDependency::Filename("x.sql".to_string()).to_string(), "x.sql");
    assert_eq!(FragmentId::Slug("a".to_string()).duplicate(), FragmentId::Slug("a".to_string()));
    assert_eq!(FragmentId::Numeric(3).duplicate(), FragmentId::Numeric(3));
}

#[test]
fn numbers_precede_slugs() {
    let slug = |s: &str| FragmentId::Slug(s.to_string());
    assert!(FragmentId::Numeric(9).precedes(&FragmentId::Numeric(10)));
    assert!(!FragmentId::Numeric(10).precedes(&FragmentId::Numeric(10)));
    assert!(FragmentId::Numeric(10).precedes(&slug("10")));
    assert!(!slug("1").precedes(&FragmentId::Numeric(2)));
    assert!(slug("a").precedes(&slug("ab")));
    assert!(slug("ab").precedes(&slug("b")));
    assert!(slug("a").same(&slug("a")));
    assert!(!slug("1").same(&FragmentId::Numeric(1)));
}

#[test]
fn numbers_in_text() {
    let chars = |s: &str| s.chars().collect::<Vec<char>>();
    assert_eq!(parse_u64(&chars("42")), Some(42));
    assert_eq!(parse_u64(&chars("+42")), Some(42));
    assert_eq!(parse_u64(&chars("-42")), None);
    assert_eq!(parse_u64(&chars("")), None);
    assert_eq!(parse_u64(&chars("+")), None);
    assert_eq!(parse_u64(&chars("18446744073709551615")), Some(u64::MAX));
    assert_eq!(parse_u64(&chars("18446744073709551616")), None);
    assert_eq!(decimal_of(0), "0");
    assert_eq!(decimal_of(u64::MAX), "18446744073709551615");
    assert_eq!(parse_u64(&chars(&decimal_of(907))), Some(907));
}

#[test]
fn script_texts() {
    assert_eq!(
        format_echo_header("my_ext", "0.26.0"),
        "\\echo Use \"ALTER EXTENSION my_ext UPDATE TO '0.26.0'\" to load this file. \\quit\n"
    );
    let rule = "-- ============================================================================";
    assert_eq!(
        format_fragment_banner("101.init.sql"),
        format!("\n{rule}\n-- Fragment: 101.init.sql\n{rule}\n")
    );
    let fragments = vec![fragment("1.a.sql", "  SELECT 1;\n\n"), fragment("2.b.sql", "SELECT 2;")];
    assert_eq!(
        assemble_sql_content("e", "2", &fragments),
        format!(
            "{}{}SELECT 1;\n{}SELECT 2;\n",
            format_echo_header("e", "2"),
            format_fragment_banner("1.a.sql"),
            format_fragment_banner("2.b.sql"),
        )
    );
    assert_eq!(assemble_sql_content("e", "2", &[]), format_echo_header("e", "2"));
}

#[test]
fn loading_a_fragment() {
    let f = load_fragment("dir/5.x.sql", Some("5.x.sql"), Some("-- depends-on: 4\nSELECT 1;"))
        .unwrap();
    assert_eq!(f.path, "dir/5.x.sql");
    assert_eq!(f.filename, "5.x.sql");
    assert_eq!(f.id, FragmentId::Numeric(5));
    assert_eq!(f.dependencies, vec![FragmentDependency::Id(FragmentId::Numeric(4))]);
    assert_eq!(f.sql_content, "-- depends-on: 4\nSELECT 1;");

    let err = load_fragment("dir/?", None, Some("")).unwrap_err();
    assert_eq!(err, MigrateError::InvalidFilename { path: "dir/?".to_string() });
    assert_eq!(err.message(), "invalid filename for fragment at `dir/?`");
    let err = load_fragment("dir/a.sql", Some("a.sql"), None).unwrap_err();
    assert_eq!(err, MigrateError::UnreadableFragment { path: "dir/a.sql".to_string() });
    assert_eq!(err.message(), "failed to read SQL fragment `dir/a.sql`");
}

#[test]
fn directories_are_filtered_and_sorted() {
    assert!(is_fragment_filename("a.sql"));
    assert!(!is_fragment_filename(".a.sql"));
    assert!(!is_fragment_filename(".sql"));
    assert!(!is_fragment_filename("a.sql.bak"));
    assert!(!is_fragment_filename("a.SQL"));

    let mut folder = entry("folder.sql", None);
    folder.is_file = false;
    let mut unnamed = entry("x.sql", None);
    unnamed.filename = None;
    let entries = vec![
        entry("20.b.sql", Some("-- depends-on: c\n")),
        folder,
        entry("README.md", None),
        unnamed,
        entry(".hidden.sql", None),
        entry("c.sql", Some("SELECT 3;")),
        entry("10.a.sql", Some("SELECT 1;")),
    ];
    let loaded = load_fragments(&entries).unwrap();
    assert_eq!(filenames(&loaded), vec!["20.b.sql", "c.sql", "10.a.sql"]);
    let sorted = collect_fragments_from_dir(&entries).unwrap();
    assert_eq!(filenames(&sorted), vec!["10.a.sql", "c.sql", "20.b.sql"]);
    assert_eq!(collect_fragments_from_dir(&vec![]).unwrap().len(), 0);
}

#[test]
fn unreadable_fragments_are_errors() {
    let entries = vec![
        entry("1.a.sql", Some("-- depends-on: 1")),
        entry("2.b.sql", None),
        entry("3.c.sql", None),
    ];
    let expected = MigrateError::UnreadableFragment { path: "sql/unreleased/2.b.sql".to_string() };
    assert_eq!(load_fragments(&entries).unwrap_err(), expected);
    assert_eq!(collect_fragments_from_dir(&entries).unwrap_err(), expected);
}
