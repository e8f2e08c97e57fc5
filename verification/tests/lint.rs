use pgrx_migrate::changes::{
    changed_sql_files, choose_diff_base, get_changed_fragment_files, list_diff_arguments,
    list_merge_base_arguments, ChangedFile,
};
use pgrx_migrate::collect::load_fragment;
use pgrx_migrate::error::MigrateError;
use pgrx_migrate::fragment::{FragmentId, MigrationFragment};
use pgrx_migrate::lexer::{split_statements, strip_content};
use pgrx_migrate::lint::{
    catalog_unreleased_objects, needs_changed_files, run_lint_checks, DiagnosticIssue, LintConfig,
    LintFormat, LintRule, ObjectCatalog,
};
use pgrx_migrate::report::{
    lint_verdict, render_lint_diagnostics, Line, LintOutput, Piece, Stream, Style,
};
use pgrx_migrate::statement::{
    extract_statements_and_objects, read_statement, statement_from_parts,
};

fn fragment(filename: &str, sql: &str) -> MigrationFragment {
    load_fragment(&format!("sql/unreleased/{filename}"), Some(filename), Some(sql)).unwrap()
}

fn config(deny_mixed_objects: bool, base_ref: Option<&str>) -> LintConfig {
    LintConfig { deny_mixed_objects, base_ref: base_ref.map(|b| b.to_string()) }
}

fn check(fragments: &Vec<MigrationFragment>, deny_mixed_objects: bool) -> Vec<DiagnosticIssue> {
    run_lint_checks("sql/unreleased", fragments, &vec![], &config(deny_mixed_objects, None))
}

fn printed(line: &Line) -> String {
    line.pieces
        .iter()
        .map(|p| match p {
            Piece::Text(_, text) => text.clone(),
            Piece::OutputPath => "<path>".to_string(),
        })
        .collect()
}

fn signatures(sql: &str) -> Vec<String> {
    extract_statements_and_objects(sql).into_iter().map(|s| s.signature).collect()
}

#[test]
fn extracts_statements_and_signatures() {
    let sql = r#"
-- comment
\echo loading
CREATE FUNCTION my_func(a int, b text DEFAULT 'x') RETURNS void AS $$ $$ LANGUAGE sql;
CREATE OR REPLACE AGGREGATE my_agg(integer) (SFUNC = int4_add);
ALTER TABLE "Customers" ADD COLUMN age int;
DROP TYPE IF EXISTS status_t;
"#;
    let stmts = extract_statements_and_objects(sql);
    assert_eq!(stmts.len(), 4);

    assert_eq!(stmts[0].verb, "CREATE");
    assert_eq!(stmts[0].signature, "FUNCTION my_func(int, text)");

    assert_eq!(stmts[1].verb, "CREATE OR REPLACE");
    assert_eq!(stmts[1].signature, "AGGREGATE my_agg(integer)");

    assert_eq!(stmts[2].verb, "ALTER");
    assert_eq!(stmts[2].signature, "TABLE customers");

    assert_eq!(stmts[3].verb, "DROP");
    assert_eq!(stmts[3].signature, "TYPE status_t");
}

#[test]
fn statements_keep_their_text() {
    let stmts = extract_statements_and_objects("alter\n  table  T add x int ; SELECT 1;;");
    assert_eq!(stmts.len(), 1);
    assert_eq!(stmts[0].verb, "ALTER");
    assert_eq!(stmts[0].signature, "TABLE t");
    assert_eq!(stmts[0].raw, "alter table T add x int");
}

#[test]
fn signatures_of_functions() {
    assert_eq!(signatures("CREATE FUNCTION f() RETURNS int"), vec!["FUNCTION f()"]);
    assert_eq!(signatures("DROP FUNCTION f"), vec!["FUNCTION f"]);
    assert_eq!(
        signatures("CREATE PROCEDURE p(IN \"X\" \"Int\", y text = 'a', z real default 1 + 2, )"),
        vec!["PROCEDURE p(int, text, real)"]
    );
    assert_eq!(signatures("CREATE TABLE t1 (id int)"), vec!["TABLE t1"]);
    assert_eq!(
        signatures("CREATE MATERIALIZED VIEW mv AS SELECT 1"),
        vec!["MATERIALIZED VIEW mv"]
    );
    assert_eq!(signatures("INSERT INTO t VALUES (1)"), Vec::<String>::new());
}

#[test]
fn parts_make_a_statement() {
    let stmt = statement_from_parts(
        "raw".to_string(),
        "create  or replace",
        "function",
        "\"My\".F",
        Some("a int default 3, b"),
    );
    assert_eq!(stmt.verb, "CREATE OR REPLACE");
    assert_eq!(stmt.signature, "FUNCTION my.f(int, b)");
    assert_eq!(stmt.raw, "raw");
    let stmt = statement_from_parts("raw".to_string(), "drop", "view", "V", Some("x"));
    assert_eq!(stmt.signature, "VIEW v");
    let stmt = statement_from_parts("raw".to_string(), "drop", "function", "f", None);
    assert_eq!(stmt.signature, "FUNCTION f");
}

#[test]
fn single_statements() {
    assert_eq!(read_statement("SELECT 1".to_string()), None);
    assert_eq!(read_statement(String::new()), None);
    let stmt = read_statement("DROP TABLE IF EXISTS a(b) c".to_string()).unwrap();
    assert_eq!(stmt.signature, "TABLE a");
    assert_eq!(stmt.raw, "DROP TABLE IF EXISTS a(b) c");
}

#[test]
fn comments_and_commands_are_stripped() {
    assert_eq!(strip_content("a -- b\nc"), "a \nc");
    assert_eq!(strip_content("a /* b\nc */ d /* e"), "a  d /* e");
    assert_eq!(strip_content("/*/ x */y"), "y");
    assert_eq!(strip_content("x\n\\echo hi\ny"), "x\n\ny");
    assert_eq!(strip_content("a\\ b"), "a\\ b");
    assert_eq!(strip_content("a\\\u{e9}b\nc"), "a\nc");
    assert_eq!(strip_content("/* -- */ x"), " x");
    assert_eq!(strip_content("-- /*\nx */"), "\nx */");
    assert_eq!(strip_content("-/* a */-"), "--");
    assert_eq!(strip_content("f/* a */(b)"), "f(b)");
    assert_eq!(strip_content("public./* a */t"), "public.t");
    assert_eq!(strip_content("a/* b */c"), "a c");
    assert_eq!(strip_content("a/* b *//* c */d"), "a d");
    assert_eq!(strip_content("a/* b */$$c$$/* d */e"), "a $$c$$e");
}

#[test]
fn quoted_text_is_not_stripped() {
    assert_eq!(strip_content("'-- a' -- b\nc"), "'-- a' \nc");
    assert_eq!(strip_content("\"/* a */\" /* b */"), "\"/* a */\" ");
    assert_eq!(strip_content("$$ -- a\n$$ -- b"), "$$ -- a\n$$ ");
    assert_eq!(strip_content("$x$ '/* $$ */ $x$ \\quit"), "$x$ '/* $$ */ $x$ ");
    assert_eq!(strip_content("'it''s -- x'--y"), "'it''s -- x'");
    assert_eq!(strip_content("-- it's\n-- x"), "\n");
    assert_eq!(strip_content("'\\echo a'"), "'\\echo a'");
}

fn pieces(text: &str) -> Vec<String> {
    let chars: Vec<char> = text.chars().collect();
    split_statements(&chars).into_iter().map(|p| p.into_iter().collect()).collect()
}

#[test]
fn semicolons_at_the_top_level_split() {
    assert_eq!(pieces(""), vec![""]);
    assert_eq!(pieces("a; b;"), vec!["a", " b", ""]);
    assert_eq!(pieces("a ';' b; c"), vec!["a ';' b", " c"]);
    assert_eq!(pieces("\";\";x"), vec!["\";\"", "x"]);
    assert_eq!(pieces("$$;$$;$t1$;$$;$t1$;b"), vec!["$$;$$", "$t1$;$$;$t1$", "b"]);
    assert_eq!(pieces("'it''s;' ;x"), vec!["'it''s;' ", "x"]);
    // Parameters and names with dollar signs quote nothing.
    assert_eq!(pieces("$1;$2"), vec!["$1", "$2"]);
    assert_eq!(pieces("$1$;$1$"), vec!["$1$", "$1$"]);
    assert_eq!(pieces("a$b$;a$b$"), vec!["a$b$", "a$b$"]);
    // What does not end is not quoted.
    assert_eq!(pieces("a;'b;c"), vec!["a", "'b", "c"]);
    assert_eq!(pieces("a;\"b;c"), vec!["a", "\"b", "c"]);
    assert_eq!(pieces("a;$x$b;$y$;"), vec!["a", "$x$b", "$y$", ""]);
    assert_eq!(pieces("E'a;b"), vec!["E'a", "b"]);
}

#[test]
fn escape_strings_end_at_their_quote() {
    assert_eq!(
        pieces(r"SELECT E'it\'s'; CREATE TABLE t(id int);"),
        vec![r"SELECT E'it\'s'", " CREATE TABLE t(id int)", ""]
    );
    assert_eq!(signatures(r"SELECT E'it\'s'; CREATE TABLE t(id int);"), vec!["TABLE t"]);
    assert_eq!(pieces(r"e'\';';x"), vec![r"e'\';'", "x"]);
    assert_eq!(pieces(r"E'a\\';x"), vec![r"E'a\\'", "x"]);
    assert_eq!(pieces(r"E'a''\';';x"), vec![r"E'a''\';'", "x"]);
    // Only a lone E makes backslashes count.
    assert_eq!(pieces(r"'a\';x"), vec![r"'a\'", "x"]);
    assert_eq!(pieces(r"TRUE'a\';x"), vec![r"TRUE'a\'", "x"]);
    assert_eq!(strip_content(r"E'\' -- a' -- b"), r"E'\' -- a' ");
    assert_eq!(strip_content("E'\\n' -- a\n'"), "E'\\n' \n'");
}

#[test]
fn terminal_commands_are_words() {
    assert_eq!(strip_content("a\\\u{20ac}b; DROP TABLE t"), "a\\\u{20ac}b; DROP TABLE t");
    assert_eq!(signatures("a\\\u{20ac}b; DROP TABLE t"), vec!["TABLE t"]);
    assert_eq!(strip_content("\\\u{e9}cho\nx"), "\nx");
    assert_eq!(strip_content("\\_a b\nx"), "\nx");
    assert_eq!(strip_content("\\9\nx"), "\nx");
    assert_eq!(strip_content("\\! ls\nx"), "\\! ls\nx");
    assert_eq!(strip_content("\\"), "\\");
}

#[test]
fn the_case_of_keywords_plays_no_part() {
    for sql in [
        "CREATE OR REPLACE VIEW v AS SELECT 1",
        "create or replace view V as select 1",
        "Create Or Replace View v As Select 1",
    ] {
        let stmts = extract_statements_and_objects(sql);
        assert_eq!(stmts.len(), 1);
        assert_eq!(stmts[0].verb, "CREATE OR REPLACE");
        assert_eq!(stmts[0].signature, "VIEW v");
        assert_eq!(stmts[0].raw, sql);
    }
    assert_eq!(
        signatures("drop materialized view if exists mv; alter table only T add a int"),
        vec!["MATERIALIZED VIEW mv", "TABLE t"]
    );
}

#[test]
fn bodies_hold_no_statements() {
    let stmts = extract_statements_and_objects(
        "CREATE FUNCTION f() RETURNS void AS $$ BEGIN PERFORM 1; DROP TABLE x; END $$ LANGUAGE plpgsql;",
    );
    assert_eq!(stmts.len(), 1);
    assert_eq!(stmts[0].verb, "CREATE");
    assert_eq!(stmts[0].signature, "FUNCTION f()");
    assert_eq!(
        signatures("DO $do$ BEGIN EXECUTE 'x'; ALTER TABLE t ADD a int; END $do$; DROP VIEW v;"),
        vec!["VIEW v"]
    );
    assert_eq!(
        signatures("CREATE FUNCTION g() RETURNS void AS '; DROP TABLE x; ' LANGUAGE sql; DROP TYPE t"),
        vec!["FUNCTION g()", "TYPE t"]
    );
    assert_eq!(
        signatures("CREATE FUNCTION h() RETURNS void AS/* body */$$ ; DROP TABLE x; $$ LANGUAGE sql"),
        vec!["FUNCTION h()"]
    );
}

#[test]
fn keywords_are_no_names() {
    for (sql, signature) in [
        ("CREATE TABLE IF NOT EXISTS t1 (id int)", "TABLE t1"),
        ("create table if not exists t1 (id int)", "TABLE t1"),
        ("CREATE UNLOGGED TABLE t1 (id int)", "TABLE t1"),
        ("CREATE TEMP TABLE t1 (id int)", "TABLE t1"),
        ("CREATE TEMPORARY TABLE IF NOT EXISTS t1 (id int)", "TABLE t1"),
        ("CREATE GLOBAL TEMPORARY TABLE t1 (id int)", "TABLE t1"),
        ("ALTER TABLE ONLY t1 ADD a int", "TABLE t1"),
        ("ALTER TABLE IF EXISTS ONLY t1 ADD a int", "TABLE t1"),
        ("DROP TABLE t1, t2", "TABLE t1"),
        ("CREATE OR REPLACE RECURSIVE VIEW v AS SELECT 1", "VIEW v"),
        ("CREATE UNIQUE INDEX CONCURRENTLY IF NOT EXISTS i ON t (a)", "INDEX i"),
        ("DROP INDEX CONCURRENTLY IF EXISTS i", "INDEX i"),
        ("CREATE CONSTRAINT TRIGGER tg AFTER INSERT ON t", "TRIGGER tg"),
        ("DROP MATERIALIZED VIEW IF EXISTS mv", "MATERIALIZED VIEW mv"),
        ("CREATE FOREIGN TABLE ft (a int)", "FOREIGN TABLE ft"),
        ("CREATE FOREIGN DATA WRAPPER w", "FOREIGN DATA WRAPPER w"),
        ("CREATE OPERATOR CLASS c FOR TYPE t", "OPERATOR CLASS c"),
        ("CREATE OPERATOR public.+ (LEFTARG = a)", "OPERATOR public.+"),
        ("CREATE EVENT TRIGGER e ON ddl_command_start", "EVENT TRIGGER e"),
        ("CREATE TEXT SEARCH PARSER p (START = a)", "TEXT SEARCH PARSER p"),
        ("CREATE TABLE only (a int)", "TABLE only"),
        ("CREATE TABLE \"My Table\" (a int)", "TABLE my table"),
        ("CREATE TABLE public.\"My Table\"(a int)", "TABLE public.my table"),
        ("CREATE/* a */TABLE t1 (id int)", "TABLE t1"),
        ("CREATE TABLE public./* a */t1/* b */(id int)", "TABLE public.t1"),
    ] {
        assert_eq!(signatures(sql), vec![signature], "{sql}");
    }
    assert_eq!(signatures("CREATE INDEX ON t (a)"), Vec::<String>::new());
    assert_eq!(signatures("CREATE INDEX \"on\" ON t (a)"), vec!["INDEX on"]);
    assert_eq!(signatures("CREATED TABLE t (a int)"), Vec::<String>::new());
}

#[test]
fn catalogs_count_objects() {
    let fragments = vec![fragment("101.a.sql", "CREATE TABLE IF NOT EXISTS t1 (id int);")];
    let catalog = catalog_unreleased_objects(&fragments);
    assert_eq!(catalog.get("TABLE t1"), Some(&FragmentId::Numeric(101)));
    assert_eq!(catalog.len(), 1);
    let fragments = vec![
        fragment("1.a.sql", "CREATE TABLE t (a int); ALTER TABLE u ADD b int; DROP TYPE v;"),
        fragment("2.b.sql", "CREATE OR REPLACE VIEW w AS SELECT 1; CREATE TABLE t (a int);"),
    ];
    let catalog = catalog_unreleased_objects(&fragments);
    assert_eq!(catalog.len(), 2);
    assert_eq!(catalog.get("TABLE t"), Some(&FragmentId::Numeric(1)));
    assert_eq!(catalog.get("VIEW w"), Some(&FragmentId::Numeric(2)));
    assert_eq!(catalog.get("TABLE u"), None);
    assert_eq!(ObjectCatalog::new().len(), 0);
}

#[test]
fn findings_do_not_depend_on_the_listing() {
    let a = || fragment("101.a.sql", "CREATE FUNCTION f() RETURNS int AS $$ $$ LANGUAGE sql;");
    let b = || {
        fragment(
            "102.b.sql",
            "-- depends-on: 101\nCREATE OR REPLACE FUNCTION f() RETURNS int AS $$ $$ LANGUAGE sql;",
        )
    };
    assert!(check(&vec![a(), b()], false).is_empty());
    assert!(check(&vec![b(), a()], false).is_empty());
    let undeclared = || fragment("103.c.sql", "DROP FUNCTION f();");
    let issues = check(&vec![a(), b(), undeclared()], false);
    assert_eq!(issues.len(), 1);
    assert!(issues[0].message.contains("`101`"));
    assert_eq!(check(&vec![undeclared(), b(), a()], false), issues);
}

#[test]
fn an_owner_is_reported_once() {
    let fragments = vec![
        fragment("1.a.sql", "CREATE TABLE t (i int); CREATE TABLE u (i int);"),
        fragment("2.b.sql", "ALTER TABLE t ADD j int; ALTER TABLE u ADD j int; DROP TABLE t;"),
    ];
    let issues = check(&fragments, false);
    assert_eq!(issues.len(), 1);
    assert_eq!(issues[0].filename, "2.b.sql");
}

#[test]
fn catalogs_unreleased_objects_correctly() {
    let f1 = MigrationFragment {
        path: "101.sql".to_string(),
        filename: "101.sql".to_string(),
        id: FragmentId::Numeric(101),
        dependencies: vec![],
        sql_content:
            "CREATE TABLE t1 (id int); CREATE FUNCTION f1() RETURNS void AS $$ $$ LANGUAGE sql;"
                .to_string(),
    };

    let catalog = catalog_unreleased_objects(&[f1]);
    assert_eq!(catalog.get("TABLE t1"), Some(&FragmentId::Numeric(101)));
    assert_eq!(catalog.get("FUNCTION f1()"), Some(&FragmentId::Numeric(101)));
}

#[test]
fn the_first_creator_owns_an_object() {
    let fragments = vec![
        fragment("5.a.sql", "ALTER TABLE t ADD x int;"),
        fragment("7.b.sql", "CREATE TABLE t (x int);"),
        fragment("6.c.sql", "CREATE OR REPLACE TABLE t (x int);"),
    ];
    let catalog = catalog_unreleased_objects(&fragments);
    assert_eq!(catalog.get("TABLE t"), Some(&FragmentId::Numeric(7)));
    assert_eq!(catalog.get("TABLE u"), None);
    let mut other = ObjectCatalog::new();
    assert_eq!(other.get("x"), None);
    other.add_owner("x", &FragmentId::Numeric(1));
    other.add_owner("x", &FragmentId::Numeric(2));
    assert_eq!(other.get("x"), Some(&FragmentId::Numeric(1)));
}

#[test]
fn undeclared_dependencies_are_found() {
    let fragments = vec![
        fragment("101.create.sql", "CREATE TABLE t1 (id int);"),
        fragment("102.modify.sql", "ALTER TABLE t1 ADD COLUMN name text;"),
    ];
    let issues = check(&fragments, false);
    assert_eq!(
        issues,
        vec![DiagnosticIssue {
            file: "sql/unreleased/102.modify.sql".to_string(),
            filename: "102.modify.sql".to_string(),
            rule: LintRule::UndeclaredDependency,
            message: "Fragment touches unreleased object(s) from fragment `101` but does not declare '-- depends-on: 101'".to_string(),
        }]
    );
}

#[test]
fn declared_dependencies_pass() {
    for header in ["-- depends-on: 101\n", "/* depends-on: 101.create.sql */", "-- depends-on: #101\n"] {
        let fragments = vec![
            fragment("101.create.sql", "CREATE TABLE t1 (id int);"),
            fragment("102.modify.sql", &format!("{header}ALTER TABLE t1 ADD COLUMN name text;")),
        ];
        assert!(check(&fragments, false).is_empty());
    }
}

#[test]
fn mixed_objects_are_found_on_request() {
    let fragments = vec![
        fragment("101.create.sql", "CREATE TABLE unreleased_table (id int);"),
        fragment(
            "102.mixed.sql",
            "-- depends-on: 101\nALTER TABLE unreleased_table ADD COLUMN a int;\nALTER TABLE released_table ADD COLUMN b text;",
        ),
    ];
    assert!(check(&fragments, false).is_empty());
    let issues = check(&fragments, true);
    assert_eq!(issues.len(), 1);
    assert_eq!(issues[0].rule, LintRule::MixedObjects);
    assert_eq!(
        issues[0].message,
        "Fragment mixes modifications to already-released objects (TABLE released_table) with unreleased objects from fragment(s) [101]"
    );
}

#[test]
fn owners_are_listed_in_order() {
    let fragments = vec![
        fragment("b.sql", "CREATE VIEW v AS SELECT 1;"),
        fragment("20.y.sql", "CREATE TABLE y (i int);"),
        fragment("3.x.sql", "CREATE TABLE x (i int);"),
        fragment(
            "99.z.sql",
            "DROP VIEW v; DROP TABLE y; DROP TABLE x; DROP TABLE y; DROP TYPE r; DROP TYPE r;",
        ),
    ];
    let issues = check(&fragments, true);
    let rules: Vec<LintRule> = issues.iter().map(|i| i.rule).collect();
    assert_eq!(
        rules,
        vec![
            LintRule::UndeclaredDependency,
            LintRule::UndeclaredDependency,
            LintRule::UndeclaredDependency,
            LintRule::MixedObjects,
        ]
    );
    assert!(issues[0].message.contains("`3`"));
    assert!(issues[1].message.contains("`20`"));
    assert!(issues[2].message.contains("`b`"));
    assert!(issues[3].message.ends_with("(TYPE r, TYPE r) with unreleased objects from fragment(s) [3, 20, b]"));
}

#[test]
fn own_objects_are_no_finding() {
    let fragments = vec![fragment("1.a.sql", "CREATE TABLE t (i int); ALTER TABLE t ADD j int;")];
    assert!(check(&fragments, true).is_empty());
}

#[test]
fn circles_are_the_only_finding() {
    let fragments = vec![
        fragment("1.a.sql", "-- depends-on: 2\nCREATE TABLE t (i int);"),
        fragment("2.b.sql", "-- depends-on: 1\nALTER TABLE t ADD j int;"),
        fragment("3.c.sql", "ALTER TABLE t ADD k int;"),
    ];
    assert_eq!(
        check(&fragments, true),
        vec![DiagnosticIssue {
            file: "sql/unreleased".to_string(),
            filename: "unreleased".to_string(),
            rule: LintRule::DagCycle,
            message: "circular or unresolved dependency among migration fragments: 1.a.sql, 2.b.sql"
                .to_string(),
        }]
    );
    assert!(!needs_changed_files(&fragments, &config(false, Some("main"))));
}

#[test]
fn checks_are_limited_to_changed_files() {
    let fragments = vec![
        fragment("1.a.sql", "CREATE TABLE t (i int);"),
        fragment("2.b.sql", "ALTER TABLE t ADD j int;"),
        fragment("3.c.sql", "ALTER TABLE t ADD k int;"),
    ];
    let changed = vec!["3.c.sql".to_string(), "9.z.sql".to_string()];
    let limited = config(false, Some("main"));
    assert!(needs_changed_files(&fragments, &limited));
    assert!(!needs_changed_files(&fragments, &config(false, None)));
    let issues = run_lint_checks("d", &fragments, &changed, &limited);
    assert_eq!(issues.len(), 1);
    assert_eq!(issues[0].filename, "3.c.sql");
    assert_eq!(run_lint_checks("d", &fragments, &vec![], &limited).len(), 0);
    assert_eq!(run_lint_checks("d", &fragments, &changed, &config(false, None)).len(), 2);
}

#[test]
fn what_git_is_asked() {
    assert_eq!(list_merge_base_arguments("main"), vec!["merge-base", "main", "HEAD"]);
    assert_eq!(
        list_diff_arguments("abc"),
        vec!["diff", "--name-only", "--relative", "--diff-filter=AM", "abc...HEAD"]
    );
    assert_eq!(choose_diff_base("main", Some(" abc\n")), "abc");
    assert_eq!(choose_diff_base("main", Some(" \n")), "main");
    assert_eq!(choose_diff_base("main", None), "main");
}

#[test]
fn what_git_answers() {
    assert_eq!(
        changed_sql_files(true, "a/1.sql\r\nREADME.md\n\n  b/2.sql  \n", "").unwrap(),
        vec!["a/1.sql", "b/2.sql"]
    );
    assert!(changed_sql_files(true, "", "noise").unwrap().is_empty());
    let err = changed_sql_files(false, "a.sql", "fatal: bad revision").unwrap_err();
    assert_eq!(err, MigrateError::GitDiffFailed { output: "fatal: bad revision".to_string() });
    assert_eq!(err.message(), "git diff failed: fatal: bad revision");
}

#[test]
fn changed_files_in_the_directory() {
    let file = |resolved: Option<&str>, resolved_in_dir: bool, printed_in_dir: bool| ChangedFile {
        resolved: resolved.map(|r| r.to_string()),
        resolved_in_dir,
        printed: "printed".to_string(),
        printed_in_dir,
    };
    let files = vec![
        file(Some("r1"), true, false),
        file(Some("r2"), false, true),
        file(None, true, false),
        file(None, false, true),
    ];
    assert_eq!(get_changed_fragment_files(&files), vec!["r1", "printed"]);
}

#[test]
fn findings_in_each_format() {
    assert_eq!(LintFormat::default(), LintFormat::Text);
    let none: Vec<DiagnosticIssue> = vec![];
    let some = vec![DiagnosticIssue {
        file: "d/1.a.sql".to_string(),
        filename: "1.a.sql".to_string(),
        rule: LintRule::MixedObjects,
        message: "bad".to_string(),
    }];
    let lines = |issues: &Vec<DiagnosticIssue>, format: LintFormat| {
        match render_lint_diagnostics(issues, format) {
            LintOutput::Lines(lines) => lines,
            LintOutput::Data => panic!("no lines"),
        }
    };

    let text = lines(&none, LintFormat::Text);
    assert_eq!(text.len(), 1);
    assert_eq!(printed(&text[0]), "✅ All migration fragments passed lint checks.");
    assert_eq!(text[0].pieces[0], Piece::Text(Style::Green, "✅".to_string()));

    let text = lines(&some, LintFormat::Text);
    assert_eq!(text.len(), 2);
    assert_eq!(printed(&text[0]), "❌ 1.a.sql: bad");
    assert_eq!(text[0].pieces[2], Piece::Text(Style::Bold, "1.a.sql".to_string()));
    assert_eq!(printed(&text[1]), "\n❌ Migration fragment lint failed with 1 error(s).");
    assert!(text.iter().all(|l| l.stream == Stream::Output));

    let github = lines(&some, LintFormat::Github);
    let shown: Vec<(Stream, String)> = github.iter().map(|l| (l.stream, printed(l))).collect();
    assert_eq!(
        shown,
        vec![
            (Stream::Output, "::error file=d/1.a.sql::bad".to_string()),
            (Stream::Errors, "❌ 1.a.sql: bad".to_string()),
            (Stream::Errors, "\n❌ Migration fragment lint failed with 1 error(s).".to_string()),
        ]
    );
    let github = lines(&none, LintFormat::Github);
    assert_eq!(printed(&github[0]), "✅ All migration fragments passed lint checks.");
    assert_eq!(github[0].stream, Stream::Output);

    assert_eq!(render_lint_diagnostics(&some, LintFormat::Json), LintOutput::Data);

    assert_eq!(lint_verdict(&none), Ok(()));
    let err = lint_verdict(&some).unwrap_err();
    assert_eq!(err, MigrateError::LintFailed { count: 1 });
    assert_eq!(err.message(), "migration lint failed with 1 error(s)");
}
