use pgrx_migrate::error::MigrateError;
use pgrx_migrate::fragment::{FragmentDependency, FragmentId, MigrationFragment};
use pgrx_migrate::order::{note_missing_prerequisites, sort_positions, topological_sort_fragments};

fn numbered(number: u64, filename: &str, needs: &[u64]) -> MigrationFragment {
    MigrationFragment {
        path: filename.to_string(),
        filename: filename.to_string(),
        id: FragmentId::Numeric(number),
        dependencies: needs
            .iter()
            .map(|n| FragmentDependency::Id(FragmentId::Numeric(*n)))
            .collect(),
        sql_content: String::new(),
    }
}

fn sorted_names(fragments: Vec<MigrationFragment>) -> Vec<String> {
    topological_sort_fragments(fragments).unwrap().into_iter().map(|f| f.filename).collect()
}

#[test]
fn topological_sort_respects_dependencies_and_tiebreaker() {
    let f1 = MigrationFragment {
        path: "6099.init.sql".to_string(),
        filename: "6099.init.sql".to_string(),
        id: FragmentId::Numeric(6099),
        dependencies: vec![],
        sql_content: "-- 6099".to_string(),
    };
    let f2 = MigrationFragment {
        path: "6221.dependent.sql".to_string(),
        filename: "6221.dependent.sql".to_string(),
        id: FragmentId::Numeric(6221),
        dependencies: vec![FragmentDependency::Id(FragmentId::Numeric(6099))],
        sql_content: "-- 6221".to_string(),
    };
    let f3 = MigrationFragment {
        path: "6100.independent.sql".to_string(),
        filename: "6100.independent.sql".to_string(),
        id: FragmentId::Numeric(6100),
        dependencies: vec![],
        sql_content: "-- 6100".to_string(),
    };

    let sorted = topological_sort_fragments(vec![f2, f3, f1]).unwrap();
    let filenames: Vec<_> = sorted.into_iter().map(|f| f.filename).collect();
    assert_eq!(filenames, vec!["6099.init.sql", "6100.independent.sql", "6221.dependent.sql"]);
}

#[test]
fn missing_dependency_assumed_already_applied() {
    let f1 = MigrationFragment {
        path: "6221.dependent.sql".to_string(),
        filename: "6221.dependent.sql".to_string(),
        id: FragmentId::Numeric(6221),
        dependencies: vec![FragmentDependency::Id(FragmentId::Numeric(9999))],
        sql_content: "-- 6221".to_string(),
    };
    let sorted = topological_sort_fragments(vec![f1]).unwrap();
    assert_eq!(sorted.len(), 1);
    assert_eq!(sorted[0].filename, "6221.dependent.sql");
}

#[test]
fn missing_prerequisites_are_noted() {
    let mut other = numbered(3, "3.c.sql", &[3, 8]);
    other.dependencies.push(FragmentDependency::Filename("1.a.sql".to_string()));
    other.dependencies.push(FragmentDependency::Filename("x.sql".to_string()));
    let fragments = vec![numbered(1, "1.a.sql", &[9, 3]), other];
    let note = |fragment: &str, prerequisite: &str| {
        format!(
            "fragment `{fragment}` declares prerequisite `{prerequisite}`, which was not found in unreleased fragments (assuming already applied in previous release)"
        )
    };
    assert_eq!(
        note_missing_prerequisites(&fragments),
        vec![note("1.a.sql", "9"), note("3.c.sql", "8"), note("3.c.sql", "x.sql")]
    );
    assert!(note_missing_prerequisites(&vec![]).is_empty());
}

#[test]
fn circular_dependency_errors() {
    let f1 = MigrationFragment {
        path: "100.a.sql".to_string(),
        filename: "100.a.sql".to_string(),
        id: FragmentId::Numeric(100),
        dependencies: vec![FragmentDependency::Id(FragmentId::Numeric(200))],
        sql_content: "-- 100".to_string(),
    };
    let f2 = MigrationFragment {
        path: "200.b.sql".to_string(),
        filename: "200.b.sql".to_string(),
        id: FragmentId::Numeric(200),
        dependencies: vec![FragmentDependency::Id(FragmentId::Numeric(100))],
        sql_content: "-- 200".to_string(),
    };
    let err = topological_sort_fragments(vec![f1, f2]).unwrap_err();
    assert!(err.message().contains("circular or unresolved dependency"));
}

#[test]
fn no_fragments_are_sorted() {
    assert_eq!(topological_sort_fragments(vec![]).unwrap().len(), 0);
}

#[test]
fn only_the_stuck_are_named() {
    let fragments = vec![
        numbered(4, "4.after.sql", &[2]),
        numbered(1, "1.free.sql", &[]),
        numbered(2, "2.a.sql", &[3]),
        numbered(3, "3.b.sql", &[2, 1]),
    ];
    let err = topological_sort_fragments(fragments).unwrap_err();
    assert_eq!(
        err.message(),
        "circular or unresolved dependency among migration fragments: 4.after.sql, 2.a.sql, 3.b.sql"
    );
}

#[test]
fn a_fragment_does_not_wait_for_itself() {
    assert_eq!(sorted_names(vec![numbered(1, "1.a.sql", &[1])]), vec!["1.a.sql"]);
}

#[test]
fn an_identifier_means_all_that_bear_it() {
    let names = sorted_names(vec![
        numbered(1, "1.last.sql", &[7]),
        numbered(7, "7.b.sql", &[]),
        numbered(7, "7.a.sql", &[]),
    ]);
    assert_eq!(names, vec!["7.a.sql", "7.b.sql", "1.last.sql"]);
}

#[test]
fn a_file_name_means_the_last_that_bears_it() {
    let mut first = numbered(1, "same.sql", &[]);
    first.dependencies = vec![FragmentDependency::Filename("same.sql".to_string())];
    let second = numbered(2, "same.sql", &[]);
    assert_eq!(sort_positions(&vec![first, second]).unwrap(), vec![1, 0]);
}

#[test]
fn slugs_come_after_numbers() {
    let mut slug = numbered(0, "a.sql", &[]);
    slug.id = FragmentId::Slug("a".to_string());
    let names = sorted_names(vec![slug, numbered(10, "10.x.sql", &[]), numbered(9, "9.x.sql", &[])]);
    assert_eq!(names, vec!["9.x.sql", "10.x.sql", "a.sql"]);
}

#[test]
fn input_order_plays_no_part() {
    let make = || {
        vec![
            numbered(3, "3.c.sql", &[1]),
            numbered(1, "1.a.sql", &[]),
            numbered(2, "2.b.sql", &[3]),
        ]
    };
    let mut reversed = make();
    reversed.reverse();
    assert_eq!(sorted_names(make()), sorted_names(reversed));
    assert_eq!(sorted_names(make()), vec!["1.a.sql", "3.c.sql", "2.b.sql"]);
}

#[test]
fn positions_or_a_circle() {
    let circle = vec![numbered(1, "1.a.sql", &[2]), numbered(2, "2.b.sql", &[1])];
    assert_eq!(
        sort_positions(&circle).unwrap_err(),
        MigrateError::CircularDependency {
            filenames: vec!["1.a.sql".to_string(), "2.b.sql".to_string()],
        }
    );
    assert_eq!(sort_positions(&vec![numbered(1, "1.a.sql", &[])]).unwrap(), vec![0]);
}
