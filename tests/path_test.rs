use postgit::imports::import_targets;
use postgit::path::{has_sql_extension, normalize_path, resolve_import_path, should_deploy};

#[test]
fn normalize_collapses_dots() {
    assert_eq!("b/c", normalize_path("b/d/e/../../c"));
    assert_eq!("b/d/f", normalize_path("b/d/e/.././f"));
    assert_eq!("a/b", normalize_path("./a//b/"));
    assert_eq!("", normalize_path("a/.."));
    assert_eq!("", normalize_path("../.."));
    assert_eq!("/x", normalize_path("/tmp/../x"));
    assert_eq!("/", normalize_path("/.."));
}

#[test]
fn relative_imports_resolve_like_their_plain_counterparts() {
    assert_eq!("b/c", resolve_import_path("b/d/e", "../c"));
    assert_eq!("b/d/f", resolve_import_path("b/d/e", "./f"));
    assert_eq!(resolve_import_path("x/y", "b/c"), resolve_import_path("b/d/e", "../c"));
    assert_eq!(resolve_import_path("x/y", "b/d/f"), resolve_import_path("b/d/e", "./f"));
    assert_eq!("f", resolve_import_path("top", "./f"));
}

#[test]
fn plain_imports_are_read_from_the_root() {
    assert_eq!("schema/b", resolve_import_path("schema/a", "schema/b"));
    assert_eq!("b", resolve_import_path("schema/a", "a/../b"));
}

#[test]
fn import_directives_are_found_line_by_line() {
    assert_eq!(
        vec!["a/b/d".to_string(), "a/f/h".to_string()],
        import_targets("-- import a/b/d\n-- import a/f/h\ne")
    );
    assert_eq!(vec!["x".to_string()], import_targets("create table t(); --import\tx"));
    assert_eq!(vec!["b".to_string()], import_targets("-- import a -- import b"));
    assert!(import_targets("-- importx\n-- import\n--imports a\nselect 1;").is_empty());
    assert_eq!(vec!["./user.sql".to_string()], import_targets("\n        -- import ./user.sql\n"));
}

#[test]
fn sql_extension_is_read_from_the_file_name() {
    assert!(has_sql_extension("/tmp/w/001_schema.sql"));
    assert!(has_sql_extension("a.b.sql"));
    assert!(has_sql_extension("dir/x.sql/"));
    assert!(!has_sql_extension(".sql"));
    assert!(!has_sql_extension("dir/.sql"));
    assert!(!has_sql_extension("x.sql.swp"));
    assert!(!has_sql_extension("x.SQL"));
    assert!(!has_sql_extension("a.sql/.."));
}

#[test]
fn a_batch_deploys_only_with_an_sql_file() {
    assert!(should_deploy(&vec!["a.txt".to_string(), "w/b.sql".to_string()]));
    assert!(!should_deploy(&vec!["a.txt".to_string(), "w/.b.sql~".to_string()]));
    assert!(!should_deploy(&Vec::new()));
}
