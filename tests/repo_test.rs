use postgit::merge::SchemaError;
use postgit::repo::{get_schema_script, strip_current_dir_prefix, TreeEntry};

fn file(path: &str, text: &str) -> TreeEntry {
    TreeEntry { path: path.to_string(), is_file: true, data: text.as_bytes().to_vec() }
}

fn dir(path: &str) -> TreeEntry {
    TreeEntry { path: path.to_string(), is_file: false, data: Vec::new() }
}

fn tree() -> Vec<TreeEntry> {
    vec![
        file("schema.sql", "create schema my_app;"),
        dir("schema"),
        file("schema/b.sql", "create table my_app.b();"),
        file("schema/a.sql", "-- import schema/b.sql\ncreate table my_app.a();"),
        file("schema2/c.sql", "create table my_app.c();"),
    ]
}

#[test]
fn a_single_file_resolves_to_its_content() {
    let t = tree();
    assert_eq!(Ok("create schema my_app;".to_string()), get_schema_script("HEAD", Some(&t), "schema.sql"));
}

#[test]
fn leading_current_dir_is_ignored() {
    let t = tree();
    assert_eq!(
        get_schema_script("HEAD", Some(&t), "schema.sql"),
        get_schema_script("HEAD", Some(&t), "./schema.sql")
    );
    assert_eq!(
        get_schema_script("HEAD", Some(&t), "schema/"),
        get_schema_script("HEAD", Some(&t), "./schema/")
    );
    assert_eq!("x", strip_current_dir_prefix("././x"));
}

#[test]
fn a_directory_resolves_to_its_merged_files() {
    let t = tree();
    assert_eq!(
        Ok("create table my_app.b();\n-- import schema/b.sql\ncreate table my_app.a();".to_string()),
        get_schema_script("HEAD", Some(&t), "./schema/")
    );
}

#[test]
fn the_prefix_test_is_on_characters() {
    let t = tree();
    let all = get_schema_script("HEAD", Some(&t), "schema").unwrap();
    assert!(all.contains("create table my_app.c();"));
    assert!(all.contains("create schema my_app;"));
    let everything = get_schema_script("HEAD", Some(&t), "./").unwrap();
    assert_eq!(all.len(), everything.len());
}

#[test]
fn a_missing_revision_is_reported() {
    assert_eq!(
        Err(SchemaError::RevisionNotFound("HEAD^9".to_string())),
        get_schema_script("HEAD^9", None, "schema.sql")
    );
    assert_eq!(
        "Didn't find source commit for ref HEAD^9",
        SchemaError::RevisionNotFound("HEAD^9".to_string()).message()
    );
}

#[test]
fn binary_content_is_an_encoding_error() {
    let t = vec![
        file("s/a.sql", "select 1;"),
        TreeEntry { path: "s/b.sql".to_string(), is_file: true, data: vec![0xff, 0xfe, 0x00] },
    ];
    assert_eq!(
        Err(SchemaError::EncodingError("s/b.sql".to_string())),
        get_schema_script("HEAD", Some(&t), "s")
    );
    assert_eq!(Ok("select 1;".to_string()), get_schema_script("HEAD", Some(&t), "s/a"));
}

#[test]
fn no_matching_file_resolves_to_nothing() {
    let t = tree();
    assert_eq!(Ok(String::new()), get_schema_script("HEAD", Some(&t), "nothing/"));
}

#[test]
fn a_cycle_in_the_tree_is_reported() {
    let t = vec![file("c/a", "-- import c/b\na"), file("c/b", "-- import c/a\nb")];
    assert_eq!(Err(SchemaError::DependencyCycle), get_schema_script("HEAD", Some(&t), "c"));
    assert_eq!("Dependency cycle found.", SchemaError::DependencyCycle.message());
}
