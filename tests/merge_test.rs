use postgit::merge::{merge_sql_scripts, SchemaError};

fn files(pairs: &[(&str, &str)]) -> Vec<(String, String)> {
    pairs.iter().map(|(k, v)| (k.to_string(), v.to_string())).collect()
}

fn position(lines: &[&str], first: char) -> usize {
    lines.iter().position(|l| l.starts_with(first)).unwrap()
}

#[test]
fn it_merges_sql_scripts_in_order() {
    let scripts = files(&[
        (
            "schema/a",
            "-- import schema/b\n\ncreate table foo.bar(\n    id int primary key\n);\n",
        ),
        ("schema/b", "create schema foo;"),
    ]);

    let merged_script = merge_sql_scripts(&scripts);
    assert_eq!(
        "create schema foo;\n-- import schema/b\n\ncreate table foo.bar(\n    id int primary key\n);\n"
            .to_string(),
        merged_script.unwrap()
    );
}

#[test]
fn it_merges_sql_scripts_in_bfs_order() {
    let scripts = files(&[
        ("a/b/c", "1"),
        ("a/b/d", "2"),
        ("a/e", "3"),
        ("a/f/g", "4"),
        ("a/f/h", "5"),
    ]);

    let merged_script = merge_sql_scripts(&scripts);
    assert_eq!("1\n2\n3\n4\n5".to_string(), merged_script.unwrap());
}

#[test]
fn it_merges_scripts_in_order_with_some_imports() {
    let scripts = files(&[
        ("a/b/c", "c"),
        ("a/b/d", "d"),
        ("a/e", "-- import a/b/d\n-- import a/f/h\ne"),
        ("a/f/g", "g"),
        ("a/f/h", "h"),
    ]);

    let merged_script = merge_sql_scripts(&scripts).unwrap();
    let lines: Vec<&str> = merged_script.lines().collect();

    assert!(position(&lines, 'd') < position(&lines, 'e'));
    assert!(position(&lines, 'h') < position(&lines, 'e'));
}

#[test]
fn it_imports_with_relative_paths() {
    let scripts = files(&[
        ("a", "a"),
        ("b/c", "c"),
        ("b/d/e", "\n-- import ../c\n-- import ./f\ne"),
        ("b/d/f", "f"),
    ]);

    let merged_script = merge_sql_scripts(&scripts).unwrap();
    let lines: Vec<&str> = merged_script.lines().collect();

    assert!(position(&lines, 'c') < position(&lines, 'e'));
    assert!(position(&lines, 'f') < position(&lines, 'e'));
}

#[test]
fn merge_without_imports_follows_path_order_whatever_the_input_order() {
    let scripts = files(&[("z", "last"), ("m", "middle"), ("a", "first")]);
    assert_eq!(
        "first\nmiddle\nlast".to_string(),
        merge_sql_scripts(&scripts).unwrap()
    );
}

#[test]
fn merge_of_two_plain_files_keeps_path_order() {
    let scripts = files(&[("b.sql", "two"), ("a.sql", "one")]);
    assert_eq!("one\ntwo".to_string(), merge_sql_scripts(&scripts).unwrap());
}

#[test]
fn merge_of_mutual_imports_is_a_cycle() {
    let scripts = files(&[("a", "-- import b\nA"), ("b", "-- import a\nB")]);
    assert_eq!(Err(SchemaError::DependencyCycle), merge_sql_scripts(&scripts));
}

#[test]
fn merge_of_a_file_importing_itself_is_a_cycle() {
    let scripts = files(&[("a", "-- import a\nA"), ("b", "B")]);
    assert_eq!(Err(SchemaError::DependencyCycle), merge_sql_scripts(&scripts));
}

#[test]
fn merge_of_a_single_file_returns_it_unchanged() {
    let scripts = files(&[("only.sql", "-- import only.sql\ncreate schema x;")]);
    assert_eq!(
        "-- import only.sql\ncreate schema x;".to_string(),
        merge_sql_scripts(&scripts).unwrap()
    );
}

#[test]
fn merge_of_no_files_is_empty() {
    assert_eq!(String::new(), merge_sql_scripts(&Vec::new()).unwrap());
}

#[test]
fn merge_ignores_imports_of_missing_files() {
    let scripts = files(&[("b", "-- import nowhere\nB"), ("a", "A")]);
    assert_eq!(
        "A\n-- import nowhere\nB".to_string(),
        merge_sql_scripts(&scripts).unwrap()
    );
}

#[test]
fn merge_puts_a_chain_of_imports_in_order() {
    let scripts = files(&[
        ("a", "-- import c\nA"),
        ("b", "B"),
        ("c", "-- import b\nC"),
    ]);
    let merged = merge_sql_scripts(&scripts).unwrap();
    let lines: Vec<&str> = merged.lines().filter(|l| !l.starts_with("--")).collect();
    assert_eq!(vec!["B", "C", "A"], lines);
}
