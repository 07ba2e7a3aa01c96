use harness_book::archive::{
    check_archive_entry, check_command_output, check_entry_count, check_entry_set,
    check_extracted_file, command_failure_context, ArchiveFiles,
};
use harness_book::manifest::{require_unique_paths, Manifest, TomlValue};
use harness_book::pack::PackError;

const COMMIT: &str = "0123456789abcdef0123456789abcdef01234567";

fn s(v: &str) -> TomlValue {
    TomlValue::Str(v.to_string())
}

fn strs(items: &[&str]) -> TomlValue {
    TomlValue::Array(items.iter().map(|v| s(v)).collect())
}

fn table(pairs: Vec<(&str, TomlValue)>) -> TomlValue {
    TomlValue::Table(pairs.into_iter().map(|(k, v)| (k.to_string(), v)).collect())
}

fn strings(items: &[&str]) -> Vec<String> {
    items.iter().map(|v| v.to_string()).collect()
}

fn manifest_pairs() -> Vec<(&'static str, TomlValue)> {
    vec![
        ("schema", TomlValue::Integer(1)),
        ("chapter", s("ch01")),
        ("source_commit", s(COMMIT)),
        ("archive_name", s("ch01.zip")),
        ("root_directory", s("ch01")),
        ("source_paths", strs(&["Cargo.toml", "crates/core/src/lib.rs"])),
        (
            "generated_files",
            TomlValue::Array(vec![table(vec![
                ("source", s("target/out.txt")),
                ("destination", s("expected/out.txt")),
            ])]),
        ),
        (
            "commands",
            TomlValue::Array(vec![
                table(vec![("argv", strs(&["cargo", "test", "--workspace", "--locked"]))]),
                table(vec![
                    ("argv", strs(&["cargo", "run", "-p", "harness-cli", "--locked", "--", "hi"])),
                    ("expected_stdout", s("expected/out.txt")),
                ]),
            ]),
        ),
    ]
}

fn manifest_error(doc: TomlValue) -> String {
    match Manifest::from_document(&doc) {
        Ok(_) => panic!("the manifest should be refused"),
        Err(e) => e.message(),
    }
}

fn with(key: &str, value: TomlValue) -> TomlValue {
    let pairs = manifest_pairs()
        .into_iter()
        .map(|(k, v)| if k == key { (k, value.clone_value()) } else { (k, v) })
        .collect();
    table(pairs)
}

trait CloneValue {
    fn clone_value(&self) -> TomlValue;
}

impl CloneValue for TomlValue {
    fn clone_value(&self) -> TomlValue {
        match self {
            TomlValue::Str(v) => TomlValue::Str(v.clone()),
            TomlValue::Integer(i) => TomlValue::Integer(*i),
            TomlValue::Boolean(b) => TomlValue::Boolean(*b),
            TomlValue::Array(v) => TomlValue::Array(v.iter().map(|x| x.clone_value()).collect()),
            TomlValue::Table(t) => {
                TomlValue::Table(t.iter().map(|(k, v)| (k.clone(), v.clone_value())).collect())
            }
            TomlValue::Other => TomlValue::Other,
        }
    }
}

#[test]
fn manifest_reads_a_valid_document() {
    let Ok(m) = Manifest::from_document(&table(manifest_pairs())) else {
        panic!("the manifest should be accepted");
    };
    assert_eq!(m.source_commit, COMMIT);
    assert_eq!(m.archive_name, "ch01.zip");
    assert_eq!(m.root_directory, "ch01");
    assert_eq!(m.source_paths, strings(&["Cargo.toml", "crates/core/src/lib.rs"]));
    assert_eq!(m.generated_files.len(), 1);
    assert_eq!(m.generated_files[0].source, "target/out.txt");
    assert_eq!(m.generated_files[0].destination, "expected/out.txt");
    assert_eq!(m.commands.len(), 2);
    assert_eq!(m.commands[0].expected_stdout, None);
    assert_eq!(m.commands[1].expected_stdout.as_deref(), Some("expected/out.txt"));
}

#[test]
fn manifest_errors_name_the_field() {
    assert_eq!(manifest_error(s("x")), "pack manifest must be a TOML table");
    assert_eq!(manifest_error(with("schema", TomlValue::Integer(2))), "pack manifest schema must be 1");
    assert_eq!(manifest_error(with("schema", s("1"))), "schema must be an integer");
    assert_eq!(
        manifest_error(with("chapter", s("Ch01"))),
        "chapter must contain only lowercase ASCII letters and digits"
    );
    assert_eq!(
        manifest_error(with("source_commit", s("abc"))),
        "source_commit must be a full lowercase hexadecimal Git object ID"
    );
    assert_eq!(manifest_error(with("archive_name", s("ch01.tar"))), "archive_name must end in .zip");
    assert_eq!(manifest_error(with("source_paths", strs(&[]))), "source_paths must not be empty");
    assert_eq!(
        manifest_error(with("source_paths", strs(&["a.rs", "a.rs"]))),
        "duplicate path in source_paths: a.rs"
    );
    assert_eq!(
        manifest_error(with("source_paths", strs(&["../a.rs"]))),
        "source path is not a safe relative path: ../a.rs"
    );
    assert_eq!(
        manifest_error(with("commands", TomlValue::Array(vec![table(vec![("argv", strs(&["make"]))])]))),
        "commands[0] must invoke cargo directly"
    );
    assert_eq!(manifest_error(with("commands", TomlValue::Array(vec![]))), "commands must not be empty");
    let mut extra = manifest_pairs();
    extra.push(("license", s("MIT")));
    assert_eq!(manifest_error(table(extra)), "unsupported key \"license\" in pack manifest");
}

#[test]
fn unique_paths_are_required() {
    assert!(require_unique_paths(&strings(&["a", "b"]), "x").is_ok());
    let Err(e) = require_unique_paths(&strings(&["a", "b", "a"]), "ctx") else {
        panic!("a repeated path should be refused");
    };
    assert_eq!(e.message(), "duplicate path in ctx: a");
}

#[test]
fn archive_files_stay_sorted_and_unique() {
    let mut files = ArchiveFiles::new();
    assert!(files.insert("src/main.rs", vec![1]).is_ok());
    assert!(files.insert("Cargo.toml", vec![2]).is_ok());
    assert!(files.insert("README.md", vec![3]).is_ok());
    let Err(e) = files.insert("Cargo.toml", vec![9]) else {
        panic!("a duplicate destination should be refused");
    };
    assert_eq!(e.message(), "duplicate archive destination: Cargo.toml");
    assert_eq!(files.len(), 3);
    let names: Vec<&str> = (0..files.len()).map(|k| files.entry(k).0).collect();
    assert_eq!(names, vec!["Cargo.toml", "README.md", "src/main.rs"]);
    assert_eq!(files.entry(0).1, &[2u8][..]);
    assert_eq!(
        files.entry_names("ch01"),
        strings(&["ch01/Cargo.toml", "ch01/README.md", "ch01/src/main.rs"])
    );
}

fn message(r: Result<(), PackError>) -> String {
    match r {
        Ok(()) => panic!("expected an error"),
        Err(e) => e.message(),
    }
}

#[test]
fn archive_entries_are_checked_one_by_one() {
    let expected = strings(&["ch01/a", "ch01/b"]);
    let mut seen: Vec<String> = Vec::new();
    assert!(check_archive_entry(&expected, &mut seen, "ch01/a", true, false, Some(0o100644)).is_ok());
    assert_eq!(seen, strings(&["ch01/a"]));
    assert_eq!(
        message(check_archive_entry(&expected, &mut seen, "ch01/a", true, false, Some(0o100644))),
        "archive contains an unexpected or duplicate entry: ch01/a"
    );
    assert_eq!(
        message(check_archive_entry(&expected, &mut seen, "ch01/b", true, false, Some(0o100755))),
        "archive entry is not a regular read-only data file: ch01/b"
    );
    assert_eq!(seen, expected);
    assert!(check_entry_set(&seen, &expected).is_ok());
    assert_eq!(
        message(check_entry_set(&strings(&["ch01/a"]), &expected)),
        "archive entries do not match manifest"
    );
    assert!(check_entry_count(2, 2).is_ok());
    assert_eq!(message(check_entry_count(3, 2)), "archive entry count does not match manifest");
    assert!(check_extracted_file("a", b"x", b"x").is_ok());
    assert_eq!(
        message(check_extracted_file("a", b"x", b"y")),
        "extracted file does not match its source: a"
    );
}

#[test]
fn command_failures_name_the_command_line() {
    let argv = strings(&["cargo", "test", "--workspace", "--locked"]);
    let context: String = command_failure_context(&argv).into_iter().collect();
    assert_eq!(context, "verification command failed: cargo test --workspace --locked");
    assert!(check_command_output(&argv, "expected/out.txt", b"ok\n", b"ok\n").is_ok());
    assert_eq!(
        message(check_command_output(&argv, "expected/out.txt", b"no\n", b"ok\n")),
        "verification command stdout did not match expected/out.txt: cargo test --workspace --locked"
    );
}

#[test]
fn manifest_refuses_a_command_that_reaches_outside_the_workspace() {
    let escaping = TomlValue::Array(vec![table(vec![(
        "argv",
        strs(&["cargo", "test", "--manifest-path", "/tmp/outside/Cargo.toml"]),
    )])]);
    let message = manifest_error(with("commands", escaping));
    assert!(message.contains("supported offline form"));
    assert_eq!(message, "commands[0] is not a supported offline form");
}

const MANIFEST_TEXT: &str = r#"schema = 1
chapter = "ch01"
source_commit = "0123456789abcdef0123456789abcdef01234567"
archive_name = "ch01.zip"
root_directory = "ch01"
source_paths = ["Cargo.toml", "crates/core/src/lib.rs"]

[[generated_files]]
source = "target/out.txt"
destination = "expected/out.txt"

[[commands]]
argv = ["cargo", "test", "--workspace", "--locked"]

[[commands]]
argv = ["cargo", "run", "-p", "harness-cli", "--locked", "--", "hi"]
expected_stdout = "expected/out.txt"
"#;

#[test]
fn manifest_text_is_parsed_and_checked() {
    let Ok(m) = Manifest::parse(MANIFEST_TEXT) else {
        panic!("the manifest text should be accepted");
    };
    assert_eq!(m.source_commit, COMMIT);
    assert_eq!(m.source_paths, strings(&["Cargo.toml", "crates/core/src/lib.rs"]));
    assert_eq!(m.generated_files[0].destination, "expected/out.txt");
    assert_eq!(m.commands.len(), 2);
    assert_eq!(m.commands[1].argv[3], "harness-cli");
}

#[test]
fn manifest_text_that_is_not_toml_is_refused() {
    let Err(e) = Manifest::parse("schema = \n") else {
        panic!("broken TOML should be refused");
    };
    let message = e.message();
    assert!(message.starts_with("invalid pack manifest TOML: "));
    assert!(message.len() > "invalid pack manifest TOML: ".len());
}

#[test]
fn manifest_text_reports_the_first_unknown_key_by_name_order() {
    let text = format!("zeta = 1\nalpha = 2\n{MANIFEST_TEXT}");
    let Err(e) = Manifest::parse(&text) else {
        panic!("unknown keys should be refused");
    };
    assert_eq!(e.message(), "unsupported key \"alpha\" in pack manifest");
    let Err(e) = Manifest::parse(&MANIFEST_TEXT.replace("schema = 1", "schema = 1.5")) else {
        panic!("a float schema should be refused");
    };
    assert_eq!(e.message(), "schema must be an integer");
}

#[test]
fn unexpected_archive_entries_are_refused() {
    let expected = strings(&["ch01/a"]);
    let Err(e) = check_entry_set(&strings(&["ch01/a", "ch01/extra"]), &expected) else {
        panic!("an extra entry should be refused");
    };
    assert_eq!(e.message(), "archive entries do not match manifest");
}
