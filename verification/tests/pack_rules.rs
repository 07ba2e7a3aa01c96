use harness_book::pack::{
    check_ls_tree_output, checksum_file_text, checksum_name, hex_encode, is_commit_id,
    require_success, require_within, sha256_hex, split_words, validate_command_arguments,
    validate_file_name, validate_identifier, validate_package_name, validate_relative_path,
};

fn chars(s: &str) -> Vec<char> {
    s.chars().collect()
}

fn strings(items: &[&str]) -> Vec<String> {
    items.iter().map(|s| s.to_string()).collect()
}

fn err_text<T>(r: Result<T, harness_book::pack::PackError>) -> String {
    match r {
        Ok(_) => panic!("expected an error"),
        Err(e) => e.message(),
    }
}

#[test]
fn checksum_of_empty_archive_is_known_digest() {
    assert_eq!(
        checksum_file_text(&[]),
        "e3b0c44298fc1c149afbf4c8996fb92427ae41e4649b934ca495991b7852b855\n"
    );
    assert_eq!(
        sha256_hex(b"abc"),
        "ba7816bf8f01cfea414140de5dae2223b00361a396177a9cb410ff61f20015ad"
    );
    assert_eq!(checksum_file_text(b"abc").len(), 65);
}

#[test]
fn hex_encoding_uses_lowercase_pairs() {
    let hex: String = hex_encode(&[0x00, 0x0f, 0xa5, 0xff]).into_iter().collect();
    assert_eq!(hex, "000fa5ff");
    assert_eq!(checksum_name("pack.zip"), "pack.zip.sha256");
}

#[test]
fn relative_paths_must_stay_plain() {
    assert!(validate_relative_path(&chars("docs/chapter.md"), "files[0].path").is_ok());
    assert_eq!(
        err_text(validate_relative_path(&chars("../escape"), "files[0].path")),
        "files[0].path is not a safe relative path: ../escape"
    );
    assert_eq!(
        err_text(validate_relative_path(&chars("/abs"), "p")),
        "p is not a safe relative path: /abs"
    );
    assert_eq!(
        err_text(validate_relative_path(&chars(".git/config"), "p")),
        "p is not a safe relative path: .git/config"
    );
    assert_eq!(
        err_text(validate_relative_path(&chars("a\\b"), "p")),
        "p is not a safe relative path"
    );
    assert_eq!(err_text(validate_relative_path(&chars(""), "p")), "p is not a safe relative path");
}

#[test]
fn file_names_and_identifiers() {
    assert!(validate_file_name(&chars("pack.zip"), "archive").is_ok());
    assert_eq!(
        err_text(validate_file_name(&chars("dir/pack.zip"), "archive")),
        "archive must be one safe path component"
    );
    assert!(validate_identifier(&chars("chapter01"), "id").is_ok());
    assert_eq!(
        err_text(validate_identifier(&chars("Chapter"), "id")),
        "id must contain only lowercase ASCII letters and digits"
    );
    assert_eq!(
        err_text(validate_identifier(&chars(""), "id")),
        "id must contain only lowercase ASCII letters and digits"
    );
}

#[test]
fn commit_ids_and_package_names() {
    assert!(is_commit_id(&chars("0123456789abcdef0123456789abcdef01234567")));
    assert!(!is_commit_id(&chars("0123456789ABCDEF0123456789abcdef01234567")));
    assert!(!is_commit_id(&chars("abc")));
    assert!(validate_package_name(&chars("harness-core")));
    assert!(!validate_package_name(&chars("")));
    assert!(!validate_package_name(&chars("bad name")));
}

#[test]
fn offline_command_forms() {
    assert!(validate_command_arguments(&strings(&["cargo", "test", "--workspace", "--locked"]), 0).is_ok());
    assert!(validate_command_arguments(
        &strings(&["cargo", "run", "-p", "harness-cli", "--locked", "--", "hello"]),
        1
    )
    .is_ok());
    assert_eq!(
        err_text(validate_command_arguments(&strings(&["cargo", "build"]), 3)),
        "commands[3] is not a supported offline form"
    );
    assert_eq!(
        err_text(validate_command_arguments(
            &strings(&["cargo", "run", "-p", "harness-cli", "--locked", "--", "/etc/passwd"]),
            2
        )),
        "commands[2] is not a supported offline form"
    );
}

#[test]
fn words_split_on_whitespace() {
    let words: Vec<String> = split_words(&chars("  100644 blob\tabc  "))
        .into_iter()
        .map(|w| w.into_iter().collect())
        .collect();
    assert_eq!(words, vec!["100644", "blob", "abc"]);
}

#[test]
fn ls_tree_record_must_be_one_regular_blob() {
    let path = chars("docs/a.md");
    assert!(check_ls_tree_output(b"100644 blob 0123abcd\tdocs/a.md\0", &path).is_ok());
    assert!(check_ls_tree_output(b"100755 blob 0123abcd\tdocs/a.md\0", &path).is_ok());
    assert_eq!(
        err_text(check_ls_tree_output(b"", &path)),
        "source path does not exist: docs/a.md"
    );
    assert_eq!(
        err_text(check_ls_tree_output(b"100644 blob 1\tdocs/a.md\0100644 blob 2\tdocs/b.md\0", &path)),
        "source path resolved to multiple Git entries: docs/a.md"
    );
    assert_eq!(
        err_text(check_ls_tree_output(b"100644 blob 1 docs/a.md\0", &path)),
        "unexpected git ls-tree output"
    );
    assert_eq!(
        err_text(check_ls_tree_output(b"100644 blob\tdocs/a.md\0", &path)),
        "unexpected git ls-tree header"
    );
    assert_eq!(
        err_text(check_ls_tree_output(b"040000 tree 1\tdocs/a.md\0", &path)),
        "source path must be an exact regular Git blob: docs/a.md"
    );
    let bad = err_text(check_ls_tree_output(&[0xff, 0x00], &path));
    assert!(bad.starts_with("git ls-tree returned non-UTF-8 data: "));
    assert!(bad.len() > "git ls-tree returned non-UTF-8 data: ".len());
}

#[test]
fn failed_process_reports_trimmed_stderr() {
    assert!(require_success(true, &chars("git"), b"ignored").is_ok());
    assert_eq!(
        err_text(require_success(false, &chars("git archive"), b"  fatal: bad\n")),
        "git archive: fatal: bad"
    );
    assert_eq!(
        err_text(require_success(false, &chars("x"), &[b'a', 0xff])),
        "x: a\u{fffd}"
    );
}

#[test]
fn paths_must_stay_under_the_root() {
    assert!(require_within("/p/out", "/p", "output").is_ok());
    assert_eq!(
        err_text(require_within("/q/out", "/p", "output")),
        "output resolves outside the project root"
    );
}
