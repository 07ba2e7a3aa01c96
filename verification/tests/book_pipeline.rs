use harness_book::assemble::{assemble_book, render_entry, render_preamble};
use harness_book::config::{parse_book_config, parse_toml_string, parse_toml_string_array, strip_toml_comment};
use harness_book::summary::{
    assign_chapter_labels, chapter_label_for, count_entries, parse_summary, parse_summary_link,
    SummaryEntry,
};
use harness_book::typst::Resolution;

const BOOK_TOML: &str = "[book]\ntitle = \"Harness \\\"Book\\\"\" # the title\nauthors = [\"Ada\", \"Lin\"]\ndescription = \"About harnesses\"\nlanguage = \"zh-CN\"\nsrc = \"src\"\n\n[output.html]\ntitle = \"ignored\"\n";

fn chars(s: &str) -> Vec<char> {
    s.chars().collect()
}

fn text(v: Vec<char>) -> String {
    v.into_iter().collect()
}

fn resolution(key: &str, value: &str) -> Resolution {
    Resolution { key: key.to_string(), value: Ok(value.to_string()) }
}

#[test]
fn book_config_reads_the_book_table() {
    let Ok(config) = parse_book_config(BOOK_TOML) else {
        panic!("the configuration should parse");
    };
    assert_eq!(config.title, "Harness \"Book\"");
    assert_eq!(config.authors, vec!["Ada".to_string(), "Lin".to_string()]);
    assert_eq!(config.description, "About harnesses");
    assert_eq!(config.language, "zh-CN");
    assert_eq!(config.source, "src");
}

#[test]
fn book_config_errors_name_the_missing_key() {
    let missing = parse_book_config("[book]\ntitle = \"T\"\n").err().map(|e| e.message());
    assert_eq!(missing.as_deref(), Some("book.toml [book] is missing description"));
    let empty = parse_book_config(
        "[book]\ntitle = \"T\"\ndescription = \"D\"\nlanguage = \"en\"\nsrc = \"src\"\nauthors = []\n",
    )
    .err()
    .map(|e| e.message());
    assert_eq!(empty.as_deref(), Some("book.toml authors must not be empty"));
    let malformed = parse_book_config("[book]\ntitle\n").err().map(|e| e.message());
    assert_eq!(malformed.as_deref(), Some("malformed book.toml line: title"));
}

#[test]
fn toml_values_and_comments() {
    assert_eq!(text(strip_toml_comment(&chars("a = \"#x\" # note"))), "a = \"#x\" ");
    assert_eq!(parse_toml_string(&chars("\"a\\tb\"")).ok().map(text).as_deref(), Some("a\tb"));
    assert!(parse_toml_string(&chars("bare")).is_err());
    let Ok(items) = parse_toml_string_array(&chars("[\"x\", \"y\"]")) else {
        panic!("the array should parse");
    };
    assert_eq!(items.into_iter().map(text).collect::<Vec<_>>(), vec!["x", "y"]);
}

#[test]
fn preamble_carries_escaped_metadata() {
    let Ok(config) = parse_book_config(BOOK_TOML) else {
        panic!("the configuration should parse");
    };
    let Ok(preamble) = render_preamble(&config) else {
        panic!("the preamble should render");
    };
    let preamble = text(preamble);
    assert_eq!(
        preamble,
        "#import \"template.typ\": *\n\n#show: book.with(\n  title: [#text(\"Harness \\\"Book\\\"\")],\n  subtitle: [#text(\"About harnesses\")],\n  authors: [#text(\"Ada, Lin\")],\n  language: \"zh\",\n  region: \"CN\",\n)\n\n"
    );
}

#[test]
fn summary_link_reads_title_target_and_depth() {
    let Some((title, target, depth)) = parse_summary_link(&chars("    - [Intro](<intro.md>)")) else {
        panic!("the link should parse");
    };
    assert_eq!(text(title), "Intro");
    assert_eq!(text(target), "intro.md");
    assert_eq!(depth, 2);
    assert!(parse_summary_link(&chars("- plain text")).is_none());
}

fn sample_summary() -> Vec<SummaryEntry> {
    let source = "# Summary\n\n- [Preface](preface.md)\n\n# Part One\n\n- [Intro](intro.md)\n  - [Details](details.md#top)\n---\n";
    let resolved = vec![
        resolution("preface.md", "/book/src/preface.md"),
        resolution("intro.md", "/book/src/intro.md"),
        resolution("details.md", "/book/src/details.md"),
    ];
    let Ok(mut entries) = parse_summary(source, "/book/src", "/book", &resolved) else {
        panic!("the summary should parse");
    };
    assign_chapter_labels(&mut entries);
    entries
}

#[test]
fn summary_entries_come_in_reading_order_with_labels() {
    let entries = sample_summary();
    assert_eq!(entries.len(), 5);
    assert_eq!(count_entries(&entries), (3, 1));
    match &entries[0] {
        SummaryEntry::Chapter(c) => {
            assert_eq!(c.title, "Preface");
            assert_eq!(c.depth, 0);
            assert_eq!(c.label, "chapter-000");
        }
        _ => panic!("first entry should be a chapter"),
    }
    assert!(matches!(&entries[1], SummaryEntry::Part(t) if t == "Part One"));
    match &entries[3] {
        SummaryEntry::Chapter(c) => {
            assert_eq!(c.source, "/book/src/details.md");
            assert_eq!(c.depth, 1);
            assert_eq!(c.label, "chapter-002");
        }
        _ => panic!("fourth entry should be a chapter"),
    }
    assert!(matches!(&entries[4], SummaryEntry::Separator));
    assert_eq!(chapter_label_for(&entries, "/book/src/intro.md").as_deref(), Some("chapter-001"));
    assert_eq!(chapter_label_for(&entries, "/book/src/missing.md"), None);
}

#[test]
fn summary_refuses_duplicates_and_escapes() {
    let resolved = vec![resolution("a.md", "/book/src/a.md"), resolution("out.md", "/elsewhere/out.md")];
    let dup = parse_summary("- [A](a.md)\n- [Again](a.md)\n", "/book/src", "/book", &resolved)
        .err()
        .map(|e| e.message());
    assert_eq!(dup.as_deref(), Some("SUMMARY.md contains a duplicate chapter target: /book/src/a.md"));
    let outside = parse_summary("- [Out](out.md)\n", "/book/src", "/book", &resolved)
        .err()
        .map(|e| e.message());
    assert_eq!(
        outside.as_deref(),
        Some("SUMMARY.md chapter is outside project root /book: /elsewhere/out.md")
    );
    let remote = parse_summary("- [R](https://example.com)\n", "/book/src", "/book", &resolved)
        .err()
        .map(|e| e.message());
    assert_eq!(remote.as_deref(), Some("SUMMARY.md chapter target must be local: https://example.com"));
    let none = parse_summary("# Summary\n", "/book/src", "/book", &resolved).err().map(|e| e.message());
    assert_eq!(none.as_deref(), Some("SUMMARY.md contains no chapters"));
    let odd = parse_summary("plain\n", "/book/src", "/book", &resolved).err().map(|e| e.message());
    assert_eq!(odd.as_deref(), Some("unsupported SUMMARY.md structure at line 1: plain"));
}

#[test]
fn entries_render_as_parts_breaks_and_labelled_chapters() {
    let entries = sample_summary();
    assert_eq!(text(render_entry(&entries[1], &[])), "#part([#text(\"Part One\")])\n\n");
    assert_eq!(text(render_entry(&entries[4], &[])), "#thematic-break()\n\n");
    assert_eq!(
        text(render_entry(&entries[3], &chars("Body"))),
        "#chapter([#text(\"Details\")], level: 3) <chapter-002>\nBody\n"
    );
    let Ok(config) = parse_book_config(BOOK_TOML) else {
        panic!("the configuration should parse");
    };
    let bodies = vec![chars("P"), vec![], chars("I"), chars("D"), vec![]];
    let Ok(book) = assemble_book(&config, &entries, &bodies) else {
        panic!("the book should assemble");
    };
    assert!(book.starts_with("#import \"template.typ\": *"));
    assert!(book.ends_with("<chapter-002>\nD\n#thematic-break()\n\n"));
}
