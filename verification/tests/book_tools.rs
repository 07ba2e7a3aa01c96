use harness_book::inline::parse_inlines;
use harness_book::markdown::Inline;
use harness_book::args::{parse_pack_arguments, parse_render_arguments};
use harness_book::assets::{AssetPlan, AssetRegistry};
use harness_book::cli::{cli_mode, quoted_value, render_event, version_from_output, CliMode, DoctorError, ToolchainReport};
use harness_book::document::parse_markdown;
use harness_book::gitbook::{
    gitbook_chapter_outputs, render_gitbook_blocks, render_gitbook_summary, resolve_gitbook_link,
    GitBookEnvironment,
};
use harness_book::gitmd::{
    escape_markdown_text, markdown_fence, markdown_inline_code, path_to_markdown,
    prefix_markdown_lines, relative_markdown_path,
};
use harness_book::includes::{
    check_include_stack, include_candidates, next_directive, select_include, ExpandStep, Expander,
};
use harness_book::paths::{check_output_path, check_protected, ensure_inside, Protected};
use harness_book::summary::{SummaryChapter, SummaryEntry};
use harness_book::turn::{Event, Item, ItemId, ThreadId, TurnId};
use harness_book::typst::{escape_typst_string, Resolution};

fn chars(s: &str) -> Vec<char> {
    s.chars().collect()
}

fn text(v: Vec<char>) -> String {
    v.into_iter().collect()
}

fn strings(items: &[&str]) -> Vec<String> {
    items.iter().map(|v| v.to_string()).collect()
}

#[test]
fn typst_strings_escape_quotes_and_backslashes() {
    assert_eq!(text(escape_typst_string(&chars("a\"b\\c"))), "a\\\"b\\\\c");
}

#[test]
fn markdown_text_escapes_special_characters() {
    assert_eq!(text(escape_markdown_text(&chars("a*b_[c]|<d>\\"))), "a\\*b\\_\\[c\\]\\|\\<d\\>\\\\");
}

#[test]
fn fences_and_inline_code_outlast_their_content() {
    assert_eq!(text(markdown_fence(&chars("fn main() {}"), &chars("rust"))), "```");
    assert_eq!(text(markdown_fence(&chars("````\nx"), &chars(""))), "`````");
    assert_eq!(text(markdown_fence(&chars("```"), &chars("a`b"))), "~~~");
    assert_eq!(text(markdown_inline_code(&chars("x"))), "`x`");
    assert_eq!(text(markdown_inline_code(&chars("a``b"))), "```a``b```");
    assert_eq!(text(markdown_inline_code(&chars("`a"))), "`` `a ``");
}

#[test]
fn quoted_lines_keep_empty_lines_bare() {
    assert_eq!(text(prefix_markdown_lines(&chars("a\n\nb\n\n"), "> ")), "> a\n>\n> b\n");
}

#[test]
fn markdown_paths_are_relative_and_normalised() {
    assert_eq!(path_to_markdown(&chars("a/./b//c.md")).ok().map(text).as_deref(), Some("a/b/c.md"));
    assert_eq!(
        path_to_markdown(&chars("/abs.md")).err().map(|e| e.message()).as_deref(),
        Some("GitBook path is not safely relative")
    );
    assert_eq!(
        relative_markdown_path(&chars("guide/a"), &chars("guide/b/c.md")).ok().map(text).as_deref(),
        Some("../b/c.md")
    );
    assert_eq!(
        relative_markdown_path(&chars(""), &chars("")).err().map(|e| e.message()).as_deref(),
        Some("GitBook path must not be empty")
    );
}

#[test]
fn include_directives_are_found_in_order() {
    let source = chars("before {{#include a.rs:2:3}} after");
    let Ok(Some(d)) = next_directive(&source, 0) else {
        panic!("a directive should be found");
    };
    assert_eq!(d.start, 7);
    assert_eq!(d.resume, 28);
    assert_eq!(text(d.argument), "a.rs:2:3");
    assert!(matches!(next_directive(&source, 28), Ok(None)));
    assert_eq!(
        next_directive(&chars("{{#title x}}"), 0).err().map(|e| e.message()).as_deref(),
        Some("unsupported mdBook directive: title")
    );
    assert_eq!(
        next_directive(&chars("{{#include a"), 0).err().map(|e| e.message()).as_deref(),
        Some("mdBook include directive is not closed")
    );
}

#[test]
fn include_candidates_try_the_whole_argument_first() {
    let Ok(c) = include_candidates(&chars("a.rs:2:3")) else {
        panic!("candidates expected");
    };
    let c: Vec<(String, Option<String>)> =
        c.into_iter().map(|(p, s)| (text(p), s.map(text))).collect();
    assert_eq!(
        c,
        vec![
            ("a.rs:2:3".to_string(), None),
            ("a.rs:2".to_string(), Some("3".to_string())),
            ("a.rs".to_string(), Some("2:3".to_string())),
        ]
    );
    assert!(include_candidates(&[]).is_err());
}

#[test]
fn include_selectors_pick_lines_and_anchors() {
    let src = chars("one\ntwo\nthree\nfour");
    let pick = |sel: &str| select_include(&src, Some(&chars(sel))).map(text).map_err(|e| e.message());
    assert_eq!(pick("2:3"), Ok("two\nthree".to_string()));
    assert_eq!(pick("3"), Ok("three".to_string()));
    assert_eq!(pick(":2"), Ok("one\ntwo".to_string()));
    assert_eq!(pick("3:"), Ok("three\nfour".to_string()));
    assert_eq!(pick("0"), Err("include line numbers are one-based".to_string()));
    assert_eq!(pick("9"), Err("include line 9 is outside the source".to_string()));
    let anchored = chars("a\n// ANCHOR: part\nb\nc\n// ANCHOR_END: part\nd");
    let Ok(selected) = select_include(&anchored, Some(&chars("part"))) else {
        panic!("the anchor should be selected");
    };
    assert_eq!(text(selected), "b\nc");
    assert_eq!(
        select_include(&anchored, Some(&chars("other"))).err().map(|e| e.message()).as_deref(),
        Some("anchor \"other\" was not found")
    );
}

#[test]
fn recursive_includes_are_refused() {
    let stack = vec![chars("/b/a.md"), chars("/b/x.rs")];
    assert!(check_include_stack(&stack, &chars("/b/y.rs")).is_ok());
    assert_eq!(
        check_include_stack(&stack, &chars("/b/a.md")).err().map(|e| e.message()).as_deref(),
        Some("recursive include detected: /b/a.md -> /b/x.rs -> /b/a.md")
    );
}

#[test]
fn expander_splices_included_text() {
    let mut ex = Expander::new("/book");
    assert!(ex.may_open("/book/src/ch.md", "chapter").is_ok());
    assert!(ex.enter("/book/src/ch.md", &chars("A {{#include x.rs}} B"), None).is_ok());
    let Ok(ExpandStep::Include { base, argument }) = ex.next() else {
        panic!("the include should be asked for");
    };
    assert_eq!(text(base), "/book/src");
    assert_eq!(text(argument), "x.rs");
    assert_eq!(
        ex.may_open("/elsewhere/x.rs", "include").err().map(|e| e.message()).as_deref(),
        Some("include is outside project root /book: /elsewhere/x.rs")
    );
    assert!(ex.may_open("/book/src/ch.md", "include").is_err());
    assert!(ex.enter("/book/src/x.rs", &chars("fn x() {}"), None).is_ok());
    let Ok(ExpandStep::Done(out)) = ex.next() else {
        panic!("expansion should finish");
    };
    assert_eq!(text(out), "A fn x() {} B");
}

#[test]
fn output_paths_are_checked() {
    assert!(check_output_path(&chars("/p/out")).is_ok());
    assert_eq!(
        check_output_path(&chars("/p/../out")).err().map(|e| e.message()).as_deref(),
        Some("renderer output directory contains an unresolved non-normal component: /p/../out")
    );
    assert_eq!(
        check_output_path(&chars("/")).err().map(|e| e.message()).as_deref(),
        Some("renderer output directory has no final component")
    );
    let protected = vec![Protected { path: "/p/book".to_string(), label: "book".to_string() }];
    assert!(check_protected(&chars("/p/out"), &protected).is_ok());
    assert_eq!(
        check_protected(&chars("/p/book/out"), &protected).err().map(|e| e.message()).as_deref(),
        Some("renderer output directory overlaps protected input book: /p/book")
    );
    assert!(check_protected(&chars("/p"), &protected).is_err());
    assert!(check_protected(&chars("/p/bookish"), &protected).is_ok());
    assert!(ensure_inside(&chars("/p"), &chars("/p/a"), "x").is_ok());
    assert_eq!(
        ensure_inside(&chars("/p"), &chars("/q"), "image").err().map(|e| e.message()).as_deref(),
        Some("image is outside project root /p: /q")
    );
}

#[test]
fn assets_are_numbered_and_reused() {
    let mut reg = AssetRegistry::new();
    let Ok(AssetPlan::New(name)) = reg.plan("/b/img/Fig.PNG") else {
        panic!("a new asset expected");
    };
    assert_eq!(name, "asset-0000.png");
    assert_eq!(reg.record("/b/img/Fig.PNG", &name), "assets/asset-0000.png");
    let Ok(AssetPlan::Existing(published)) = reg.plan("/b/img/Fig.PNG") else {
        panic!("the asset should be reused");
    };
    assert_eq!(published, "assets/asset-0000.png");
    let Ok(AssetPlan::New(second)) = reg.plan("/b/img/b.svg") else {
        panic!("a second asset expected");
    };
    assert_eq!(second, "asset-0001.svg");
    assert_eq!(reg.len(), 1);
    assert_eq!(
        reg.plan("/b/img/x.bmp").err().map(|e| e.message()).as_deref(),
        Some("unsupported local image format: bmp")
    );
    assert_eq!(
        reg.plan("/b/img/noext").err().map(|e| e.message()).as_deref(),
        Some("local image has no file extension")
    );
}

fn chapter(title: &str, source: &str, depth: usize) -> SummaryEntry {
    SummaryEntry::Chapter(SummaryChapter {
        title: title.to_string(),
        source: source.to_string(),
        depth,
        label: String::new(),
    })
}

#[test]
fn gitbook_mirror_paths_and_summary() {
    let entries = vec![
        chapter("Home", "/b/src/index.md", 0),
        SummaryEntry::Part("Guide".to_string()),
        chapter("Setup *now*", "/b/src/guide/setup.md", 1),
    ];
    let Ok(outs) = gitbook_chapter_outputs(&entries, "/b/src") else {
        panic!("the outputs should be decided");
    };
    let outs_text: Vec<(String, String)> =
        outs.iter().map(|(a, b)| (text(a.clone()), text(b.clone()))).collect();
    assert_eq!(
        outs_text,
        vec![
            ("/b/src/index.md".to_string(), "README.md".to_string()),
            ("/b/src/guide/setup.md".to_string(), "guide/setup.md".to_string()),
        ]
    );
    let Ok(summary) = render_gitbook_summary(&entries, &outs) else {
        panic!("the summary should render");
    };
    assert_eq!(
        text(summary),
        "# Summary\n\n- [Home](README.md)\n\n# Guide\n\n  - [Setup \\*now\\*](guide/setup.md)\n\n"
    );
    let outside = vec![chapter("X", "/c/x.md", 0)];
    assert_eq!(
        gitbook_chapter_outputs(&outside, "/b/src").err().map(|e| e.message()).as_deref(),
        Some("chapter is outside the book source directory: /c/x.md")
    );
}

#[test]
fn gitbook_chapters_render_as_markdown() {
    let env = GitBookEnvironment {
        output_path: "guide/a.md".to_string(),
        links: vec![Resolution { key: "intro.md".to_string(), value: Ok("intro.md".to_string()) }],
        images: vec![],
    };
    assert_eq!(
        resolve_gitbook_link(&chars("intro.md"), &env).ok().map(text).as_deref(),
        Some("../intro.md")
    );
    assert_eq!(
        resolve_gitbook_link(&chars("https://x.org"), &env).ok().map(text).as_deref(),
        Some("https://x.org")
    );
    assert_eq!(
        resolve_gitbook_link(&chars("other.md"), &env).err().map(|e| e.message()).as_deref(),
        Some("local Markdown link does not target a chapter in SUMMARY.md: other.md")
    );
    let Ok(blocks) = parse_markdown(&chars("# Title\n\nSome *text* [link](intro.md)\n")) else {
        panic!("the chapter should parse");
    };
    let Ok(md) = render_gitbook_blocks(&blocks, &env) else {
        panic!("the chapter should render");
    };
    assert_eq!(text(md), "# Title\n\nSome *text* [link](../intro.md)\n");
}

#[test]
fn harness_cli_modes_and_event_lines() {
    assert!(matches!(cli_mode(&strings(&["--doctor"])), CliMode::Doctor));
    let CliMode::Prompt(p) = cli_mode(&strings(&["hello", "world"])) else {
        panic!("a prompt expected");
    };
    assert_eq!(p, "hello world");
    let event = Event::ItemCompleted {
        thread_id: ThreadId::new(1),
        turn_id: TurnId::new(2),
        item: Item::User { id: ItemId::new(3), text: "say \"hi\"".to_string() },
    };
    assert_eq!(
        render_event(&event),
        "item/completed thread=thread-1 turn=turn-2 item=item-3 role=user text=\"say \\\"hi\\\"\""
    );
    assert_eq!(
        render_event(&Event::ThreadStarted { thread_id: ThreadId::new(7) }),
        "thread/started thread=thread-7"
    );
}

#[test]
fn doctor_reads_settings_and_versions() {
    let toolchain = "[toolchain]\nchannel = \"1.80.0\" # pinned\n";
    let manifest = "[workspace]\nresolver = \"2\"\n[workspace.package]\nedition = \"2021\"\n";
    assert_eq!(quoted_value(toolchain, "channel").ok().as_deref(), Some("1.80.0"));
    assert_eq!(
        quoted_value(toolchain, "edition").err().map(|e| e.message()).as_deref(),
        Some("missing source-controlled value: edition")
    );
    assert_eq!(
        version_from_output(true, b"rustc 1.80.0 (abc 2024-07-21)\n", "rustc").ok().as_deref(),
        Some("1.80.0")
    );
    assert_eq!(
        version_from_output(false, b"", "cargo").err().map(|e| e.message()).as_deref(),
        Some("cargo --version returned a failure status")
    );
    assert_eq!(
        version_from_output(true, &[0xff], "cargo").err().map(|e| e.message()).as_deref(),
        Some("cargo --version returned non-UTF-8 output")
    );
    assert_eq!(
        version_from_output(true, b"cargo", "cargo").err().map(|e| e.message()).as_deref(),
        Some("cargo --version returned an unexpected format")
    );
    let Ok(report) = ToolchainReport::from_sources(
        toolchain,
        manifest,
        Ok("1.80.0".to_string()),
        Ok("1.80.0".to_string()),
        true,
    ) else {
        panic!("the report should assemble");
    };
    assert!(report.is_match());
    assert_eq!(
        report.render(),
        "toolchain/status ok\nrust/pinned 1.80.0\nrustc/active 1.80.0\ncargo/active 1.80.0\nedition 2021\nresolver 2\nlockfile present\n"
    );
    let failed = ToolchainReport::from_sources(
        toolchain,
        manifest,
        Err(DoctorError::CommandFailed("rustc".to_string())),
        Ok("1.80.0".to_string()),
        true,
    );
    assert_eq!(
        failed.err().map(|e| e.message()).as_deref(),
        Some("rustc --version returned a failure status")
    );
}

#[test]
fn command_line_flags() {
    let Ok(Some(req)) = parse_render_arguments(&strings(&[
        "--book", "b", "--template", "t.typ", "--output-dir", "out",
    ])) else {
        panic!("the flags should parse");
    };
    assert_eq!(req.book_dir(), "b");
    assert_eq!(req.template_path(), "t.typ");
    assert_eq!(req.output_dir(), "out");
    assert!(matches!(parse_render_arguments(&strings(&["--help"])), Ok(None)));
    assert_eq!(
        parse_render_arguments(&strings(&["--book", "b"])).err().map(|e| e.message()).as_deref(),
        Some("missing required --template")
    );
    assert_eq!(
        parse_render_arguments(&strings(&["--bogus"])).err().map(|e| e.message()).as_deref(),
        Some("unknown argument \"--bogus\"; use --help")
    );
    assert_eq!(
        parse_render_arguments(&strings(&["--book", "--template"])).err().map(|e| e.message()).as_deref(),
        Some("--book requires a path, found \"--template\"")
    );
    assert_eq!(
        parse_render_arguments(&strings(&["--book", "a", "--book", "b"])).err().map(|e| e.message()).as_deref(),
        Some("--book may only be supplied once")
    );
    assert_eq!(
        parse_pack_arguments(&strings(&["--manifest", "m.toml", "--output-dir", "o"])).ok().flatten(),
        Some(("m.toml".to_string(), "o".to_string()))
    );
    assert_eq!(
        parse_pack_arguments(&strings(&["--output-dir"])).err().map(|e| e.message()).as_deref(),
        Some("--output-dir requires a path")
    );
}

#[test]
fn mutually_recursive_snippets_fail_closed() {
    let mut ex = Expander::new("/book");
    assert!(ex.enter("/book/src/ch.md", &chars("# One\n{{#include ../snippets/a.txt}}\n"), None).is_ok());
    assert!(matches!(ex.next(), Ok(ExpandStep::Include { .. })));
    assert!(ex.may_open("/book/snippets/a.txt", "include").is_ok());
    assert!(ex.enter("/book/snippets/a.txt", &chars("A\n{{#include b.txt}}\n"), None).is_ok());
    let Ok(ExpandStep::Include { base, argument }) = ex.next() else {
        panic!("the nested include should be asked for");
    };
    assert_eq!(text(base), "/book/snippets");
    assert_eq!(text(argument), "b.txt");
    assert!(ex.may_open("/book/snippets/b.txt", "include").is_ok());
    assert!(ex.enter("/book/snippets/b.txt", &chars("B\n{{#include a.txt}}\n"), None).is_ok());
    assert!(matches!(ex.next(), Ok(ExpandStep::Include { .. })));
    let refused = ex.may_open("/book/snippets/a.txt", "include").err().map(|e| e.message());
    assert_eq!(
        refused.as_deref(),
        Some("recursive include detected: /book/src/ch.md -> /book/snippets/a.txt -> /book/snippets/b.txt -> /book/snippets/a.txt")
    );
}

#[test]
fn non_normal_output_is_refused_by_name() {
    let refused = check_output_path(&chars("../book/src/generated")).err().map(|e| e.message());
    assert_eq!(
        refused.as_deref(),
        Some("renderer output directory contains an unresolved non-normal component: ../book/src/generated")
    );
}

#[test]
fn inline_text_runs_are_merged() {
    let Ok(v) = parse_inlines(&chars("a\\*b **x\\_y** c")) else {
        panic!("the inline text should parse");
    };
    assert_eq!(
        v,
        vec![
            Inline::Text("a*b ".to_string()),
            Inline::Strong(vec![Inline::Text("x_y".to_string())]),
            Inline::Text(" c".to_string()),
        ]
    );
    let Ok(empty) = parse_inlines(&chars("")) else {
        panic!("empty text should parse");
    };
    assert!(empty.is_empty());
}

#[test]
fn chapter_lookups_are_local_and_distinct() {
    let source = "See [a](a.md), [web](https://x.org), [mail](mailto:x@y.z), [top](#top) and [again](a.md) or [b](b.md#part).\n\n![Fig](img/f.png)\n\n![Remote](https://x.org/i.png)\n\n![Fig again](img/f.png)\n";
    let Ok(blocks) = parse_markdown(&chars(source)) else {
        panic!("the chapter should parse");
    };
    let links: Vec<String> = harness_book::assets::chapter_link_targets(&blocks)
        .into_iter()
        .map(text)
        .collect();
    assert_eq!(links, vec!["a.md", "b.md#part"]);
    let images: Vec<String> = harness_book::assets::chapter_image_paths(&blocks)
        .into_iter()
        .map(text)
        .collect();
    assert_eq!(images, vec!["img/f.png"]);
}

#[test]
fn gitbook_configuration_names_readme_and_summary() {
    assert_eq!(
        harness_book::gitbook::gitbook_config_text(),
        "root: ./\n\nstructure:\n  readme: README.md\n  summary: SUMMARY.md\n"
    );
}
