use harness_book::document::render_markdown;

#[test]
fn markdown_contract_preserves_print_structure() {
    let source = [
        "<div class=\"learning-card\">\n",
        "<p class=\"card-label\">Outcome / 本章成果</p>\n\n",
        "A **strong** term <span class=\"term-en\">Agent Harness</span>.\n\n",
        "- first\n",
        "- second\n\n",
        "```rust\n",
        "fn main() {}\n",
        "```\n",
        "</div>\n",
    ]
    .concat();
    let source = source.as_str();

    let Ok(rendered) = render_markdown(source) else {
        panic!("the Markdown fixture should render");
    };

    assert!(rendered.contains("#card("));
    assert!(rendered.contains("#card-label("));
    assert!(rendered.contains("#strong("));
    assert!(rendered.contains("#term("));
    assert!(rendered.contains("#bullet-list("));
    assert!(rendered.contains("#code-block("));
}

#[test]
fn text_is_escaped_before_it_becomes_typst_source() {
    let Ok(rendered) = render_markdown("Model text: `a` and \\ \" quote.") else {
        panic!("the escaping fixture should render");
    };

    assert!(rendered.contains("#inline-code(\"a\")"));
    assert!(rendered.contains("\\\\"));
    assert!(rendered.contains("\\\""));
}

#[test]
fn unsupported_html_fails_closed() {
    let error = match render_markdown("<script>alert('no')</script>") {
        Ok(_) => panic!("unsupported HTML must not render"),
        Err(error) => error,
    };

    assert!(error.message().contains("unsupported block HTML"));
}

#[test]
fn file_features_require_the_complete_renderer() {
    let error = match render_markdown("{{#include example.rs}}") {
        Ok(_) => panic!("fragment rendering must not access the filesystem"),
        Err(error) => error,
    };

    assert!(error.message().contains("complete book renderer"));
}

#[test]
fn headings_paragraphs_and_rules_render_exactly() {
    let rendered = render_markdown("# Title\n\nSome text.\n\n---\n").expect("renders");
    assert_eq!(
        rendered,
        "#section([#text(\"Title\")], level: 2)\n#prose([#text(\"Some text.\")])\n#thematic-break()\n"
    );
}

#[test]
fn comments_are_removed_before_parsing() {
    let rendered = render_markdown("Before<!-- hidden\nnote --> after.\n").expect("renders");
    assert!(!rendered.contains("hidden"));
}

#[test]
fn unclosed_comment_is_an_error() {
    let error = render_markdown("text <!-- never closed").expect_err("must fail");
    assert_eq!(error.message(), "HTML comment is not closed");
}

#[test]
fn ordered_lists_keep_their_start_number() {
    let rendered = render_markdown("3. three\n4. four\n").expect("renders");
    assert!(rendered.starts_with("#ordered-list(3, ("));
}

#[test]
fn tables_render_header_and_rows() {
    let rendered = render_markdown("| a | b |\n| --- | --- |\n| 1 | 2 |\n").expect("renders");
    assert!(rendered.starts_with("#book-table(2, ("));
    assert!(rendered.contains("[#strong([#text(\"a\")])],"));
}

#[test]
fn fragment_links_stay_external() {
    let rendered = render_markdown("See [docs](https://example.com/x).\n").expect("renders");
    assert!(rendered.contains("#book-link(\"https://example.com/x\", [#text(\"docs\")])"));
}

#[test]
fn fragment_images_require_the_complete_renderer() {
    let error = render_markdown("![Alt](picture.png)\n").expect_err("images need a chapter");
    assert_eq!(error.message(), "images require a chapter source path");
}

#[test]
fn remote_images_must_be_vendored() {
    let error = render_markdown("![Remote](https://example.com/diagram.png)\n").expect_err("remote");
    assert!(error.message().contains("remote image must be vendored"));
}
