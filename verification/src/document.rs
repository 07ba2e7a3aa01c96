//! Chapter-level steps of the Typst renderer: comment stripping, title
//! checks, the book language, and the rendering of a Markdown fragment.
use vstd::prelude::*;

use crate::book::RenderError;
use crate::markdown::{
    Block, BlockM, Inline, InlineM, block_model, blocks_model, inline_model, inlines_model,
    lemma_blocks_model_index, lemma_blocks_model_len, lemma_inlines_model_index,
    lemma_inlines_model_len,
};
use crate::parser::{lv, parse_doc_exec, parse_markdown_spec};
use crate::text::{
    chars_of, contains, contains_exec, copy_range, debug_quoted, debug_str, ends_with,
    ends_with_exec, eq_chars, find_from, find_from_exec, is_ascii_alpha, is_whitespace, is_ws,
    lemma_find_from, lemma_ws_run_end_bounds, lines, lines_exec, push_all, push_str, skip_ws,
    string_of, trim, trimmed, ws_run_end,
};
use crate::typst::{EnvM, RenderEnvironment, env_model, render_blocks, typst_blocks};

verus! {

/// Number of occurrences of `c` in `s`.
pub open spec fn count_char(s: Seq<char>, c: char) -> nat
    decreases s.len(),
{
    if s.len() == 0 {
        0
    } else {
        count_char(s.drop_last(), c) + if s.last() == c {
            1nat
        } else {
            0nat
        }
    }
}

/// `n` line feeds.
pub open spec fn newlines(n: nat) -> Seq<char> {
    Seq::new(n, |i: int| '\n')
}

/// The comment-free text of `s` from `cursor` on, appended to `acc`: each
/// `<!--` ... `-->` is replaced by the line feeds it contained.
pub open spec fn strip_from(s: Seq<char>, cursor: int, acc: Seq<char>) -> Result<
    Seq<char>,
    Seq<char>,
>
    decreases s.len() - cursor,
{
    if cursor < 0 || cursor > s.len() {
        Ok(acc)
    } else {
        match find_from(s, cursor, "<!--"@) {
            None => Ok(acc + s.subrange(cursor, s.len() as int)),
            Some(start) => match find_from(s, start + 4, "-->"@) {
                None => Err("HTML comment is not closed"@),
                Some(e) => if cursor <= start && start + 4 <= e && e + 3 <= s.len() {
                    strip_from(
                        s,
                        e + 3,
                        acc + s.subrange(cursor, start) + newlines(
                            count_char(s.subrange(start, e + 3), '\n'),
                        ),
                    )
                } else {
                    Ok(acc)
                },
            },
        }
    }
}

/// `s` with its HTML comments removed.
pub open spec fn strip_comments(s: Seq<char>) -> Result<Seq<char>, Seq<char>> {
    strip_from(s, 0, seq![])
}

/// Counts the line feeds of `s[a..b]`.
fn count_newlines(s: &[char], a: usize, b: usize) -> (n: usize)
    requires
        a <= b <= s@.len(),
    ensures
        n == count_char(s@.subrange(a as int, b as int), '\n'),
{
    let mut n: usize = 0;
    let mut i: usize = a;
    while i < b
        invariant
            a <= i <= b <= s@.len(),
            n == count_char(s@.subrange(a as int, i as int), '\n'),
            n <= i - a,
        decreases b - i,
    {
        proof {
            assert(s@.subrange(a as int, i + 1).drop_last() =~= s@.subrange(a as int, i as int));
        }
        if s[i] == '\n' {
            n = n + 1;
        }
        i = i + 1;
    }
    n
}

/// Removes HTML comments, keeping the line feeds they spanned so that line
/// numbers stay the same.
pub fn strip_html_comments(s: &[char]) -> (r: Result<Vec<char>, RenderError>)
    ensures
        match r {
            Ok(v) => strip_comments(s@) == Ok::<Seq<char>, Seq<char>>(v@),
            Err(e) => strip_comments(s@) == Err::<Seq<char>, Seq<char>>(e@),
        },
{
    let open = chars_of("<!--");
    let close = chars_of("-->");
    let mut out: Vec<char> = Vec::new();
    let mut cursor: usize = 0;
    let _n = s.len();
    proof {
        reveal_strlit("<!--");
        reveal_strlit("-->");
    }
    loop
        invariant
            cursor <= s@.len(),
            open@ == "<!--"@,
            close@ == "-->"@,
            open@.len() == 4,
            close@.len() == 3,
            strip_comments(s@) == strip_from(s@, cursor as int, out@),
        decreases s@.len() - cursor,
    {
        let _n = s.len();
        match find_from_exec(s, cursor, open.as_slice()) {
            None => {
                let ghost before = out@;
                let rest = copy_range(s, cursor, s.len());
                push_all(&mut out, rest.as_slice());
                proof {
                    assert(s@.subrange(cursor as int, s@.len() as int) =~= s@.skip(cursor as int));
                }
                return Ok(out);
            },
            Some(start) => {
                proof {
                    lemma_find_from(s@, cursor as int, open@);
                }
                let from = start + 4;
                match find_from_exec(s, from, close.as_slice()) {
                    None => {
                        return Err(RenderError::new("HTML comment is not closed"));
                    },
                    Some(e) => {
                        proof {
                            lemma_find_from(s@, from as int, close@);
                        }
                        let end = e + 3;
                        let before_comment = copy_range(s, cursor, start);
                        push_all(&mut out, before_comment.as_slice());
                        let k = count_newlines(s, start, end);
                        let mut j: usize = 0;
                        let ghost base = out@;
                        while j < k
                            invariant
                                j <= k,
                                out@ == base + newlines(j as nat),
                            decreases k - j,
                        {
                            out.push('\n');
                            j = j + 1;
                            proof {
                                assert(out@ =~= base + newlines(j as nat));
                            }
                        }
                        proof {
                            assert(s@.subrange(cursor as int, start as int) =~= s@.subrange(
                                cursor as int,
                                start as int,
                            ));
                        }
                        cursor = end;
                    },
                }
            },
        }
    }
}

/// The plain text of inline content: markup dropped, breaks as spaces.
pub open spec fn plain_inlines(c: Seq<InlineM>) -> Seq<char>
    decreases c,
{
    if c.len() == 0 {
        seq![]
    } else {
        plain_inlines(c.drop_last()) + plain_inline(c.last())
    }
}

pub open spec fn plain_inline(x: InlineM) -> Seq<char>
    decreases x,
{
    match x {
        InlineM::Text(v) => v,
        InlineM::Code(v) => v,
        InlineM::Strong(c) => plain_inlines(c),
        InlineM::Emphasis(c) => plain_inlines(c),
        InlineM::Strike(c) => plain_inlines(c),
        InlineM::Term(c) => plain_inlines(c),
        InlineM::Link { target, content } => plain_inlines(content),
        InlineM::Break => seq![' '],
    }
}

/// The plain text of inline content.
pub fn inline_plain_text(content: &[Inline]) -> (r: Vec<char>)
    ensures
        r@ == plain_inlines(inlines_model(content@)),
    decreases content@,
{
    let ghost m = inlines_model(content@);
    let mut out: Vec<char> = Vec::new();
    let mut i: usize = 0;
    proof {
        lemma_inlines_model_len(content@);
        assert(m.take(0) =~= Seq::<InlineM>::empty());
    }
    while i < content.len()
        invariant
            i <= content@.len(),
            m == inlines_model(content@),
            m.len() == content@.len(),
            plain_inlines(m.take(i as int)) == out@,
        decreases content@.len() - i,
    {
        proof {
            lemma_inlines_model_index(content@, i as int);
            assert(m.take(i + 1).drop_last() =~= m.take(i as int));
        }
        let piece: Vec<char> = match &content[i] {
            Inline::Text(v) => chars_of(v.as_str()),
            Inline::Code(v) => chars_of(v.as_str()),
            Inline::Strong(c) => inline_plain_text(c.as_slice()),
            Inline::Emphasis(c) => inline_plain_text(c.as_slice()),
            Inline::Strike(c) => inline_plain_text(c.as_slice()),
            Inline::Term(c) => inline_plain_text(c.as_slice()),
            Inline::Link { target, content } => inline_plain_text(content.as_slice()),
            Inline::Break => {
                let mut v: Vec<char> = Vec::new();
                v.push(' ');
                v
            },
        };
        proof {
            assert(m.take(i + 1).last() == m[i as int]);
            assert(piece@ == plain_inline(m[i as int]));
        }
        push_all(&mut out, piece.as_slice());
        i = i + 1;
    }
    proof {
        assert(m.take(content@.len() as int) =~= m);
    }
    out
}

/// Each whitespace run of `t` from `i` on replaced by one space.
pub open spec fn collapse_at(t: Seq<char>, i: int) -> Seq<char>
    decreases t.len() - i,
{
    if i < 0 || i >= t.len() {
        seq![]
    } else if !is_ws(t[i]) {
        seq![t[i]] + collapse_at(t, i + 1)
    } else {
        proof {
            lemma_ws_run_end_bounds(t, i);
        }
        if ws_run_end(t, i) > i {
            seq![' '] + collapse_at(t, ws_run_end(t, i))
        } else {
            seq![]
        }
    }
}

/// A title with its words separated by single spaces (`split_whitespace`
/// joined by `" "`).
pub open spec fn normalize(s: Seq<char>) -> Seq<char> {
    collapse_at(trim(s), 0)
}

/// Normalizes the whitespace of a title.
pub fn normalize_title(s: &[char]) -> (r: Vec<char>)
    ensures
        r@ == normalize(s@),
{
    let t = trimmed(s);
    let mut out: Vec<char> = Vec::new();
    let mut i: usize = 0;
    while i < t.len()
        invariant
            i <= t@.len(),
            collapse_at(t@, 0) == out@ + collapse_at(t@, i as int),
        decreases t@.len() - i,
    {
        if !is_whitespace(t[i]) {
            let ghost before = out@;
            out.push(t[i]);
            proof {
                assert(out@ + collapse_at(t@, i + 1) =~= before + collapse_at(t@, i as int));
            }
            i = i + 1;
        } else {
            let j = skip_ws(t.as_slice(), i);
            proof {
                lemma_ws_run_end_bounds(t@, i as int);
            }
            let ghost before = out@;
            out.push(' ');
            proof {
                assert(out@ + collapse_at(t@, j as int) =~= before + collapse_at(t@, i as int));
            }
            i = j;
        }
    }
    proof {
        assert(out@ + collapse_at(t@, i as int) =~= out@);
    }
    out
}

proof fn lemma_count_concat(a: Seq<char>, b: Seq<char>, c: char)
    ensures
        count_char(a + b, c) == count_char(a, c) + count_char(b, c),
    decreases b.len(),
{
    if b.len() > 0 {
        assert((a + b).drop_last() =~= a + b.drop_last());
        lemma_count_concat(a, b.drop_last(), c);
    } else {
        assert(a + b =~= a);
    }
}

proof fn lemma_count_newlines(n: nat)
    ensures
        count_char(newlines(n), '\n') == n,
    decreases n,
{
    if n > 0 {
        assert(newlines(n).drop_last() =~= newlines((n - 1) as nat));
        lemma_count_newlines((n - 1) as nat);
    }
}

proof fn lemma_strip_from_count(s: Seq<char>, cursor: int, acc: Seq<char>)
    requires
        0 <= cursor <= s.len(),
        strip_from(s, cursor, acc) is Ok,
    ensures
        count_char(strip_from(s, cursor, acc)->Ok_0, '\n') == count_char(acc, '\n') + count_char(
            s.subrange(cursor, s.len() as int),
            '\n',
        ),
    decreases s.len() - cursor,
{
    match find_from(s, cursor, "<!--"@) {
        None => {
            lemma_count_concat(acc, s.subrange(cursor, s.len() as int), '\n');
        },
        Some(start) => match find_from(s, start + 4, "-->"@) {
            None => {},
            Some(e) => if cursor <= start && start + 4 <= e && e + 3 <= s.len() {
                let mid = s.subrange(start, e + 3);
                let k = count_char(mid, '\n');
                let acc2 = acc + s.subrange(cursor, start) + newlines(k);
                lemma_strip_from_count(s, e + 3, acc2);
                lemma_count_concat(acc + s.subrange(cursor, start), newlines(k), '\n');
                lemma_count_concat(acc, s.subrange(cursor, start), '\n');
                lemma_count_newlines(k);
                let rest = s.subrange(e + 3, s.len() as int);
                assert(s.subrange(cursor, s.len() as int) =~= s.subrange(cursor, start) + mid
                    + rest);
                lemma_count_concat(s.subrange(cursor, start) + mid, rest, '\n');
                lemma_count_concat(s.subrange(cursor, start), mid, '\n');
            } else {
                reveal_strlit("<!--");
                reveal_strlit("-->");
                lemma_find_from(s, cursor, "<!--"@);
                lemma_find_from(s, start + 4, "-->"@);
            },
        },
    }
}

/// Removing comments keeps every line feed: the text has as many lines
/// afterwards as before, so line numbers in later errors stay true.
pub proof fn law_strip_comments_keeps_line_feeds(s: Seq<char>)
    requires
        strip_comments(s) is Ok,
    ensures
        count_char(strip_comments(s)->Ok_0, '\n') == count_char(s, '\n'),
{
    lemma_strip_from_count(s, 0, seq![]);
    assert(s.subrange(0, s.len() as int) =~= s);
    assert(count_char(seq![], '\n') == 0);
}

/// A paragraph whose plain text is only whitespace.
pub open spec fn blank_paragraph(b: BlockM) -> bool {
    b matches BlockM::Paragraph(c) && trim(plain_inlines(c)).len() == 0
}

/// Index of the first block from `i` on that is not a blank paragraph.
pub open spec fn first_content(bs: Seq<BlockM>, i: int) -> Option<int>
    decreases bs.len() - i,
{
    if i < 0 || i >= bs.len() {
        None
    } else if !blank_paragraph(bs[i]) {
        Some(i)
    } else {
        first_content(bs, i + 1)
    }
}

pub open spec fn h1_error(display: Seq<char>) -> Seq<char> {
    "chapter must start with an H1 matching SUMMARY.md: "@ + display
}

/// Where the chapter's title heading stands, or why the chapter is refused:
/// the first content must be an H1 whose words match the SUMMARY.md title,
/// unless the chapter is an `index.md`.
pub open spec fn title_position(bs: Seq<BlockM>, title: Seq<char>, is_index: bool, display: Seq<char>) -> Result<
    int,
    Seq<char>,
> {
    match first_content(bs, 0) {
        None => Err("chapter is empty: "@ + display),
        Some(k) => match bs[k] {
            BlockM::Heading { level, content } => if level != 1 {
                Err(h1_error(display))
            } else if normalize(plain_inlines(content)) != normalize(title) && !is_index {
                Err(
                    "chapter H1 differs from SUMMARY.md for "@ + display + ": "@ + debug_quoted(
                        normalize(plain_inlines(content)),
                    ) + " != "@ + debug_quoted(normalize(title)),
                )
            } else {
                Ok(k)
            },
            _ => Err(h1_error(display)),
        },
    }
}

proof fn lemma_blocks_model_remove(v: Seq<Block>, k: int)
    requires
        0 <= k < v.len(),
    ensures
        blocks_model(v.remove(k)) == blocks_model(v).remove(k),
{
    lemma_blocks_model_len(v);
    lemma_blocks_model_len(v.remove(k));
    assert forall|i: int| 0 <= i < v.len() - 1 implies blocks_model(v.remove(k))[i] == blocks_model(
        v,
    ).remove(k)[i] by {
        lemma_blocks_model_index(v.remove(k), i);
        if i < k {
            lemma_blocks_model_index(v, i);
        } else {
            lemma_blocks_model_index(v, i + 1);
        }
    }
    assert(blocks_model(v.remove(k)) =~= blocks_model(v).remove(k));
}

/// Whether a chapter's path names an `index.md`.
pub open spec fn is_index_path(path: Seq<char>) -> bool {
    path == "index.md"@ || ends_with(path, "/index.md"@)
}

pub fn is_index_file(path: &[char]) -> (b: bool)
    ensures
        b == is_index_path(path@),
{
    let a = chars_of("index.md");
    let b = chars_of("/index.md");
    eq_chars(path, a.as_slice()) || ends_with_exec(path, b.as_slice())
}

fn is_blank_block(b: &Block) -> (r: bool)
    ensures
        r == blank_paragraph(block_model(*b)),
{
    match b {
        Block::Paragraph(c) => {
            let p = inline_plain_text(c.as_slice());
            let t = trimmed(p.as_slice());
            t.len() == 0
        },
        _ => false,
    }
}

/// Removes the chapter's title heading, which the chapter line already shows.
pub fn remove_matching_title(blocks: &mut Vec<Block>, title: &[char], is_index: bool, display: &[char]) -> (r:
    Result<(), RenderError>)
    ensures
        match r {
            Ok(()) => title_position(blocks_model(old(blocks)@), title@, is_index, display@) is Ok
                && blocks_model(final(blocks)@) == blocks_model(old(blocks)@).remove(
                title_position(blocks_model(old(blocks)@), title@, is_index, display@)->Ok_0,
            ),
            Err(e) => title_position(blocks_model(old(blocks)@), title@, is_index, display@)
                == Err::<int, Seq<char>>(e@) && final(blocks)@ == old(blocks)@,
        },
{
    let ghost m = blocks_model(blocks@);
    proof {
        lemma_blocks_model_len(blocks@);
    }
    let mut i: usize = 0;
    while i < blocks.len() && is_blank_block(&blocks[i])
        invariant
            i <= blocks@.len(),
            m == blocks_model(blocks@),
            m.len() == blocks@.len(),
            first_content(m, 0) == first_content(m, i as int),
        decreases blocks@.len() - i,
    {
        proof {
            lemma_blocks_model_index(blocks@, i as int);
        }
        i = i + 1;
    }
    proof {
        if i < blocks@.len() {
            lemma_blocks_model_index(blocks@, i as int);
        }
    }
    if i == blocks.len() {
        return Err(RenderError::with_detail("chapter is empty: ", display));
    }
    proof {
        lemma_blocks_model_index(blocks@, i as int);
    }
    let ok = match &blocks[i] {
        Block::Heading { level, content } => {
            if *level != 1 {
                Err(RenderError::with_detail(
                    "chapter must start with an H1 matching SUMMARY.md: ",
                    display,
                ))
            } else {
                let p = inline_plain_text(content.as_slice());
                let actual = normalize_title(p.as_slice());
                let expected = normalize_title(title);
                if !eq_chars(actual.as_slice(), expected.as_slice()) && !is_index {
                    let mut msg: Vec<char> = Vec::new();
                    push_str(&mut msg, "chapter H1 differs from SUMMARY.md for ");
                    push_all(&mut msg, display);
                    push_str(&mut msg, ": ");
                    let da = debug_str(actual.as_slice());
                    push_all(&mut msg, da.as_slice());
                    push_str(&mut msg, " != ");
                    let de = debug_str(expected.as_slice());
                    push_all(&mut msg, de.as_slice());
                    Err(RenderError::from_chars(msg.as_slice()))
                } else {
                    Ok(())
                }
            }
        },
        _ => Err(RenderError::with_detail(
            "chapter must start with an H1 matching SUMMARY.md: ",
            display,
        )),
    };
    match ok {
        Err(e) => Err(e),
        Ok(()) => {
            proof {
                lemma_blocks_model_remove(blocks@, i as int);
            }
            blocks.remove(i);
            Ok(())
        },
    }
}

/// Two or three ASCII letters (or exactly `n` when `lo == hi`).
pub open spec fn ascii_letters(s: Seq<char>, lo: nat, hi: nat) -> bool {
    lo <= s.len() <= hi && forall|i: int| 0 <= i < s.len() ==> is_ascii_alpha(#[trigger] s[i])
}

/// The book's language split into its ISO language code and optional region.
pub open spec fn language_parts(v: Seq<char>) -> Result<(Seq<char>, Option<Seq<char>>), Seq<char>> {
    let lang_err = "book language must start with a two- or three-letter ISO code: "@
        + debug_quoted(v);
    match find_from(v, 0, "-"@) {
        None => if ascii_letters(v, 2, 3) {
            Ok((v, None))
        } else {
            Err(lang_err)
        },
        Some(d) => if !ascii_letters(v.subrange(0, d), 2, 3) {
            Err(lang_err)
        } else {
            let rest = v.subrange(d + 1, v.len() as int);
            match find_from(rest, 0, "-"@) {
                Some(_) => Err(
                    "book language may contain at most one region suffix: "@ + debug_quoted(v),
                ),
                None => if ascii_letters(rest, 2, 2) {
                    Ok((v.subrange(0, d), Some(rest)))
                } else {
                    Err("book region must be a two-letter ISO code: "@ + debug_quoted(rest))
                },
            }
        },
    }
}

fn all_ascii_letters(s: &[char], lo: usize, hi: usize) -> (b: bool)
    ensures
        b == ascii_letters(s@, lo as nat, hi as nat),
{
    if s.len() < lo || s.len() > hi {
        return false;
    }
    let mut i: usize = 0;
    while i < s.len()
        invariant
            i <= s@.len(),
            forall|k: int| 0 <= k < i ==> is_ascii_alpha(#[trigger] s@[k]),
        decreases s@.len() - i,
    {
        let c = s[i];
        if !(('a' <= c && c <= 'z') || ('A' <= c && c <= 'Z')) {
            return false;
        }
        i = i + 1;
    }
    true
}

/// Splits `language-REGION` (see [`language_parts`]).
pub fn split_language_region(v: &[char]) -> (r: Result<(Vec<char>, Option<Vec<char>>), RenderError>)
    ensures
        match r {
            Ok((l, Some(g))) => language_parts(v@) == Ok::<
                (Seq<char>, Option<Seq<char>>),
                Seq<char>,
            >((l@, Some(g@))),
            Ok((l, None)) => language_parts(v@) == Ok::<
                (Seq<char>, Option<Seq<char>>),
                Seq<char>,
            >((l@, None)),
            Err(e) => language_parts(v@) == Err::<(Seq<char>, Option<Seq<char>>), Seq<char>>(
                e@,
            ),
        },
{
    proof {
        reveal_strlit("-");
    }
    let dash = chars_of("-");
    let _n = v.len();
    let lang_error = |v: &[char]| -> (e: RenderError)
        ensures
            e@ == "book language must start with a two- or three-letter ISO code: "@
                + debug_quoted(v@),
        {
            let q = debug_str(v);
            RenderError::with_detail(
                "book language must start with a two- or three-letter ISO code: ",
                q.as_slice(),
            )
        };
    match find_from_exec(v, 0, dash.as_slice()) {
        None => {
            if all_ascii_letters(v, 2, 3) {
                let whole = copy_range(v, 0, v.len());
                proof {
                    assert(whole@ =~= v@);
                }
                Ok((whole, None))
            } else {
                Err(lang_error(v))
            }
        },
        Some(d) => {
            proof {
                lemma_find_from(v@, 0, "-"@);
            }
            let lang = copy_range(v, 0, d);
            if !all_ascii_letters(lang.as_slice(), 2, 3) {
                return Err(lang_error(v));
            }
            let rest = copy_range(v, d + 1, v.len());
            match find_from_exec(rest.as_slice(), 0, dash.as_slice()) {
                Some(_) => {
                    let q = debug_str(v);
                    Err(RenderError::with_detail(
                        "book language may contain at most one region suffix: ",
                        q.as_slice(),
                    ))
                },
                None => {
                    if all_ascii_letters(rest.as_slice(), 2, 2) {
                        proof {
                            assert(find_from(v@, 0, "-"@) == Some(d as int));
                            assert(rest@ == v@.subrange(d + 1, v@.len() as int));
                            assert(find_from(rest@, 0, "-"@) is None);
                            assert(ascii_letters(rest@, 2, 2));
                            assert(ascii_letters(v@.subrange(0, d as int), 2, 3));
                        }
                        Ok((lang, Some(rest)))
                    } else {
                        let q = debug_str(rest.as_slice());
                        Err(RenderError::with_detail(
                            "book region must be a two-letter ISO code: ",
                            q.as_slice(),
                        ))
                    }
                },
            }
        },
    }
}

/// The environment of a Markdown fragment: no chapter, no files.
pub open spec fn fragment_env() -> EnvM {
    EnvM {
        in_chapter: false,
        has_project_root: false,
        has_assets: false,
        current_label: Err("current chapter is missing from SUMMARY.md"@),
        links: seq![],
        images: seq![],
    }
}

/// What [`render_markdown`] makes of a fragment: directives are refused,
/// comments stripped, the rest parsed and rendered without a chapter.
pub open spec fn render_markdown_spec(md: Seq<char>) -> Result<Seq<char>, Seq<char>> {
    if contains(md, "{{#"@) {
        Err("mdBook directives require the complete book renderer"@)
    } else {
        match strip_comments(md) {
            Err(e) => Err(e),
            Ok(t) => match parse_markdown_spec(t) {
                Err(e) => Err(e),
                Ok(bs) => typst_blocks(bs, fragment_env()),
            },
        }
    }
}

/// Parses Markdown text into blocks.
pub fn parse_markdown(text: &[char]) -> (r: Result<Vec<Block>, RenderError>)
    ensures
        match r {
            Ok(v) => parse_markdown_spec(text@) == Ok::<Seq<BlockM>, Seq<char>>(blocks_model(v@)),
            Err(e) => parse_markdown_spec(text@) == Err::<Seq<BlockM>, Seq<char>>(e@),
        },
{
    let ls = lines_exec(text);
    proof {
        assert(lv(ls@) =~= lines(text@));
    }
    parse_doc_exec(&ls)
}

/// Converts one Markdown fragment into Typst source.
pub fn render_markdown(markdown: &str) -> (r: Result<String, RenderError>)
    ensures
        match r {
            Ok(v) => render_markdown_spec(markdown@) == Ok::<Seq<char>, Seq<char>>(v@),
            Err(e) => render_markdown_spec(markdown@) == Err::<Seq<char>, Seq<char>>(e@),
        },
{
    let md = chars_of(markdown);
    let directive = chars_of("{{#");
    if contains_exec(md.as_slice(), directive.as_slice()) {
        return Err(RenderError::new("mdBook directives require the complete book renderer"));
    }
    let cleaned = match strip_html_comments(md.as_slice()) {
        Err(e) => {
            return Err(e);
        },
        Ok(c) => c,
    };
    let blocks = match parse_markdown(cleaned.as_slice()) {
        Err(e) => {
            return Err(e);
        },
        Ok(b) => b,
    };
    let env = RenderEnvironment {
        in_chapter: false,
        has_project_root: false,
        has_assets: false,
        current_label: Err(RenderError::new("current chapter is missing from SUMMARY.md")),
        links: Vec::new(),
        images: Vec::new(),
    };
    proof {
        assert(env_model(env).links =~= fragment_env().links);
        assert(env_model(env).images =~= fragment_env().images);
    }
    match render_blocks(blocks.as_slice(), &env) {
        Err(e) => Err(e),
        Ok(v) => Ok(string_of(v.as_slice())),
    }
}

/// The blocks of a chapter's expanded source, its title heading removed.
pub open spec fn chapter_blocks_spec(src: Seq<char>, title: Seq<char>, is_index: bool, display: Seq<char>) -> Result<
    Seq<BlockM>,
    Seq<char>,
> {
    match strip_comments(src) {
        Err(e) => Err(e),
        Ok(t) => match parse_markdown_spec(t) {
            Err(e) => Err(e),
            Ok(bs) => match title_position(bs, title, is_index, display) {
                Err(e) => Err(e),
                Ok(k) => Ok(bs.remove(k)),
            },
        },
    }
}

/// Parses a chapter (see [`chapter_blocks_spec`]).
pub fn chapter_blocks(src: &[char], title: &[char], is_index: bool, display: &[char]) -> (r: Result<
    Vec<Block>,
    RenderError,
>)
    ensures
        match r {
            Ok(v) => chapter_blocks_spec(src@, title@, is_index, display@) == Ok::<
                Seq<BlockM>,
                Seq<char>,
            >(blocks_model(v@)),
            Err(e) => chapter_blocks_spec(src@, title@, is_index, display@) == Err::<
                Seq<BlockM>,
                Seq<char>,
            >(e@),
        },
{
    let cleaned = match strip_html_comments(src) {
        Err(e) => {
            return Err(e);
        },
        Ok(c) => c,
    };
    let mut blocks = match parse_markdown(cleaned.as_slice()) {
        Err(e) => {
            return Err(e);
        },
        Ok(b) => b,
    };
    match remove_matching_title(&mut blocks, title, is_index, display) {
        Err(e) => Err(e),
        Ok(()) => Ok(blocks),
    }
}

/// Checks that a chapter starts with its title heading, without removing it
/// (see [`title_position`]).
pub fn check_matching_title(blocks: &Vec<Block>, title: &[char], is_index: bool, display: &[char]) -> (r:
    Result<(), RenderError>)
    ensures
        match r {
            Ok(()) => title_position(blocks_model(blocks@), title@, is_index, display@) is Ok,
            Err(e) => title_position(blocks_model(blocks@), title@, is_index, display@) == Err::<
                int,
                Seq<char>,
            >(e@),
        },
{
    let ghost m = blocks_model(blocks@);
    proof {
        lemma_blocks_model_len(blocks@);
    }
    let mut i: usize = 0;
    while i < blocks.len() && is_blank_block(&blocks[i])
        invariant
            i <= blocks@.len(),
            m == blocks_model(blocks@),
            m.len() == blocks@.len(),
            first_content(m, 0) == first_content(m, i as int),
        decreases blocks@.len() - i,
    {
        proof {
            lemma_blocks_model_index(blocks@, i as int);
        }
        i = i + 1;
    }
    proof {
        if i < blocks@.len() {
            lemma_blocks_model_index(blocks@, i as int);
        }
    }
    if i == blocks.len() {
        return Err(RenderError::with_detail("chapter is empty: ", display));
    }
    match &blocks[i] {
        Block::Heading { level, content } => {
            if *level != 1 {
                return Err(RenderError::with_detail(
                    "chapter must start with an H1 matching SUMMARY.md: ",
                    display,
                ));
            }
            let p = inline_plain_text(content.as_slice());
            let actual = normalize_title(p.as_slice());
            let expected = normalize_title(title);
            if !eq_chars(actual.as_slice(), expected.as_slice()) && !is_index {
                let mut msg: Vec<char> = Vec::new();
                push_str(&mut msg, "chapter H1 differs from SUMMARY.md for ");
                push_all(&mut msg, display);
                push_str(&mut msg, ": ");
                let da = debug_str(actual.as_slice());
                push_all(&mut msg, da.as_slice());
                push_str(&mut msg, " != ");
                let de = debug_str(expected.as_slice());
                push_all(&mut msg, de.as_slice());
                return Err(RenderError::from_chars(msg.as_slice()));
            }
            Ok(())
        },
        _ => Err(RenderError::with_detail(
            "chapter must start with an H1 matching SUMMARY.md: ",
            display,
        )),
    }
}

} // verus!
