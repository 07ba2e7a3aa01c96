//! The block-level Markdown parser.
//!
//! The parser walks the lines of a document. Its specification is written
//! over the lines (`Seq<Seq<char>>`) and the index of the current line; every
//! step either fails with a message or consumes at least one line, and the
//! contents of a block quote are parsed as a document of their own.
use vstd::prelude::*;

use crate::blocks::{
    fence_end, fence_start, heading, leading_spaces_spec, list_marker, rule, standalone_image,
    table_cells, table_delimiter,
};
use crate::inline::{looks_like_html_at, parse_inlines_spec};
use crate::blocks::{
    back_count, is_fence_end, is_rule, is_table_delimiter, leading_spaces, parse_fence_start,
    parse_heading, parse_list_marker, parse_standalone_image, split_table_cells, cells_view,
};
use crate::book::RenderError;
use crate::inline::parse_inlines;
use crate::markdown::{
    Block, BlockM, Inline, InlineM, ListItem, ListKind, block_model, blocks_model, cells_model,
    inlines_model, items_model, lemma_blocks_model_push, lemma_cells_model_push,
    lemma_items_model_push, lemma_rows_model_push, rows_model,
};
use crate::text::{
    chars_of, contains, contains_exec, copy_all, copy_range, eq_chars, find_from, find_from_exec,
    join, join_exec, lemma_find_from, lines, lines_exec, lines_from, matches_at, push_all, push_str,
    run_count, skip_ws, starts_with, starts_with_exec, string_of, strip_cr, trim, trim_start, trimmed,
    ws_run_end,
};

verus! {

/// The characters of the lines from `i` on, each counted with one line break.
pub open spec fn weight(ls: Seq<Seq<char>>, i: int) -> nat
    decreases ls.len() - i,
{
    if i < 0 || i >= ls.len() {
        0
    } else {
        ls[i].len() + 1 + weight(ls, i + 1)
    }
}

pub proof fn lemma_weight_mono(ls: Seq<Seq<char>>, i: int, j: int)
    requires
        0 <= i < j,
        i < ls.len(),
    ensures
        weight(ls, j) < weight(ls, i),
    decreases j - i,
{
    if j > i + 1 && i + 1 < ls.len() {
        lemma_weight_mono(ls, i + 1, j);
    }
}

pub open spec fn card_open() -> Seq<char> {
    "<div class=\"learning-card\">"@
}

pub open spec fn card_close() -> Seq<char> {
    "</div>"@
}

pub open spec fn label_open() -> Seq<char> {
    "<p class=\"card-label\">"@
}

pub open spec fn label_close() -> Seq<char> {
    "</p>"@
}

pub open spec fn block_html_error(t: Seq<char>) -> Seq<char> {
    "unsupported block HTML: "@ + t
}

pub open spec fn no_progress() -> Seq<char> {
    "Markdown parser did not advance"@
}

/// The whole document: all blocks, and every line consumed.
pub open spec fn parse_doc(ls: Seq<Seq<char>>) -> Result<Seq<BlockM>, Seq<char>>
    decreases weight(ls, 0), 9int,
{
    match blocks_at(ls, 0, false, seq![]) {
        Err(e) => Err(e),
        Ok((b, j)) => if j != ls.len() {
            Err("Markdown parser did not consume all input"@)
        } else {
            Ok(b)
        },
    }
}

/// The blocks of a document given as text.
pub open spec fn parse_markdown_spec(text: Seq<char>) -> Result<Seq<BlockM>, Seq<char>> {
    parse_doc(lines(text))
}

/// Goes on after a block that ended before line `j`.
pub open spec fn blocks_then(
    ls: Seq<Seq<char>>,
    i: int,
    j: int,
    stop: bool,
    acc: Seq<BlockM>,
    b: BlockM,
) -> Result<(Seq<BlockM>, int), Seq<char>>
    decreases weight(ls, i), 0int,
{
    if j > i && 0 <= i < ls.len() {
        proof {
            lemma_weight_mono(ls, i, j);
        }
        blocks_at(ls, j, stop, acc.push(b))
    } else {
        Err(no_progress())
    }
}

/// The blocks from line `i` on; with `stop`, up to the `</div>` that closes
/// a learning card.
pub open spec fn blocks_at(ls: Seq<Seq<char>>, i: int, stop: bool, acc: Seq<BlockM>) -> Result<
    (Seq<BlockM>, int),
    Seq<char>,
>
    decreases weight(ls, i), 8int,
{
    if i < 0 || i >= ls.len() {
        if stop {
            Err("learning-card div is not closed"@)
        } else {
            Ok((acc, i))
        }
    } else {
        let line = ls[i];
        let t = trim(line);
        if t.len() == 0 {
            proof {
                lemma_weight_mono(ls, i, i + 1);
            }
            blocks_at(ls, i + 1, stop, acc)
        } else if t == card_close() {
            if stop {
                Ok((acc, i + 1))
            } else {
                Err("unexpected closing learning-card div"@)
            }
        } else if t == card_open() {
            proof {
                lemma_weight_mono(ls, i, i + 1);
            }
            match blocks_at(ls, i + 1, true, seq![]) {
                Err(e) => Err(e),
                Ok((c, j)) => blocks_then(ls, i, j, stop, acc, BlockM::Card(c)),
            }
        } else if starts_with(t, "<div"@) || starts_with(t, "</div"@) {
            Err(block_html_error(t))
        } else if starts_with(t, label_open()) {
            match card_label_at(ls, i) {
                Err(e) => Err(e),
                Ok((b, j)) => blocks_then(ls, i, j, stop, acc, b),
            }
        } else if heading(t) is Some {
            let (level, title) = heading(t)->0;
            match parse_inlines_spec(title) {
                Err(e) => Err(e),
                Ok(c) => blocks_then(
                    ls,
                    i,
                    i + 1,
                    stop,
                    acc,
                    BlockM::Heading { level, content: c },
                ),
            }
        } else if fence_start(t) is Some {
            let (marker, info) = fence_start(t)->0;
            match code_block_at(ls, i, marker, info) {
                Err(e) => Err(e),
                Ok((b, j)) => blocks_then(ls, i, j, stop, acc, b),
            }
        } else if rule(t) {
            blocks_then(ls, i, i + 1, stop, acc, BlockM::Rule)
        } else if starts_with(t, ">"@) {
            match quote_at(ls, i) {
                Err(e) => Err(e),
                Ok((b, j)) => blocks_then(ls, i, j, stop, acc, b),
            }
        } else {
            match list_marker(line) {
                Err(e) => Err(e),
                Ok(Some(m)) => match list_block(ls, i, m.indent, m.kind) {
                    Err(e) => Err(e),
                    Ok((b, j)) => blocks_then(ls, i, j, stop, acc, b),
                },
                Ok(None) => if table_start(ls, i) {
                    match table_at(ls, i) {
                        Err(e) => Err(e),
                        Ok((b, j)) => blocks_then(ls, i, j, stop, acc, b),
                    }
                } else {
                    match standalone_image(t) {
                        Err(e) => Err(e),
                        Ok(Some(img)) => blocks_then(ls, i, i + 1, stop, acc, img),
                        Ok(None) => if starts_with(t, "<"@) && looks_like_html_at(t, 0) {
                            Err(block_html_error(t))
                        } else {
                            match paragraph_at(ls, i) {
                                Err(e) => Err(e),
                                Ok((b, j)) => blocks_then(ls, i, j, stop, acc, b),
                            }
                        },
                    }
                },
            }
        }
    }
}

/// Joins the lines of a card label until one holds `</p>`; returns the text
/// and the index of the line after it.
pub open spec fn label_gather(ls: Seq<Seq<char>>, k: int, value: Seq<char>) -> Result<
    (Seq<char>, int),
    Seq<char>,
>
    decreases ls.len() - k,
{
    if contains(value, label_close()) {
        Ok((value, k))
    } else if k < 0 || k >= ls.len() {
        Err("card-label paragraph is not closed"@)
    } else {
        label_gather(ls, k + 1, value + " "@ + trim(ls[k]))
    }
}

/// `<p class="card-label">…</p>`, possibly over several lines.
pub open spec fn card_label_at(ls: Seq<Seq<char>>, i: int) -> Result<(BlockM, int), Seq<char>>
    decreases weight(ls, i), 1int,
{
    if i < 0 || i >= ls.len() {
        Err("card-label paragraph is not closed"@)
    } else {
        match label_gather(ls, i + 1, trim(ls[i])) {
            Err(e) => Err(e),
            Ok((value, k)) => if !starts_with(value, label_open()) {
                Err("malformed card-label paragraph"@)
            } else {
                match find_from(value, 0, label_close()) {
                    None => Err("card-label paragraph is not closed"@),
                    Some(end) => if !(label_open().len() <= end && end + label_close().len()
                        <= value.len()) {
                        Err("card-label paragraph is not closed"@)
                    } else if trim(
                        value.subrange(end + label_close().len(), value.len() as int),
                    ).len() != 0 {
                        Err("content after closing card-label paragraph is unsupported"@)
                    } else {
                        match parse_inlines_spec(
                            value.subrange(label_open().len() as int, end),
                        ) {
                            Err(e) => Err(e),
                            Ok(c) => Ok((BlockM::CardLabel(c), k)),
                        }
                    }
                }
            },
        }
    }
}

/// Index of the line that closes a fence opened with `marker`, from `k` on.
pub open spec fn fence_close(ls: Seq<Seq<char>>, k: int, marker: Seq<char>) -> Option<int>
    decreases ls.len() - k,
{
    if k < 0 || k >= ls.len() {
        None
    } else if fence_end(trim(ls[k]), marker) {
        Some(k)
    } else {
        fence_close(ls, k + 1, marker)
    }
}

/// The part of `s` before its first comma.
pub open spec fn before_comma(s: Seq<char>) -> Seq<char> {
    match find_from(s, 0, ","@) {
        Some(k) => s.subrange(0, k),
        None => s,
    }
}

/// `s` with every leading and trailing `c` removed.
pub open spec fn trim_char(s: Seq<char>, c: char) -> Seq<char> {
    crate::blocks::trim_end_char(crate::blocks::trim_start_char(s, c), c)
}

/// The language named by a fence's info text.
pub open spec fn fence_language(info: Seq<char>) -> Seq<char> {
    trim_char(trim_char(trim(before_comma(info)), '{'), '}')
}

/// A fenced code block opened at line `i`.
pub open spec fn code_block_at(ls: Seq<Seq<char>>, i: int, marker: Seq<char>, info: Seq<char>) -> Result<
    (BlockM, int),
    Seq<char>,
> {
    match fence_close(ls, i + 1, marker) {
        None => Err("fenced code block is not closed"@),
        Some(k) => if !(0 <= i && i + 1 <= k) {
            Err("fenced code block is not closed"@)
        } else {
            Ok(
                (
                    BlockM::Code {
                        language: fence_language(info),
                        source: join(ls.subrange(i + 1, k), "\n"@),
                    },
                    k + 1,
                ),
            )
        },
    }
}

/// A quoted line without its `>` and one following space.
pub open spec fn quote_rest(line: Seq<char>) -> Seq<char> {
    let t = trim_start(line);
    let r = t.subrange(1, t.len() as int);
    if r.len() > 0 && r[0] == ' ' {
        r.subrange(1, r.len() as int)
    } else {
        r
    }
}

/// Index of the first line from `k` on that does not start with `>`.
pub open spec fn quote_end(ls: Seq<Seq<char>>, k: int) -> int
    decreases ls.len() - k,
{
    if 0 <= k < ls.len() && starts_with(trim_start(ls[k]), ">"@) {
        quote_end(ls, k + 1)
    } else {
        k
    }
}

/// The quoted lines from `i` to `k`, without their markers.
pub open spec fn quote_lines(ls: Seq<Seq<char>>, i: int, k: int) -> Seq<Seq<char>> {
    Seq::new((k - i) as nat, |j: int| quote_rest(ls[i + j]))
}

/// A block quote starting at line `i`: its lines, stripped of `>`, parsed as a document.
pub open spec fn quote_at(ls: Seq<Seq<char>>, i: int) -> Result<(BlockM, int), Seq<char>>
    decreases weight(ls, i), 1int,
{
    let k = quote_end(ls, i);
    if !(0 <= i < k && k <= ls.len()) {
        Err(no_progress())
    } else {
        proof {
            lemma_quote_weight(ls, i, k);
        }
        match parse_doc(lines(join(quote_lines(ls, i, k), "\n"@))) {
            Err(e) => Err(e),
            Ok(b) => Ok((BlockM::Quote(b), k)),
        }
    }
}

/// A bullet or ordered list at line `i` whose items sit at `base` indentation.
pub open spec fn list_block(ls: Seq<Seq<char>>, i: int, base: nat, kind: ListKind) -> Result<
    (BlockM, int),
    Seq<char>,
>
    decreases weight(ls, i), 6int,
{
    match list_items(ls, i, base, kind, seq![], 1, true) {
        Err(e) => Err(e),
        Ok((items, start, j)) => Ok(
            (
                match kind {
                    ListKind::Bullet => BlockM::BulletList(items),
                    ListKind::Ordered => BlockM::OrderedList { start, items },
                },
                j,
            ),
        ),
    }
}

/// The items of a list from line `i` on: each a marker line at `base` with
/// the same kind, then its continuation lines.
pub open spec fn list_items(
    ls: Seq<Seq<char>>,
    i: int,
    base: nat,
    kind: ListKind,
    items: Seq<Seq<BlockM>>,
    start: nat,
    first: bool,
) -> Result<(Seq<Seq<BlockM>>, nat, int), Seq<char>>
    decreases weight(ls, i), 5int,
{
    if i < 0 || i >= ls.len() {
        Ok((items, start, i))
    } else {
        match list_marker(ls[i]) {
            Err(e) => Err(e),
            Ok(None) => Ok((items, start, i)),
            Ok(Some(m)) => if m.indent != base || m.kind != kind {
                Ok((items, start, i))
            } else {
                let start2 = if first {
                    m.start
                } else {
                    start
                };
                let head = trim(m.content);
                let first_blocks = if head.len() > 0 {
                    match parse_inlines_spec(head) {
                        Err(e) => Err(e),
                        Ok(c) => Ok(seq![BlockM::Paragraph(c)]),
                    }
                } else {
                    Ok(seq![])
                };
                match first_blocks {
                    Err(e) => Err(e),
                    Ok(fb) => {
                        proof {
                            lemma_weight_mono(ls, i, i + 1);
                        }
                        match item_body(ls, i + 1, base, fb) {
                            Err(e) => Err(e),
                            Ok((blocks, j)) => {
                                let item = if blocks.len() == 0 {
                                    seq![BlockM::Paragraph(seq![])]
                                } else {
                                    blocks
                                };
                                if j > i {
                                    proof {
                                        lemma_weight_mono(ls, i, j);
                                    }
                                    list_items(ls, j, base, kind, items.push(item), start2, false)
                                } else {
                                    Err(no_progress())
                                }
                            },
                        }
                    },
                }
            },
        }
    }
}

/// The continuation of a list item from line `k` on: blank lines, nested
/// lists and indented paragraphs.
pub open spec fn item_body(ls: Seq<Seq<char>>, k: int, base: nat, blocks: Seq<BlockM>) -> Result<
    (Seq<BlockM>, int),
    Seq<char>,
>
    decreases weight(ls, k), 7int,
{
    if k < 0 || k >= ls.len() {
        Ok((blocks, k))
    } else {
        let next = ls[k];
        proof {
            lemma_weight_mono(ls, k, k + 1);
        }
        if trim(next).len() == 0 {
            item_body(ls, k + 1, base, blocks)
        } else {
            match list_marker(next) {
                Err(e) => Err(e),
                Ok(Some(n)) => if n.indent > base {
                    match list_block(ls, k, n.indent, n.kind) {
                        Err(e) => Err(e),
                        Ok((b, j)) => if j > k {
                            proof {
                                lemma_weight_mono(ls, k, j);
                            }
                            item_body(ls, j, base, blocks.push(b))
                        } else {
                            Err(no_progress())
                        },
                    }
                } else {
                    Ok((blocks, k))
                },
                Ok(None) => match leading_spaces_spec(next) {
                    Err(e) => Err(e),
                    Ok(indent) => if indent > base {
                        match parse_inlines_spec(trim(next)) {
                            Err(e) => Err(e),
                            Ok(c) => item_body(ls, k + 1, base, blocks.push(BlockM::Paragraph(c))),
                        }
                    } else {
                        Ok((blocks, k))
                    },
                },
            }
        }
    }
}

/// A table starts at line `i`: a row with a bar, then a delimiter row.
pub open spec fn table_start(ls: Seq<Seq<char>>, i: int) -> bool {
    0 <= i && i + 1 < ls.len() && contains(ls[i], "|"@) && table_delimiter(trim(ls[i + 1]))
}

/// Each cell parsed as inline Markdown, the first failure winning.
pub open spec fn parse_cells(cells: Seq<Seq<char>>) -> Result<Seq<Seq<InlineM>>, Seq<char>>
    decreases cells.len(),
{
    if cells.len() == 0 {
        Ok(seq![])
    } else {
        match parse_cells(cells.drop_last()) {
            Err(e) => Err(e),
            Ok(v) => match parse_inlines_spec(trim(cells.last())) {
                Err(e) => Err(e),
                Ok(c) => Ok(v.push(c)),
            },
        }
    }
}

pub open spec fn column_count_error() -> Seq<char> {
    "table row has a different column count from its header"@
}

/// The body rows of a table from line `k` on, each with `n` cells.
pub open spec fn table_rows(ls: Seq<Seq<char>>, k: int, n: nat, rows: Seq<Seq<Seq<InlineM>>>) -> Result<
    (Seq<Seq<Seq<InlineM>>>, int),
    Seq<char>,
>
    decreases ls.len() - k,
{
    if k < 0 || k >= ls.len() || trim(ls[k]).len() == 0 || !contains(ls[k], "|"@) {
        Ok((rows, k))
    } else {
        match table_cells(ls[k]) {
            Err(e) => Err(e),
            Ok(cells) => if cells.len() != n {
                Err(column_count_error())
            } else {
                match parse_cells(cells) {
                    Err(e) => Err(e),
                    Ok(row) => table_rows(ls, k + 1, n, rows.push(row)),
                }
            },
        }
    }
}

/// A table at line `i`.
pub open spec fn table_at(ls: Seq<Seq<char>>, i: int) -> Result<(BlockM, int), Seq<char>> {
    if !(0 <= i && i + 1 < ls.len()) {
        Err(no_progress())
    } else {
        match table_cells(ls[i]) {
            Err(e) => Err(e),
            Ok(header_cells) => match table_cells(ls[i + 1]) {
                Err(e) => Err(e),
                Ok(delimiter_cells) => if header_cells.len() == 0 || header_cells.len()
                    != delimiter_cells.len() {
                    Err("table header and delimiter row must have the same columns"@)
                } else {
                    match parse_cells(header_cells) {
                        Err(e) => Err(e),
                        Ok(header) => match table_rows(ls, i + 2, header.len(), seq![]) {
                            Err(e) => Err(e),
                            Ok((rows, k)) => Ok((BlockM::Table { header, rows }, k)),
                        },
                    }
                },
            },
        }
    }
}

/// Line `k` begins a block other than a paragraph continuation.
pub open spec fn block_start(ls: Seq<Seq<char>>, k: int) -> Result<bool, Seq<char>> {
    if k < 0 || k >= ls.len() {
        Ok(false)
    } else {
        let line = ls[k];
        let t = trim(line);
        if t.len() == 0 || t == card_open() || t == card_close() || starts_with(t, label_open())
            || heading(t) is Some || fence_start(t) is Some || rule(t) || starts_with(t, ">"@) {
            Ok(true)
        } else {
            match standalone_image(t) {
                Err(e) => Err(e),
                Ok(Some(_)) => Ok(true),
                Ok(None) => if table_start(ls, k) {
                    Ok(true)
                } else {
                    match list_marker(line) {
                        Err(e) => Err(e),
                        Ok(m) => Ok(m is Some),
                    }
                },
            }
        }
    }
}

/// The text of a paragraph gathered from line `k` on.
pub open spec fn para_gather(ls: Seq<Seq<char>>, k: int, value: Seq<char>) -> Result<
    (Seq<char>, int),
    Seq<char>,
>
    decreases ls.len() - k,
{
    if k < 0 || k >= ls.len() || trim(ls[k]).len() == 0 {
        Ok((value, k))
    } else {
        let t = trim(ls[k]);
        let start = if value.len() > 0 {
            block_start(ls, k)
        } else {
            Ok(false)
        };
        match start {
            Err(e) => Err(e),
            Ok(true) => Ok((value, k)),
            Ok(false) => {
                let joined = if value.len() == 0 {
                    value
                } else if value.len() >= 2 && value.subrange(value.len() - 2, value.len() as int)
                    == "  "@ {
                    value.subrange(0, value.len() - 2) + "<br>"@
                } else {
                    value.push(' ')
                };
                para_gather(ls, k + 1, joined + t)
            },
        }
    }
}

/// A paragraph starting at line `i`.
pub open spec fn paragraph_at(ls: Seq<Seq<char>>, i: int) -> Result<(BlockM, int), Seq<char>> {
    match para_gather(ls, i, seq![]) {
        Err(e) => Err(e),
        Ok((value, k)) => match parse_inlines_spec(value) {
            Err(e) => Err(e),
            Ok(c) => Ok((BlockM::Paragraph(c), k)),
        },
    }
}

// ---------------------------------------------------------------------------
// Weights of re-split quote text.
/// `lines(x)` weighs at most `x.len() + 1`.
pub proof fn lemma_lines_weight(x: Seq<char>, pos: int)
    requires
        0 <= pos,
    ensures
        weight(lines_from(x, pos), 0) <= if pos <= x.len() {
            x.len() - pos + 1
        } else {
            1
        },
    decreases x.len() - pos,
{
    if pos >= x.len() {
        assert(lines_from(x, pos) =~= Seq::<Seq<char>>::empty());
    } else {
        match find_from(x, pos, seq!['\n']) {
            Some(k) => {
                if pos <= k && k < x.len() {
                    lemma_lines_weight(x, k + 1);
                    let l = strip_cr(x.subrange(pos, k));
                    let rest = lines_from(x, k + 1);
                    let all = seq![l] + rest;
                    assert(all =~= lines_from(x, pos));
                    lemma_weight_cons(l, rest);
                } else {
                    assert(lines_from(x, pos) =~= Seq::<Seq<char>>::empty());
                }
            },
            None => {
                let all = seq![x.subrange(pos, x.len() as int)];
                assert(all =~= lines_from(x, pos));
                lemma_weight_cons(x.subrange(pos, x.len() as int), Seq::<Seq<char>>::empty());
            },
        }
    }
}

pub proof fn lemma_weight_cons(l: Seq<char>, rest: Seq<Seq<char>>)
    ensures
        weight(seq![l] + rest, 0) == l.len() + 1 + weight(rest, 0),
{
    let all = seq![l] + rest;
    assert(rest =~= all.subrange(1, all.len() as int));
    lemma_weight_shift(all, rest, 1);
}

/// `weight(a, k + d) == weight(b, k)` when `b` is `a` without its first `d` lines.
proof fn lemma_weight_shift(a: Seq<Seq<char>>, b: Seq<Seq<char>>, d: int)
    requires
        0 <= d <= a.len(),
        b == a.subrange(d, a.len() as int),
    ensures
        weight(a, d) == weight(b, 0),
{
    lemma_weight_shift_at(a, b, d, 0);
}

proof fn lemma_weight_shift_at(a: Seq<Seq<char>>, b: Seq<Seq<char>>, d: int, k: int)
    requires
        0 <= d <= a.len(),
        0 <= k,
        b == a.subrange(d, a.len() as int),
    ensures
        weight(a, d + k) == weight(b, k),
    decreases b.len() - k,
{
    if k < b.len() {
        lemma_weight_shift_at(a, b, d, k + 1);
    }
}

/// Joining lines with line feeds gives the weight less one.
pub proof fn lemma_join_len(q: Seq<Seq<char>>)
    requires
        q.len() >= 1,
    ensures
        join(q, "\n"@).len() + 1 == weight(q, 0),
    decreases q.len(),
{
    reveal_strlit("\n");
    if q.len() == 1 {
        assert(weight(q, 1) == 0);
    } else {
        lemma_join_len(q.drop_last());
        lemma_weight_snoc(q.drop_last(), q.last());
        assert(q.drop_last().push(q.last()) =~= q);
    }
}

proof fn lemma_weight_snoc(q: Seq<Seq<char>>, l: Seq<char>)
    ensures
        weight(q.push(l), 0) == weight(q, 0) + l.len() + 1,
    decreases q.len(),
{
    if q.len() == 0 {
        assert(weight(q.push(l), 1) == 0);
    } else {
        let t = q.subrange(1, q.len() as int);
        lemma_weight_snoc(t, l);
        lemma_weight_shift(q, t, 1);
        assert(q.push(l).subrange(1, q.len() + 1 as int) =~= t.push(l));
        lemma_weight_shift(q.push(l), t.push(l), 1);
    }
}

/// Quoted lines, each shorter than its source line, weigh less.
proof fn lemma_quote_lines_weight(ls: Seq<Seq<char>>, i: int, k: int, m: int)
    requires
        0 <= i <= m <= k <= ls.len(),
        forall|j: int| i <= j < k ==> starts_with(trim_start(#[trigger] ls[j]), ">"@),
    ensures
        weight(quote_lines(ls, i, k), m - i) + (k - m) <= weight(ls, m),
    decreases k - m,
{
    reveal_strlit(">");
    if m < k {
        lemma_quote_lines_weight(ls, i, k, m + 1);
        let t = trim_start(ls[m]);
        crate::text::lemma_ws_run_end_bounds(ls[m], 0);
        assert(quote_lines(ls, i, k)[m - i] == quote_rest(ls[m]));
        assert(quote_rest(ls[m]).len() < ls[m].len());
    } else {
        assert(weight(quote_lines(ls, i, k), m - i) == 0);
    }
}

proof fn lemma_quote_end(ls: Seq<Seq<char>>, k: int)
    requires
        0 <= k <= ls.len(),
    ensures
        k <= quote_end(ls, k) <= ls.len(),
        forall|j: int| k <= j < quote_end(ls, k) ==> starts_with(trim_start(#[trigger] ls[j]), ">"@),
    decreases ls.len() - k,
{
    if k < ls.len() && starts_with(trim_start(ls[k]), ">"@) {
        lemma_quote_end(ls, k + 1);
    }
}

/// The document inside a quote weighs less than the quoted lines.
pub proof fn lemma_quote_weight(ls: Seq<Seq<char>>, i: int, k: int)
    requires
        0 <= i < k,
        k == quote_end(ls, i),
        k <= ls.len(),
    ensures
        weight(lines(join(quote_lines(ls, i, k), "\n"@)), 0) < weight(ls, i),
{
    lemma_quote_end(ls, i);
    let q = quote_lines(ls, i, k);
    lemma_quote_lines_weight(ls, i, k, i);
    lemma_join_len(q);
    lemma_lines_weight(join(q, "\n"@), 0);
}

} // verus!

verus! {

/// The lines of a parser, as the specification sees them.
pub open spec fn lv(ls: Seq<Vec<char>>) -> Seq<Seq<char>> {
    Seq::new(ls.len(), |k: int| ls[k]@)
}

pub open spec fn blocks_res(r: Result<(Vec<Block>, usize), RenderError>) -> Result<
    (Seq<BlockM>, int),
    Seq<char>,
> {
    match r {
        Ok((v, j)) => Ok((blocks_model(v@), j as int)),
        Err(e) => Err(e@),
    }
}

pub open spec fn block_res(r: Result<(Block, usize), RenderError>) -> Result<
    (BlockM, int),
    Seq<char>,
> {
    match r {
        Ok((b, j)) => Ok((block_model(b), j as int)),
        Err(e) => Err(e@),
    }
}

/// One step of the block loop.
pub enum Step {
    Skip,
    Close,
    Parsed(Block, usize),
}

pub open spec fn step_then(
    r: Result<Step, RenderError>,
    ls: Seq<Seq<char>>,
    i: int,
    stop: bool,
    acc: Seq<BlockM>,
) -> Result<(Seq<BlockM>, int), Seq<char>> {
    match r {
        Err(e) => Err(e@),
        Ok(Step::Skip) => blocks_at(ls, i + 1, stop, acc),
        Ok(Step::Close) => Ok((acc, i + 1)),
        Ok(Step::Parsed(b, j)) => blocks_then(ls, i, j as int, stop, acc, block_model(b)),
    }
}

/// Parses a whole document given as lines.
pub fn parse_doc_exec(ls: &Vec<Vec<char>>) -> (r: Result<Vec<Block>, RenderError>)
    ensures
        match r {
            Ok(v) => parse_doc(lv(ls@)) == Ok::<Seq<BlockM>, Seq<char>>(blocks_model(v@)),
            Err(e) => parse_doc(lv(ls@)) == Err::<Seq<BlockM>, Seq<char>>(e@),
        },
    decreases weight(lv(ls@), 0), 9int,
{
    match blocks_at_exec(ls, 0, false) {
        Err(e) => Err(e),
        Ok((b, j)) => {
            if j != ls.len() {
                Err(RenderError::new("Markdown parser did not consume all input"))
            } else {
                Ok(b)
            }
        },
    }
}

/// The blocks from line `i` on (see [`blocks_at`]).
pub fn blocks_at_exec(ls: &Vec<Vec<char>>, i: usize, stop: bool) -> (r: Result<
    (Vec<Block>, usize),
    RenderError,
>)
    requires
        i <= ls@.len(),
    ensures
        blocks_res(r) == blocks_at(lv(ls@), i as int, stop, seq![]),
        r matches Ok((_, j)) ==> j <= ls@.len(),
    decreases weight(lv(ls@), i as int), 8int,
{
    let ghost l = lv(ls@);
    let mut acc: Vec<Block> = Vec::new();
    let mut cur = i;
    proof {
        assert(blocks_model(acc@) =~= Seq::<BlockM>::empty());
    }
    loop
        invariant
            i <= cur <= ls@.len(),
            l == lv(ls@),
            weight(l, cur as int) <= weight(l, i as int),
            blocks_at(l, cur as int, stop, blocks_model(acc@)) == blocks_at(
                l,
                i as int,
                stop,
                seq![],
            ),
        decreases ls@.len() - cur,
    {
        if cur >= ls.len() {
            if stop {
                return Err(RenderError::new("learning-card div is not closed"));
            } else {
                return Ok((acc, cur));
            }
        }
        let step = next_block(ls, cur, stop);
        proof {
            assert(blocks_at(l, cur as int, stop, blocks_model(acc@)) == step_then(
                step,
                l,
                cur as int,
                stop,
                blocks_model(acc@),
            ));
        }
        match step {
            Err(e) => {
                return Err(e);
            },
            Ok(Step::Skip) => {
                proof {
                    lemma_weight_mono(l, cur as int, cur + 1);
                }
                cur = cur + 1;
            },
            Ok(Step::Close) => {
                return Ok((acc, cur + 1));
            },
            Ok(Step::Parsed(b, j)) => {
                if !(j > cur) {
                    return Err(RenderError::new("Markdown parser did not advance"));
                }
                proof {
                    lemma_weight_mono(l, cur as int, j as int);
                    lemma_blocks_model_push(acc@, b);
                }
                acc.push(b);
                cur = j;
            },
        }
    }
}

} // verus!

verus! {

/// `trim_char(s, c)`.
pub fn trim_char_exec(s: &[char], c: char) -> (v: Vec<char>)
    ensures
        v@ == trim_char(s@, c),
{
    let a = run_count(s, 0, c);
    let u = copy_range(s, a, s.len());
    let z = back_count(u.as_slice(), c);
    copy_range(u.as_slice(), 0, u.len() - z)
}

fn fence_language_exec(info: &[char]) -> (v: Vec<char>)
    ensures
        v@ == fence_language(info@),
{
    proof {
        reveal_strlit(",");
    }
    let comma = chars_of(",");
    let head = match find_from_exec(info, 0, comma.as_slice()) {
        Some(k) => {
            proof {
                lemma_find_from(info@, 0, ","@);
            }
            copy_range(info, 0, k)
        },
        None => copy_all(info),
    };
    let t = trimmed(head.as_slice());
    let a = trim_char_exec(t.as_slice(), '{');
    trim_char_exec(a.as_slice(), '}')
}

fn card_label_exec(ls: &Vec<Vec<char>>, i: usize) -> (r: Result<(Block, usize), RenderError>)
    requires
        i < ls@.len(),
    ensures
        block_res(r) == card_label_at(lv(ls@), i as int),
        r matches Ok((_, j)) ==> j <= ls@.len(),
{
    proof {
        reveal_strlit("<p class=\"card-label\">");
        reveal_strlit("</p>");
        reveal_strlit(" ");
    }
    let ghost l = lv(ls@);
    let _n = ls.len();
    let close = chars_of("</p>");
    let open = chars_of("<p class=\"card-label\">");
    let mut value = trimmed(ls[i].as_slice());
    let mut k = i + 1;
    proof {
        assert(l[i as int] == ls@[i as int]@);
    }
    while !contains_exec(value.as_slice(), close.as_slice())
        invariant
            i + 1 <= k <= ls@.len(),
            l == lv(ls@),
            close@ == label_close(),
            label_gather(l, k as int, value@) == label_gather(l, i + 1, trim(l[i as int])),
        decreases ls@.len() - k,
    {
        if k >= ls.len() {
            return Err(RenderError::new("card-label paragraph is not closed"));
        }
        let ghost old_value = value@;
        let next = trimmed(ls[k].as_slice());
        push_str(&mut value, " ");
        push_all(&mut value, next.as_slice());
        proof {
            assert(l[k as int] == ls@[k as int]@);
            assert(value@ == old_value + " "@ + trim(l[k as int]));
        }
        k = k + 1;
    }
    if !starts_with_exec(value.as_slice(), open.as_slice()) {
        return Err(RenderError::new("malformed card-label paragraph"));
    }
    let end = match find_from_exec(value.as_slice(), 0, close.as_slice()) {
        None => {
            return Err(RenderError::new("card-label paragraph is not closed"));
        },
        Some(e) => e,
    };
    proof {
        lemma_find_from(value@, 0, label_close());
    }
    if !(open.len() <= end) {
        return Err(RenderError::new("card-label paragraph is not closed"));
    }
    let vlen = value.len();
    let after = copy_range(value.as_slice(), end + close.len(), vlen);
    if trimmed(after.as_slice()).len() != 0 {
        return Err(
            RenderError::new("content after closing card-label paragraph is unsupported"),
        );
    }
    let inner = copy_range(value.as_slice(), open.len(), end);
    match parse_inlines(inner.as_slice()) {
        Err(e) => Err(e),
        Ok(c) => Ok((Block::CardLabel(c), k)),
    }
}

} // verus!

verus! {

fn code_block_exec(ls: &Vec<Vec<char>>, i: usize, marker: &[char], info: &[char]) -> (r: Result<
    (Block, usize),
    RenderError,
>)
    requires
        i < ls@.len(),
    ensures
        block_res(r) == code_block_at(lv(ls@), i as int, marker@, info@),
        r matches Ok((_, j)) ==> j <= ls@.len(),
{
    let ghost l = lv(ls@);
    let _n = ls.len();
    let mut k = i + 1;
    let mut parts: Vec<Vec<char>> = Vec::new();
    loop
        invariant
            i + 1 <= k <= ls@.len(),
            l == lv(ls@),
            fence_close(l, k as int, marker@) == fence_close(l, i + 1, marker@),
            parts@.len() == k - (i + 1),
            forall|j: int| 0 <= j < parts@.len() ==> #[trigger] parts@[j]@ == l[i + 1 + j],
        ensures
            i + 1 <= k < ls@.len(),
            fence_close(l, i + 1, marker@) == Some(k as int),
            parts@.len() == k - (i + 1),
            forall|j: int| 0 <= j < parts@.len() ==> #[trigger] parts@[j]@ == l[i + 1 + j],
        decreases ls@.len() - k,
    {
        if k >= ls.len() {
            return Err(RenderError::new("fenced code block is not closed"));
        }
        let t = trimmed(ls[k].as_slice());
        proof {
            assert(l[k as int] == ls@[k as int]@);
        }
        if is_fence_end(t.as_slice(), marker) {
            break ;
        }
        let line = copy_all(ls[k].as_slice());
        parts.push(line);
        k = k + 1;
    }
    proof {
        assert(parts@.map_values(|p: Vec<char>| p@) =~= l.subrange(i + 1, k as int));
    }
    let nl = chars_of("\n");
    let source = join_exec(&parts, nl.as_slice());
    let language = fence_language_exec(info);
    Ok(
        (
            Block::Code {
                language: string_of(language.as_slice()),
                source: string_of(source.as_slice()),
            },
            k + 1,
        ),
    )
}

fn quote_exec(ls: &Vec<Vec<char>>, i: usize) -> (r: Result<(Block, usize), RenderError>)
    requires
        i < ls@.len(),
        starts_with(trim_start(lv(ls@)[i as int]), ">"@),
    ensures
        block_res(r) == quote_at(lv(ls@), i as int),
        r matches Ok((_, j)) ==> j <= ls@.len(),
    decreases weight(lv(ls@), i as int), 1int,
{
    proof {
        reveal_strlit(">");
    }
    let ghost l = lv(ls@);
    let gt = chars_of(">");
    let mut k = i;
    let mut q: Vec<Vec<char>> = Vec::new();
    loop
        invariant
            i <= k <= ls@.len(),
            l == lv(ls@),
            gt@ == ">"@,
            quote_end(l, k as int) == quote_end(l, i as int),
            q@.len() == k - i,
            forall|j: int| 0 <= j < q@.len() ==> #[trigger] q@[j]@ == quote_rest(l[i + j]),
        ensures
            i <= k <= ls@.len(),
            quote_end(l, i as int) == k,
            q@.len() == k - i,
            forall|j: int| 0 <= j < q@.len() ==> #[trigger] q@[j]@ == quote_rest(l[i + j]),
        decreases ls@.len() - k,
    {
        proof {
            reveal_strlit(">");
        }
        if k >= ls.len() {
            break ;
        }
        let line = ls[k].as_slice();
        proof {
            assert(l[k as int] == line@);
        }
        let a = skip_ws(line, 0);
        let t = copy_range(line, a, line.len());
        if !starts_with_exec(t.as_slice(), gt.as_slice()) {
            break ;
        }
        let mut rest = copy_range(t.as_slice(), 1, t.len());
        if rest.len() > 0 && rest[0] == ' ' {
            rest = copy_range(rest.as_slice(), 1, rest.len());
        }
        q.push(rest);
        k = k + 1;
    }
    let ghost qv = quote_lines(l, i as int, k as int);
    proof {
        assert(q@.map_values(|p: Vec<char>| p@) =~= qv);
        assert(quote_end(l, i as int) == quote_end(l, i + 1));
        lemma_quote_end(l, i + 1);
        lemma_quote_weight(l, i as int, k as int);
    }
    let nl = chars_of("\n");
    let joined = join_exec(&q, nl.as_slice());
    let nested_lines = lines_exec(joined.as_slice());
    proof {
        assert(lv(nested_lines@) =~= lines(join(qv, "\n"@)));
    }
    match parse_doc_exec(&nested_lines) {
        Err(e) => Err(e),
        Ok(b) => Ok((Block::Quote(b), k)),
    }
}

pub open spec fn items_res(r: Result<(Vec<ListItem>, u64, usize), RenderError>) -> Result<
    (Seq<Seq<BlockM>>, nat, int),
    Seq<char>,
> {
    match r {
        Ok((v, s, j)) => Ok((items_model(v@), s as nat, j as int)),
        Err(e) => Err(e@),
    }
}

fn list_block_exec(ls: &Vec<Vec<char>>, i: usize, base: usize, kind: ListKind) -> (r: Result<
    (Block, usize),
    RenderError,
>)
    requires
        i <= ls@.len(),
    ensures
        block_res(r) == list_block(lv(ls@), i as int, base as nat, kind),
        r matches Ok((_, j)) ==> j <= ls@.len(),
    decreases weight(lv(ls@), i as int), 6int,
{
    match list_items_exec(ls, i, base, kind) {
        Err(e) => Err(e),
        Ok((items, start, j)) => {
            let b = match kind {
                ListKind::Bullet => Block::BulletList(items),
                ListKind::Ordered => Block::OrderedList { start, items },
            };
            Ok((b, j))
        },
    }
}

fn list_items_exec(ls: &Vec<Vec<char>>, i: usize, base: usize, kind: ListKind) -> (r: Result<
    (Vec<ListItem>, u64, usize),
    RenderError,
>)
    requires
        i <= ls@.len(),
    ensures
        items_res(r) == list_items(lv(ls@), i as int, base as nat, kind, seq![], 1, true),
        r matches Ok((_, _, j)) ==> j <= ls@.len(),
    decreases weight(lv(ls@), i as int), 5int,
{
    let ghost l = lv(ls@);
    let mut items: Vec<ListItem> = Vec::new();
    let mut start: u64 = 1;
    let mut first = true;
    let mut cur = i;
    proof {
        assert(items_model(items@) =~= Seq::<Seq<BlockM>>::empty());
    }
    loop
        invariant
            i <= cur <= ls@.len(),
            l == lv(ls@),
            weight(l, cur as int) <= weight(l, i as int),
            list_items(l, cur as int, base as nat, kind, items_model(items@), start as nat, first)
                == list_items(l, i as int, base as nat, kind, seq![], 1, true),
        decreases ls@.len() - cur,
    {
        if cur >= ls.len() {
            return Ok((items, start, cur));
        }
        proof {
            assert(l[cur as int] == ls@[cur as int]@);
        }
        let marker = match parse_list_marker(ls[cur].as_slice()) {
            Err(e) => {
                return Err(e);
            },
            Ok(None) => {
                return Ok((items, start, cur));
            },
            Ok(Some(m)) => m,
        };
        if marker.indent != base || marker.kind != kind {
            return Ok((items, start, cur));
        }
        let start2 = if first {
            marker.start
        } else {
            start
        };
        let head = trimmed(marker.content.as_slice());
        let mut fb: Vec<Block> = Vec::new();
        proof {
            assert(blocks_model(fb@) =~= Seq::<BlockM>::empty());
        }
        if head.len() > 0 {
            match parse_inlines(head.as_slice()) {
                Err(e) => {
                    return Err(e);
                },
                Ok(c) => {
                    let p = Block::Paragraph(c);
                    proof {
                        lemma_blocks_model_push(fb@, p);
                    }
                    fb.push(p);
                },
            }
        }
        proof {
            lemma_weight_mono(l, cur as int, cur + 1);
        }
        let (mut blocks, j) = match item_body_exec(ls, cur + 1, base, fb) {
            Err(e) => {
                return Err(e);
            },
            Ok(x) => x,
        };
        if blocks.len() == 0 {
            let p = Block::Paragraph(Vec::new());
            proof {
                lemma_blocks_model_push(blocks@, p);
                assert(inlines_model(Seq::<Inline>::empty()) =~= Seq::<InlineM>::empty());
                assert(blocks_model(blocks@.push(p)) =~= seq![BlockM::Paragraph(seq![])]);
            }
            blocks.push(p);
        }
        if !(j > cur) {
            return Err(RenderError::new("Markdown parser did not advance"));
        }
        let item = ListItem { blocks };
        proof {
            lemma_weight_mono(l, cur as int, j as int);
            lemma_items_model_push(items@, item);
        }
        items.push(item);
        start = start2;
        first = false;
        cur = j;
    }
}

fn item_body_exec(ls: &Vec<Vec<char>>, k: usize, base: usize, initial: Vec<Block>) -> (r: Result<
    (Vec<Block>, usize),
    RenderError,
>)
    requires
        k <= ls@.len(),
    ensures
        blocks_res(r) == item_body(lv(ls@), k as int, base as nat, blocks_model(initial@)),
        r matches Ok((_, j)) ==> k <= j <= ls@.len(),
    decreases weight(lv(ls@), k as int), 7int,
{
    let ghost l = lv(ls@);
    let ghost b0 = blocks_model(initial@);
    let mut blocks = initial;
    let mut cur = k;
    loop
        invariant
            k <= cur <= ls@.len(),
            l == lv(ls@),
            weight(l, cur as int) <= weight(l, k as int),
            b0 == blocks_model(initial@),
            item_body(l, cur as int, base as nat, blocks_model(blocks@)) == item_body(
                l,
                k as int,
                base as nat,
                b0,
            ),
        decreases ls@.len() - cur,
    {
        if cur >= ls.len() {
            return Ok((blocks, cur));
        }
        let next = ls[cur].as_slice();
        proof {
            assert(l[cur as int] == next@);
            lemma_weight_mono(l, cur as int, cur + 1);
        }
        if trimmed(next).len() == 0 {
            cur = cur + 1;
            continue ;
        }
        match parse_list_marker(next) {
            Err(e) => {
                return Err(e);
            },
            Ok(Some(n)) => {
                if n.indent > base {
                    match list_block_exec(ls, cur, n.indent, n.kind) {
                        Err(e) => {
                            return Err(e);
                        },
                        Ok((b, j)) => {
                            if !(j > cur) {
                                return Err(RenderError::new("Markdown parser did not advance"));
                            }
                            proof {
                                lemma_weight_mono(l, cur as int, j as int);
                                lemma_blocks_model_push(blocks@, b);
                            }
                            blocks.push(b);
                            cur = j;
                        },
                    }
                } else {
                    return Ok((blocks, cur));
                }
            },
            Ok(None) => {
                match leading_spaces(next) {
                    Err(e) => {
                        return Err(e);
                    },
                    Ok(indent) => {
                        if indent > base {
                            let t = trimmed(next);
                            match parse_inlines(t.as_slice()) {
                                Err(e) => {
                                    return Err(e);
                                },
                                Ok(c) => {
                                    let p = Block::Paragraph(c);
                                    proof {
                                        lemma_blocks_model_push(blocks@, p);
                                    }
                                    blocks.push(p);
                                    cur = cur + 1;
                                },
                            }
                        } else {
                            return Ok((blocks, cur));
                        }
                    },
                }
            },
        }
    }
}

proof fn lemma_parse_cells_err(cells: Seq<Seq<char>>, k: int)
    requires
        0 <= k <= cells.len(),
        parse_cells(cells.take(k)) is Err,
    ensures
        parse_cells(cells) == parse_cells(cells.take(k)),
    decreases cells.len() - k,
{
    if k < cells.len() {
        assert(cells.take(k + 1).drop_last() =~= cells.take(k));
        lemma_parse_cells_err(cells, k + 1);
    } else {
        assert(cells.take(k) =~= cells);
    }
}

fn parse_cells_exec(cells: &Vec<Vec<char>>) -> (r: Result<Vec<Vec<Inline>>, RenderError>)
    ensures
        match r {
            Ok(v) => parse_cells(cells_view(cells@)) == Ok::<Seq<Seq<InlineM>>, Seq<char>>(
                cells_model(v@),
            ),
            Err(e) => parse_cells(cells_view(cells@)) == Err::<Seq<Seq<InlineM>>, Seq<char>>(e@),
        },
        r matches Ok(v) ==> v@.len() == cells@.len(),
{
    let ghost cv = cells_view(cells@);
    let mut out: Vec<Vec<Inline>> = Vec::new();
    let mut k: usize = 0;
    proof {
        assert(cells_model(out@) =~= Seq::<Seq<InlineM>>::empty());
        assert(cv.take(0) =~= Seq::<Seq<char>>::empty());
    }
    while k < cells.len()
        invariant
            k <= cells@.len(),
            cv == cells_view(cells@),
            out@.len() == k,
            parse_cells(cv.take(k as int)) == Ok::<Seq<Seq<InlineM>>, Seq<char>>(
                cells_model(out@),
            ),
        decreases cells@.len() - k,
    {
        proof {
            assert(cv.take(k + 1).drop_last() =~= cv.take(k as int));
            assert(cv.take(k + 1).last() == cells@[k as int]@);
        }
        let t = trimmed(cells[k].as_slice());
        match parse_inlines(t.as_slice()) {
            Err(e) => {
                proof {
                    lemma_parse_cells_err(cv, k + 1);
                }
                return Err(e);
            },
            Ok(c) => {
                proof {
                    lemma_cells_model_push(out@, c);
                }
                out.push(c);
                k = k + 1;
            },
        }
    }
    proof {
        assert(cv.take(cells@.len() as int) =~= cv);
    }
    Ok(out)
}

fn table_exec(ls: &Vec<Vec<char>>, i: usize) -> (r: Result<(Block, usize), RenderError>)
    requires
        i + 1 < ls@.len(),
    ensures
        block_res(r) == table_at(lv(ls@), i as int),
        r matches Ok((_, j)) ==> j <= ls@.len(),
{
    proof {
        reveal_strlit("|");
    }
    let ghost l = lv(ls@);
    let _n = ls.len();
    proof {
        assert(l[i as int] == ls@[i as int]@);
        assert(l[i + 1] == ls@[i + 1]@);
    }
    let header_cells = match split_table_cells(ls[i].as_slice()) {
        Err(e) => {
            return Err(e);
        },
        Ok(c) => c,
    };
    let delimiter_cells = match split_table_cells(ls[i + 1].as_slice()) {
        Err(e) => {
            return Err(e);
        },
        Ok(c) => c,
    };
    if header_cells.len() == 0 || header_cells.len() != delimiter_cells.len() {
        return Err(RenderError::new("table header and delimiter row must have the same columns"));
    }
    let header = match parse_cells_exec(&header_cells) {
        Err(e) => {
            return Err(e);
        },
        Ok(h) => h,
    };
    proof {
        crate::markdown::lemma_cells_model_len(header@);
    }
    let bar = chars_of("|");
    let mut rows: Vec<Vec<Vec<Inline>>> = Vec::new();
    let mut k = i + 2;
    proof {
        assert(rows_model(rows@) =~= Seq::<Seq<Seq<InlineM>>>::empty());
    }
    loop
        invariant
            i + 2 <= k <= ls@.len(),
            l == lv(ls@),
            bar@ == "|"@,
            cells_model(header@).len() == header@.len(),
            table_at(l, i as int) == table_finish(
                table_rows(l, i + 2, header@.len() as nat, seq![]),
                cells_model(header@),
            ),
            table_rows(l, k as int, header@.len() as nat, rows_model(rows@)) == table_rows(
                l,
                i + 2,
                header@.len() as nat,
                seq![],
            ),
        ensures
            i + 2 <= k <= ls@.len(),
            table_at(l, i as int) == table_finish(
                table_rows(l, i + 2, header@.len() as nat, seq![]),
                cells_model(header@),
            ),
            table_rows(l, i + 2, header@.len() as nat, seq![]) == Ok::<
                (Seq<Seq<Seq<InlineM>>>, int),
                Seq<char>,
            >((rows_model(rows@), k as int)),
        decreases ls@.len() - k,
    {
        if k >= ls.len() {
            break ;
        }
        let line = ls[k].as_slice();
        proof {
            assert(l[k as int] == line@);
        }
        if trimmed(line).len() == 0 || !contains_exec(line, bar.as_slice()) {
            break ;
        }
        let cells = match split_table_cells(line) {
            Err(e) => {
                return Err(e);
            },
            Ok(c) => c,
        };
        if cells.len() != header.len() {
            return Err(
                RenderError::new("table row has a different column count from its header"),
            );
        }
        let row = match parse_cells_exec(&cells) {
            Err(e) => {
                return Err(e);
            },
            Ok(r) => r,
        };
        proof {
            lemma_rows_model_push(rows@, row);
        }
        rows.push(row);
        k = k + 1;
    }
    Ok((Block::Table { header, rows }, k))
}

pub open spec fn table_finish(
    rows: Result<(Seq<Seq<Seq<InlineM>>>, int), Seq<char>>,
    header: Seq<Seq<InlineM>>,
) -> Result<(BlockM, int), Seq<char>> {
    match rows {
        Err(e) => Err(e),
        Ok((r, k)) => Ok((BlockM::Table { header, rows: r }, k)),
    }
}

fn table_start_exec(ls: &Vec<Vec<char>>, i: usize) -> (b: bool)
    ensures
        b == table_start(lv(ls@), i as int),
{
    if i >= ls.len() || ls.len() - i < 2 {
        return false;
    }
    let bar = chars_of("|");
    proof {
        assert(lv(ls@)[i as int] == ls@[i as int]@);
        assert(lv(ls@)[i + 1] == ls@[i + 1]@);
    }
    if !contains_exec(ls[i].as_slice(), bar.as_slice()) {
        return false;
    }
    let t = trimmed(ls[i + 1].as_slice());
    is_table_delimiter(t.as_slice())
}

fn block_start_exec(ls: &Vec<Vec<char>>, k: usize) -> (r: Result<bool, RenderError>)
    ensures
        match r {
            Ok(b) => block_start(lv(ls@), k as int) == Ok::<bool, Seq<char>>(b),
            Err(e) => block_start(lv(ls@), k as int) == Err::<bool, Seq<char>>(e@),
        },
{
    if k >= ls.len() {
        return Ok(false);
    }
    let line = ls[k].as_slice();
    proof {
        assert(lv(ls@)[k as int] == line@);
    }
    let t = trimmed(line);
    let card_o = chars_of("<div class=\"learning-card\">");
    let card_c = chars_of("</div>");
    let label_o = chars_of("<p class=\"card-label\">");
    let gt = chars_of(">");
    if t.len() == 0 || eq_chars(t.as_slice(), card_o.as_slice()) || eq_chars(
        t.as_slice(),
        card_c.as_slice(),
    ) || starts_with_exec(t.as_slice(), label_o.as_slice()) || parse_heading(t.as_slice()).is_some()
        || parse_fence_start(t.as_slice()).is_some() || is_rule(t.as_slice()) || starts_with_exec(
        t.as_slice(),
        gt.as_slice(),
    ) {
        return Ok(true);
    }
    match parse_standalone_image(t.as_slice()) {
        Err(e) => {
            return Err(e);
        },
        Ok(Some(_)) => {
            return Ok(true);
        },
        Ok(None) => {},
    }
    if table_start_exec(ls, k) {
        return Ok(true);
    }
    match parse_list_marker(line) {
        Err(e) => Err(e),
        Ok(m) => Ok(m.is_some()),
    }
}

fn paragraph_exec(ls: &Vec<Vec<char>>, i: usize) -> (r: Result<(Block, usize), RenderError>)
    requires
        i <= ls@.len(),
    ensures
        block_res(r) == paragraph_at(lv(ls@), i as int),
        r matches Ok((_, j)) ==> j <= ls@.len(),
{
    proof {
        reveal_strlit("  ");
        reveal_strlit("<br>");
    }
    let ghost l = lv(ls@);
    let mut value: Vec<char> = Vec::new();
    let mut k = i;
    loop
        invariant
            i <= k <= ls@.len(),
            l == lv(ls@),
            para_gather(l, k as int, value@) == para_gather(l, i as int, seq![]),
        ensures
            i <= k <= ls@.len(),
            para_gather(l, i as int, seq![]) == Ok::<(Seq<char>, int), Seq<char>>(
                (value@, k as int),
            ),
        decreases ls@.len() - k,
    {
        proof {
            reveal_strlit("  ");
            reveal_strlit("<br>");
        }
        if k >= ls.len() {
            break ;
        }
        proof {
            assert(l[k as int] == ls@[k as int]@);
        }
        let t = trimmed(ls[k].as_slice());
        if t.len() == 0 {
            break ;
        }
        if value.len() > 0 {
            match block_start_exec(ls, k) {
                Err(e) => {
                    return Err(e);
                },
                Ok(true) => {
                    break ;
                },
                Ok(false) => {},
            }
        }
        let ghost old_value = value@;
        if value.len() > 0 {
            let n = value.len();
            if n >= 2 && value[n - 2] == ' ' && value[n - 1] == ' ' {
                value = copy_range(value.as_slice(), 0, n - 2);
                push_str(&mut value, "<br>");
                proof {
                    assert(old_value.subrange(n - 2, n as int) =~= "  "@);
                }
            } else {
                proof {
                    if n >= 2 && old_value.subrange(n - 2, n as int) == "  "@ {
                        assert(old_value[n - 2] == old_value.subrange(n - 2, n as int)[0]);
                        assert(old_value[n - 1] == old_value.subrange(n - 2, n as int)[1]);
                    }
                }
                value.push(' ');
            }
        }
        push_all(&mut value, t.as_slice());
        k = k + 1;
    }
    match parse_inlines(value.as_slice()) {
        Err(e) => Err(e),
        Ok(c) => Ok((Block::Paragraph(c), k)),
    }
}

} // verus!

verus! {

/// Decides what the line at `cur` starts and parses that block.
fn next_block(ls: &Vec<Vec<char>>, cur: usize, stop: bool) -> (r: Result<Step, RenderError>)
    requires
        cur < ls@.len(),
    ensures
        forall|acc: Seq<BlockM>| #[trigger]
            blocks_at(lv(ls@), cur as int, stop, acc) == step_then(
                r,
                lv(ls@),
                cur as int,
                stop,
                acc,
            ),
        r matches Ok(Step::Parsed(_, j)) ==> j <= ls@.len(),
    decreases weight(lv(ls@), cur as int), 7int,
{
    proof {
        reveal_strlit("<div");
        reveal_strlit("</div");
        reveal_strlit("<");
        reveal_strlit(">");
    }
    let ghost l = lv(ls@);
    let _n = ls.len();
    let line = ls[cur].as_slice();
    proof {
        assert(l[cur as int] == line@);
    }
    let t = trimmed(line);
    if t.len() == 0 {
        return Ok(Step::Skip);
    }
    let card_o = chars_of("<div class=\"learning-card\">");
    let card_c = chars_of("</div>");
    if eq_chars(t.as_slice(), card_c.as_slice()) {
        if stop {
            return Ok(Step::Close);
        } else {
            return Err(RenderError::new("unexpected closing learning-card div"));
        }
    }
    if eq_chars(t.as_slice(), card_o.as_slice()) {
        proof {
            lemma_weight_mono(l, cur as int, cur + 1);
        }
        return match blocks_at_exec(ls, cur + 1, true) {
            Err(e) => Err(e),
            Ok((c, j)) => Ok(Step::Parsed(Block::Card(c), j)),
        };
    }
    let div_o = chars_of("<div");
    let div_c = chars_of("</div");
    if starts_with_exec(t.as_slice(), div_o.as_slice()) || starts_with_exec(
        t.as_slice(),
        div_c.as_slice(),
    ) {
        return Err(RenderError::with_detail("unsupported block HTML: ", t.as_slice()));
    }
    let label_o = chars_of("<p class=\"card-label\">");
    if starts_with_exec(t.as_slice(), label_o.as_slice()) {
        return match card_label_exec(ls, cur) {
            Err(e) => Err(e),
            Ok((b, j)) => Ok(Step::Parsed(b, j)),
        };
    }
    if let Some((level, title)) = parse_heading(t.as_slice()) {
        return match parse_inlines(title.as_slice()) {
            Err(e) => Err(e),
            Ok(c) => Ok(Step::Parsed(Block::Heading { level, content: c }, cur + 1)),
        };
    }
    if let Some((marker, info)) = parse_fence_start(t.as_slice()) {
        return match code_block_exec(ls, cur, marker.as_slice(), info.as_slice()) {
            Err(e) => Err(e),
            Ok((b, j)) => Ok(Step::Parsed(b, j)),
        };
    }
    if is_rule(t.as_slice()) {
        return Ok(Step::Parsed(Block::Rule, cur + 1));
    }
    let gt = chars_of(">");
    if starts_with_exec(t.as_slice(), gt.as_slice()) {
        proof {
            crate::text::lemma_ws_run_end_bounds(line@, 0);
            let a = ws_run_end(line@, 0);
            assert(trim_start(line@)[0] == line@[a]);
            reveal_strlit(">");
            let ts = trim_start(line@);
            crate::text::lemma_ws_run_start_bounds(ts, ts.len() as int);
            assert(t@[0] == trim_start(line@)[0]);
            assert(t@.subrange(0, 1) == ">"@);
            assert(t@[0] == t@.subrange(0, 1)[0]);
            assert(ts.subrange(0, 1) =~= ">"@);
        }
        return match quote_exec(ls, cur) {
            Err(e) => Err(e),
            Ok((b, j)) => Ok(Step::Parsed(b, j)),
        };
    }
    match parse_list_marker(line) {
        Err(e) => {
            return Err(e);
        },
        Ok(Some(m)) => {
            return match list_block_exec(ls, cur, m.indent, m.kind) {
                Err(e) => Err(e),
                Ok((b, j)) => Ok(Step::Parsed(b, j)),
            };
        },
        Ok(None) => {},
    }
    if table_start_exec(ls, cur) {
        return match table_exec(ls, cur) {
            Err(e) => Err(e),
            Ok((b, j)) => Ok(Step::Parsed(b, j)),
        };
    }
    match parse_standalone_image(t.as_slice()) {
        Err(e) => {
            return Err(e);
        },
        Ok(Some(img)) => {
            return Ok(Step::Parsed(img, cur + 1));
        },
        Ok(None) => {},
    }
    proof {
        reveal_strlit("<");
        if t@.len() >= 1 && t@[0] == '<' {
            assert(t@.subrange(0, 1) =~= "<"@);
        }
        if starts_with(t@, "<"@) {
            assert(t@[0] == t@.subrange(0, 1)[0]);
        }
    }
    if t[0] == '<' && t.len() > 1 && (t[1] == '/' || ('a' <= t[1] && t[1] <= 'z') || ('A' <= t[1]
        && t[1] <= 'Z')) {
        return Err(RenderError::with_detail("unsupported block HTML: ", t.as_slice()));
    }
    match paragraph_exec(ls, cur) {
        Err(e) => Err(e),
        Ok((b, j)) => Ok(Step::Parsed(b, j)),
    }
}

} // verus!
