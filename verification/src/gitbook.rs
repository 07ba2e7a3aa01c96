//! Renders the Markdown tree back to Markdown for the GitBook mirror, with
//! links and images rewritten relative to each chapter's new place.
use vstd::prelude::*;

use crate::book::RenderError;
use crate::config::res_view;
use crate::gitmd::{
    escape_markdown_text, escape_md, fence_for, inline_code_md, markdown_fence,
    markdown_inline_code, prefix_lines, prefix_markdown_lines, relative_markdown_path,
    relative_md, trim_end_exec,
};
use crate::markdown::{
    Block, BlockM, Inline, InlineM, ListItem, block_model, blocks_model, cells_model,
    inline_model, inlines_model, items_model, lemma_blocks_model_index, lemma_blocks_model_len,
    lemma_cells_model_index, lemma_cells_model_len, lemma_inlines_model_index,
    lemma_inlines_model_len, lemma_items_model_index, lemma_items_model_len,
    lemma_rows_model_index, lemma_rows_model_len, rows_model,
};
use crate::text::{
    chars_of, copy_range, decimal, decimal_wide, find_from, find_from_exec, lemma_find_from,
    lemma_rfind_upto, lines, lines_exec, push_all, push_str, repeat, repeat_exec, rfind,
    rfind_exec, starts_with, starts_with_exec, string_of, trim, trim_end, trimmed,
};
use crate::gitmd::{path_md, path_to_markdown};
use crate::paths::{is_within, path_within};
use crate::summary::{EntryM, SummaryEntry, entries_model, entry_model};
use crate::text::{eq_chars, lines_from, matches_at};
use crate::gitmd::prefix_each;
use crate::typst::{
    Resolution, is_remote_target, lookup, lookup_resolution, remote, resolutions_model, then_ok,
    wrap,
};

verus! {

/// What the GitBook renderer knows of the chapter it renders: where the
/// chapter goes in the mirror, where each local link leads (the target's
/// chapter, by its path in the mirror) and where each image was published.
pub struct GitBookEnvironment {
    pub output_path: String,
    pub links: Vec<Resolution>,
    pub images: Vec<Resolution>,
}

pub struct GEnvM {
    pub output: Seq<char>,
    pub links: Seq<(Seq<char>, Result<Seq<char>, Seq<char>>)>,
    pub images: Seq<(Seq<char>, Result<Seq<char>, Seq<char>>)>,
}

pub open spec fn genv_model(e: GitBookEnvironment) -> GEnvM {
    GEnvM {
        output: e.output_path@,
        links: resolutions_model(e.links@),
        images: resolutions_model(e.images@),
    }
}

/// The directory part of a relative path (`""` for a bare file name).
pub open spec fn parent_of(p: Seq<char>) -> Seq<char> {
    match rfind(p, "/"@) {
        Some(k) => p.subrange(0, k),
        None => seq![],
    }
}

fn parent_exec(p: &[char]) -> (r: Vec<char>)
    ensures
        r@ == parent_of(p@),
{
    proof {
        reveal_strlit("/");
        lemma_rfind_upto(p@, p@.len() - 1, "/"@);
    }
    let slash = chars_of("/");
    match rfind_exec(p, slash.as_slice()) {
        Some(k) => copy_range(p, 0, k),
        None => Vec::new(),
    }
}

/// Where a link leads in the mirror.
pub open spec fn gitbook_link(t: Seq<char>, env: GEnvM) -> Result<Seq<char>, Seq<char>> {
    if remote(t) || starts_with(t, "mailto:"@) || starts_with(t, "#"@) {
        Ok(t)
    } else {
        match lookup(env.links, t) {
            None => Err("local Markdown link does not target a chapter in SUMMARY.md: "@ + t),
            Some(Err(e)) => Err(e),
            Some(Ok(dest)) => match relative_md(parent_of(env.output), dest) {
                Err(e) => Err(e),
                Ok(l) => Ok(
                    match find_from(t, 0, "#"@) {
                        Some(k) => l + "#"@ + t.subrange(k + 1, t.len() as int),
                        None => l,
                    },
                ),
            },
        }
    }
}

pub fn resolve_gitbook_link(t: &[char], env: &GitBookEnvironment) -> (r: Result<Vec<char>, RenderError>)
    ensures
        res_view(r) == gitbook_link(t@, genv_model(*env)),
{
    proof {
        reveal_strlit("#");
    }
    let mailto = chars_of("mailto:");
    let hash = chars_of("#");
    if is_remote_target(t) || starts_with_exec(t, mailto.as_slice()) || starts_with_exec(
        t,
        hash.as_slice(),
    ) {
        let whole = copy_range(t, 0, t.len());
        proof {
            assert(whole@ =~= t@);
        }
        return Ok(whole);
    }
    let dest = match lookup_resolution(&env.links, t) {
        None => {
            return Err(RenderError::with_detail(
                "local Markdown link does not target a chapter in SUMMARY.md: ",
                t,
            ));
        },
        Some(Err(e)) => {
            return Err(e);
        },
        Some(Ok(d)) => chars_of(d.as_str()),
    };
    let oc = chars_of(env.output_path.as_str());
    let parent = parent_exec(oc.as_slice());
    let mut l = match relative_markdown_path(parent.as_slice(), dest.as_slice()) {
        Err(e) => {
            return Err(e);
        },
        Ok(l) => l,
    };
    let _n = t.len();
    let ghost base = l@;
    match find_from_exec(t, 0, hash.as_slice()) {
        Some(k) => {
            proof {
                lemma_find_from(t@, 0, "#"@);
            }
            l.push('#');
            let frag = copy_range(t, k + 1, t.len());
            push_all(&mut l, frag.as_slice());
            proof {
                assert(l@ =~= base + "#"@ + t@.subrange(k + 1, t@.len() as int));
            }
        },
        None => {},
    }
    Ok(l)
}

/// The Markdown of inline content.
pub open spec fn md_inlines(c: Seq<InlineM>, env: GEnvM) -> Result<Seq<char>, Seq<char>>
    decreases c,
{
    if c.len() == 0 {
        Ok(seq![])
    } else {
        then_ok(md_inlines(c.drop_last(), env), md_inline(c.last(), env))
    }
}

pub open spec fn md_inline(x: InlineM, env: GEnvM) -> Result<Seq<char>, Seq<char>>
    decreases x,
{
    match x {
        InlineM::Text(v) => Ok(escape_md(v)),
        InlineM::Strong(c) => wrap("**"@, md_inlines(c, env), "**"@),
        InlineM::Emphasis(c) => wrap("*"@, md_inlines(c, env), "*"@),
        InlineM::Term(c) => wrap("*"@, md_inlines(c, env), "*"@),
        InlineM::Strike(c) => wrap("~~"@, md_inlines(c, env), "~~"@),
        InlineM::Code(v) => Ok(inline_code_md(v)),
        InlineM::Link { target, content } => match gitbook_link(target, env) {
            Err(e) => Err(e),
            Ok(d) => wrap("["@, md_inlines(content, env), "]("@ + d + ")"@),
        },
        InlineM::Break => Ok("  \n"@),
    }
}

fn wrap_chars(prefix: &str, inner: Result<Vec<char>, RenderError>, suffix: &[char]) -> (r: Result<
    Vec<char>,
    RenderError,
>)
    ensures
        res_view(r) == wrap(prefix@, res_view(inner), suffix@),
{
    match inner {
        Err(e) => Err(e),
        Ok(x) => {
            let mut out: Vec<char> = Vec::new();
            push_str(&mut out, prefix);
            push_all(&mut out, x.as_slice());
            push_all(&mut out, suffix);
            Ok(out)
        },
    }
}

proof fn lemma_md_inlines_err(c: Seq<InlineM>, k: int, env: GEnvM)
    requires
        0 <= k <= c.len(),
        md_inlines(c.take(k), env) is Err,
    ensures
        md_inlines(c, env) == md_inlines(c.take(k), env),
    decreases c.len() - k,
{
    if k < c.len() {
        assert(c.take(k + 1).drop_last() =~= c.take(k));
        lemma_md_inlines_err(c, k + 1, env);
    } else {
        assert(c.take(k) =~= c);
    }
}

/// Renders inline content as Markdown.
pub fn render_gitbook_inlines(content: &[Inline], env: &GitBookEnvironment) -> (r: Result<
    Vec<char>,
    RenderError,
>)
    ensures
        res_view(r) == md_inlines(inlines_model(content@), genv_model(*env)),
    decreases content@,
{
    let ghost m = inlines_model(content@);
    let mut out: Vec<char> = Vec::new();
    let mut i: usize = 0;
    proof {
        lemma_inlines_model_len(content@);
        assert(m.take(0) =~= Seq::<InlineM>::empty());
    }
    while i < content.len()
        invariant
            i <= content@.len(),
            m == inlines_model(content@),
            m.len() == content@.len(),
            md_inlines(m.take(i as int), genv_model(*env)) == Ok::<Seq<char>, Seq<char>>(out@),
        decreases content@.len() - i,
    {
        proof {
            lemma_inlines_model_index(content@, i as int);
            assert(m.take(i + 1).drop_last() =~= m.take(i as int));
        }
        let piece = render_gitbook_inline(&content[i], env);
        match piece {
            Err(e) => {
                proof {
                    lemma_md_inlines_err(m, i + 1, genv_model(*env));
                }
                return Err(e);
            },
            Ok(p) => {
                push_all(&mut out, p.as_slice());
                i = i + 1;
            },
        }
    }
    proof {
        assert(m.take(content@.len() as int) =~= m);
    }
    Ok(out)
}

fn render_gitbook_inline(x: &Inline, env: &GitBookEnvironment) -> (r: Result<Vec<char>, RenderError>)
    ensures
        res_view(r) == md_inline(inline_model(*x), genv_model(*env)),
    decreases x,
{
    match x {
        Inline::Text(v) => {
            let vc = chars_of(v.as_str());
            Ok(escape_markdown_text(vc.as_slice()))
        },
        Inline::Strong(c) => {
            let s = chars_of("**");
            wrap_chars("**", render_gitbook_inlines(c.as_slice(), env), s.as_slice())
        },
        Inline::Emphasis(c) => {
            let s = chars_of("*");
            wrap_chars("*", render_gitbook_inlines(c.as_slice(), env), s.as_slice())
        },
        Inline::Term(c) => {
            let s = chars_of("*");
            wrap_chars("*", render_gitbook_inlines(c.as_slice(), env), s.as_slice())
        },
        Inline::Strike(c) => {
            let s = chars_of("~~");
            wrap_chars("~~", render_gitbook_inlines(c.as_slice(), env), s.as_slice())
        },
        Inline::Code(v) => {
            let vc = chars_of(v.as_str());
            Ok(markdown_inline_code(vc.as_slice()))
        },
        Inline::Link { target, content } => {
            let tc = chars_of(target.as_str());
            let d = match resolve_gitbook_link(tc.as_slice(), env) {
                Err(e) => {
                    return Err(e);
                },
                Ok(d) => d,
            };
            let mut tail: Vec<char> = Vec::new();
            push_str(&mut tail, "](");
            push_all(&mut tail, d.as_slice());
            push_str(&mut tail, ")");
            wrap_chars("[", render_gitbook_inlines(content.as_slice(), env), tail.as_slice())
        },
        Inline::Break => Ok(chars_of("  \n")),
    }
}

/// The Markdown of a sequence of blocks: each block's text without its
/// trailing whitespace, a line feed after it and a blank line between blocks.
pub open spec fn md_blocks(bs: Seq<BlockM>, env: GEnvM) -> Result<Seq<char>, Seq<char>>
    decreases bs,
{
    if bs.len() == 0 {
        Ok(seq![])
    } else {
        match md_blocks(bs.drop_last(), env) {
            Err(e) => Err(e),
            Ok(a) => match md_block(bs.last(), env) {
                Err(e) => Err(e),
                Ok(r) => Ok(
                    a + if a.len() > 0 {
                        "\n"@
                    } else {
                        seq![]
                    } + trim_end(r) + "\n"@,
                ),
            },
        }
    }
}

/// The marker of list item `index`: `- `, or the item's number and `. `.
pub open spec fn list_marker(start: Option<nat>, index: nat) -> Seq<char> {
    match start {
        Some(v) => decimal(v + index) + ". "@,
        None => "- "@,
    }
}

/// The lines of one list item: the marker before the first line, the other
/// lines indented by two spaces, empty lines left empty.
pub open spec fn item_lines(ls: Seq<Seq<char>>, marker: Seq<char>) -> Seq<char>
    decreases ls.len(),
{
    if ls.len() == 0 {
        seq![]
    } else {
        item_lines(ls.drop_last(), marker) + if ls.len() == 1 {
            marker + ls.last() + "\n"@
        } else if ls.last().len() == 0 {
            "\n"@
        } else {
            "  "@ + ls.last() + "\n"@
        }
    }
}

pub open spec fn md_list(items: Seq<Seq<BlockM>>, start: Option<nat>, env: GEnvM) -> Result<
    Seq<char>,
    Seq<char>,
>
    decreases items,
{
    if items.len() == 0 {
        Ok(seq![])
    } else {
        then_ok(
            md_list(items.drop_last(), start, env),
            match md_blocks(items.last(), env) {
                Err(e) => Err(e),
                Ok(r) => Ok(
                    item_lines(lines(trim_end(r)), list_marker(start, (items.len() - 1) as nat)),
                ),
            },
        )
    }
}

/// Header or body cells: ` text |` each.
pub open spec fn md_cells(cells: Seq<Seq<InlineM>>, env: GEnvM) -> Result<Seq<char>, Seq<char>>
    decreases cells.len(),
{
    if cells.len() == 0 {
        Ok(seq![])
    } else {
        then_ok(md_cells(cells.drop_last(), env), wrap(" "@, md_inlines(cells.last(), env), " |"@))
    }
}

pub open spec fn md_rows(rows: Seq<Seq<Seq<InlineM>>>, n: nat, env: GEnvM) -> Result<
    Seq<char>,
    Seq<char>,
>
    decreases rows.len(),
{
    if rows.len() == 0 {
        Ok(seq![])
    } else {
        then_ok(
            md_rows(rows.drop_last(), n, env),
            if rows.last().len() != n {
                Err("table row has a different column count from its header"@)
            } else {
                wrap("|"@, md_cells(rows.last(), env), "\n"@)
            },
        )
    }
}

pub open spec fn md_table(header: Seq<Seq<InlineM>>, rows: Seq<Seq<Seq<InlineM>>>, env: GEnvM) -> Result<
    Seq<char>,
    Seq<char>,
> {
    if header.len() == 0 {
        Err("table must have at least one column"@)
    } else {
        then_ok(
            wrap("|"@, md_cells(header, env), "\n|"@ + rule_cells(header.len()) + "\n"@),
            md_rows(rows, header.len(), env),
        )
    }
}

/// ` --- |` for each column.
pub open spec fn rule_cells(n: nat) -> Seq<char>
    decreases n,
{
    if n == 0 {
        seq![]
    } else {
        rule_cells((n - 1) as nat) + " --- |"@
    }
}

/// A caption with each `"` escaped.
pub open spec fn quote_escaped(c: Seq<char>) -> Seq<char>
    decreases c.len(),
{
    if c.len() == 0 {
        seq![]
    } else {
        quote_escaped(c.drop_last()) + if c.last() == '"' {
            seq!['\\', '"']
        } else {
            seq![c.last()]
        }
    }
}

pub open spec fn md_image(alt: Seq<char>, path: Seq<char>, caption: Option<Seq<char>>, env: GEnvM) -> Result<
    Seq<char>,
    Seq<char>,
> {
    if remote(path) {
        Err("remote image must be vendored: "@ + path)
    } else if trim(alt).len() == 0 {
        Err("local image must have non-empty alt text"@)
    } else {
        match lookup(env.images, path) {
            None => Err("local image was not registered: "@ + path),
            Some(Err(e)) => Err(e),
            Some(Ok(published)) => match relative_md(parent_of(env.output), published) {
                Err(e) => Err(e),
                Ok(l) => Ok(
                    "!["@ + escape_md(alt) + "]("@ + l + match caption {
                        Some(c) => " \""@ + quote_escaped(c) + "\""@,
                        None => seq![],
                    } + ")\n"@,
                ),
            },
        }
    }
}

pub open spec fn md_block(b: BlockM, env: GEnvM) -> Result<Seq<char>, Seq<char>>
    decreases b,
{
    match b {
        BlockM::Heading { level, content } => wrap(
            repeat('#', level) + " "@,
            md_inlines(content, env),
            "\n"@,
        ),
        BlockM::Paragraph(c) => wrap(seq![], md_inlines(c, env), "\n"@),
        BlockM::Code { language, source } => Ok(
            fence_for(source, language) + language + "\n"@ + source + "\n"@ + fence_for(
                source,
                language,
            ) + "\n"@,
        ),
        BlockM::BulletList(items) => md_list(items, None, env),
        BlockM::OrderedList { start, items } => md_list(items, Some(start), env),
        BlockM::Quote(c) => match md_blocks(c, env) {
            Err(e) => Err(e),
            Ok(x) => Ok(prefix_lines(x, "> "@)),
        },
        BlockM::Card(c) => match md_blocks(c, env) {
            Err(e) => Err(e),
            Ok(x) => Ok(prefix_lines(x, "> "@)),
        },
        BlockM::CardLabel(c) => wrap("**"@, md_inlines(c, env), "**\n"@),
        BlockM::Table { header, rows } => md_table(header, rows, env),
        BlockM::Image { alt, path, caption } => md_image(alt, path, caption, env),
        BlockM::Rule => Ok("---\n"@),
    }
}

proof fn lemma_md_blocks_err(c: Seq<BlockM>, k: int, env: GEnvM)
    requires
        0 <= k <= c.len(),
        md_blocks(c.take(k), env) is Err,
    ensures
        md_blocks(c, env) == md_blocks(c.take(k), env),
    decreases c.len() - k,
{
    if k < c.len() {
        assert(c.take(k + 1).drop_last() =~= c.take(k));
        lemma_md_blocks_err(c, k + 1, env);
    } else {
        assert(c.take(k) =~= c);
    }
}

proof fn lemma_md_list_err(c: Seq<Seq<BlockM>>, start: Option<nat>, k: int, env: GEnvM)
    requires
        0 <= k <= c.len(),
        md_list(c.take(k), start, env) is Err,
    ensures
        md_list(c, start, env) == md_list(c.take(k), start, env),
    decreases c.len() - k,
{
    if k < c.len() {
        assert(c.take(k + 1).drop_last() =~= c.take(k));
        lemma_md_list_err(c, start, k + 1, env);
    } else {
        assert(c.take(k) =~= c);
    }
}

proof fn lemma_md_cells_err(c: Seq<Seq<InlineM>>, k: int, env: GEnvM)
    requires
        0 <= k <= c.len(),
        md_cells(c.take(k), env) is Err,
    ensures
        md_cells(c, env) == md_cells(c.take(k), env),
    decreases c.len() - k,
{
    if k < c.len() {
        assert(c.take(k + 1).drop_last() =~= c.take(k));
        lemma_md_cells_err(c, k + 1, env);
    } else {
        assert(c.take(k) =~= c);
    }
}

proof fn lemma_md_rows_err(c: Seq<Seq<Seq<InlineM>>>, n: nat, k: int, env: GEnvM)
    requires
        0 <= k <= c.len(),
        md_rows(c.take(k), n, env) is Err,
    ensures
        md_rows(c, n, env) == md_rows(c.take(k), n, env),
    decreases c.len() - k,
{
    if k < c.len() {
        assert(c.take(k + 1).drop_last() =~= c.take(k));
        lemma_md_rows_err(c, n, k + 1, env);
    } else {
        assert(c.take(k) =~= c);
    }
}

/// Renders blocks as Markdown (see [`md_blocks`]).
pub fn render_gitbook_blocks(blocks: &[Block], env: &GitBookEnvironment) -> (r: Result<
    Vec<char>,
    RenderError,
>)
    ensures
        res_view(r) == md_blocks(blocks_model(blocks@), genv_model(*env)),
    decreases blocks@,
{
    let ghost m = blocks_model(blocks@);
    let mut out: Vec<char> = Vec::new();
    let mut i: usize = 0;
    proof {
        lemma_blocks_model_len(blocks@);
        assert(m.take(0) =~= Seq::<BlockM>::empty());
    }
    while i < blocks.len()
        invariant
            i <= blocks@.len(),
            m == blocks_model(blocks@),
            m.len() == blocks@.len(),
            md_blocks(m.take(i as int), genv_model(*env)) == Ok::<Seq<char>, Seq<char>>(out@),
        decreases blocks@.len() - i,
    {
        proof {
            lemma_blocks_model_index(blocks@, i as int);
            assert(m.take(i + 1).drop_last() =~= m.take(i as int));
        }
        let piece = render_gitbook_block(&blocks[i], env);
        match piece {
            Err(e) => {
                proof {
                    lemma_md_blocks_err(m, i + 1, genv_model(*env));
                }
                return Err(e);
            },
            Ok(p) => {
                let ghost before = out@;
                if out.len() > 0 {
                    out.push('\n');
                }
                let t = trim_end_exec(p.as_slice());
                push_all(&mut out, t.as_slice());
                out.push('\n');
                proof {
                    reveal_strlit("\n");
                    assert(out@ =~= before + if before.len() > 0 {
                        "\n"@
                    } else {
                        seq![]
                    } + trim_end(p@) + "\n"@);
                }
                i = i + 1;
            },
        }
    }
    proof {
        assert(m.take(blocks@.len() as int) =~= m);
    }
    Ok(out)
}

fn item_lines_exec(rendered: &[char], marker: &[char]) -> (r: Vec<char>)
    ensures
        r@ == item_lines(lines(trim_end(rendered@)), marker@),
{
    let t = trim_end_exec(rendered);
    let ls = lines_exec(t.as_slice());
    let ghost lv = lines(t@);
    let mut out: Vec<char> = Vec::new();
    let mut i: usize = 0;
    proof {
        assert(lv.take(0) =~= Seq::<Seq<char>>::empty());
    }
    while i < ls.len()
        invariant
            i <= ls@.len(),
            lv == lines(t@),
            ls@.len() == lv.len(),
            forall|k: int| 0 <= k < ls@.len() ==> #[trigger] ls@[k]@ == lv[k],
            out@ == item_lines(lv.take(i as int), marker@),
        decreases ls@.len() - i,
    {
        proof {
            assert(lv.take(i + 1).drop_last() =~= lv.take(i as int));
            assert(ls@[i as int]@ == lv[i as int]);
        }
        let ghost before = out@;
        if i == 0 {
            push_all(&mut out, marker);
            push_all(&mut out, ls[i].as_slice());
            out.push('\n');
        } else if ls[i].len() == 0 {
            out.push('\n');
        } else {
            out.push(' ');
            out.push(' ');
            push_all(&mut out, ls[i].as_slice());
            out.push('\n');
        }
        proof {
            reveal_strlit("\n");
            reveal_strlit("  ");
            assert(out@ =~= item_lines(lv.take(i + 1), marker@));
        }
        i = i + 1;
    }
    proof {
        assert(lv.take(ls@.len() as int) =~= lv);
    }
    out
}

fn render_gitbook_list(items: &[ListItem], start: Option<u64>, env: &GitBookEnvironment) -> (r: Result<
    Vec<char>,
    RenderError,
>)
    ensures
        res_view(r) == md_list(
            items_model(items@),
            match start {
                Some(v) => Some(v as nat),
                None => None,
            },
            genv_model(*env),
        ),
    decreases items@,
{
    let ghost st = match start {
        Some(v) => Some(v as nat),
        None => None::<nat>,
    };
    let ghost m = items_model(items@);
    let mut out: Vec<char> = Vec::new();
    let mut i: usize = 0;
    proof {
        lemma_items_model_len(items@);
        assert(m.take(0) =~= Seq::<Seq<BlockM>>::empty());
    }
    while i < items.len()
        invariant
            i <= items@.len(),
            m == items_model(items@),
            m.len() == items@.len(),
            st == match start {
                Some(v) => Some(v as nat),
                None => None::<nat>,
            },
            md_list(m.take(i as int), st, genv_model(*env)) == Ok::<Seq<char>, Seq<char>>(out@),
        decreases items@.len() - i,
    {
        proof {
            lemma_items_model_index(items@, i as int);
            assert(m.take(i + 1).drop_last() =~= m.take(i as int));
        }
        let rendered = match render_gitbook_blocks(items[i].blocks.as_slice(), env) {
            Err(e) => {
                proof {
                    assert(md_list(m.take(i + 1), st, genv_model(*env)) is Err);
                    lemma_md_list_err(m, st, i + 1, genv_model(*env));
                }
                return Err(e);
            },
            Ok(r) => r,
        };
        let marker = match start {
            Some(v) => {
                let d = decimal_wide((v as u128) + (i as u128));
                let mut mk: Vec<char> = Vec::new();
                push_all(&mut mk, d.as_slice());
                push_str(&mut mk, ". ");
                mk
            },
            None => chars_of("- "),
        };
        proof {
            assert(marker@ == list_marker(st, i as nat));
        }
        let piece = item_lines_exec(rendered.as_slice(), marker.as_slice());
        push_all(&mut out, piece.as_slice());
        i = i + 1;
    }
    proof {
        assert(m.take(items@.len() as int) =~= m);
    }
    Ok(out)
}

fn render_md_cells(cells: &[Vec<Inline>], env: &GitBookEnvironment) -> (r: Result<
    Vec<char>,
    RenderError,
>)
    ensures
        res_view(r) == md_cells(cells_model(cells@), genv_model(*env)),
{
    let ghost m = cells_model(cells@);
    let mut out: Vec<char> = Vec::new();
    let mut i: usize = 0;
    proof {
        lemma_cells_model_len(cells@);
        assert(m.take(0) =~= Seq::<Seq<InlineM>>::empty());
    }
    while i < cells.len()
        invariant
            i <= cells@.len(),
            m == cells_model(cells@),
            m.len() == cells@.len(),
            md_cells(m.take(i as int), genv_model(*env)) == Ok::<Seq<char>, Seq<char>>(out@),
        decreases cells@.len() - i,
    {
        proof {
            lemma_cells_model_index(cells@, i as int);
            assert(m.take(i + 1).drop_last() =~= m.take(i as int));
        }
        let bar = chars_of(" |");
        let piece = wrap_chars(" ", render_gitbook_inlines(cells[i].as_slice(), env), bar.as_slice());
        match piece {
            Err(e) => {
                proof {
                    lemma_md_cells_err(m, i + 1, genv_model(*env));
                }
                return Err(e);
            },
            Ok(p) => {
                push_all(&mut out, p.as_slice());
                i = i + 1;
            },
        }
    }
    proof {
        assert(m.take(cells@.len() as int) =~= m);
    }
    Ok(out)
}

fn render_md_rows(rows: &[Vec<Vec<Inline>>], n: usize, env: &GitBookEnvironment) -> (r: Result<
    Vec<char>,
    RenderError,
>)
    ensures
        res_view(r) == md_rows(rows_model(rows@), n as nat, genv_model(*env)),
{
    let ghost m = rows_model(rows@);
    let mut out: Vec<char> = Vec::new();
    let mut i: usize = 0;
    proof {
        lemma_rows_model_len(rows@);
        assert(m.take(0) =~= Seq::<Seq<Seq<InlineM>>>::empty());
    }
    while i < rows.len()
        invariant
            i <= rows@.len(),
            m == rows_model(rows@),
            m.len() == rows@.len(),
            md_rows(m.take(i as int), n as nat, genv_model(*env)) == Ok::<Seq<char>, Seq<char>>(
                out@,
            ),
        decreases rows@.len() - i,
    {
        proof {
            lemma_rows_model_index(rows@, i as int);
            lemma_cells_model_len(rows@[i as int]@);
            assert(m.take(i + 1).drop_last() =~= m.take(i as int));
        }
        let piece = if rows[i].len() != n {
            Err(RenderError::new("table row has a different column count from its header"))
        } else {
            let nl = chars_of("\n");
            wrap_chars("|", render_md_cells(rows[i].as_slice(), env), nl.as_slice())
        };
        match piece {
            Err(e) => {
                proof {
                    lemma_md_rows_err(m, n as nat, i + 1, genv_model(*env));
                }
                return Err(e);
            },
            Ok(p) => {
                push_all(&mut out, p.as_slice());
                i = i + 1;
            },
        }
    }
    proof {
        assert(m.take(rows@.len() as int) =~= m);
    }
    Ok(out)
}

fn rule_cells_exec(n: usize) -> (r: Vec<char>)
    ensures
        r@ == rule_cells(n as nat),
{
    let mut out: Vec<char> = Vec::new();
    let mut k: usize = 0;
    while k < n
        invariant
            k <= n,
            out@ == rule_cells(k as nat),
        decreases n - k,
    {
        push_str(&mut out, " --- |");
        k = k + 1;
    }
    out
}

fn render_gitbook_table(header: &Vec<Vec<Inline>>, rows: &Vec<Vec<Vec<Inline>>>, env: &GitBookEnvironment) -> (r:
    Result<Vec<char>, RenderError>)
    ensures
        res_view(r) == md_table(cells_model(header@), rows_model(rows@), genv_model(*env)),
{
    proof {
        lemma_cells_model_len(header@);
    }
    if header.len() == 0 {
        return Err(RenderError::new("table must have at least one column"));
    }
    let mut tail: Vec<char> = Vec::new();
    push_str(&mut tail, "\n|");
    let rc = rule_cells_exec(header.len());
    push_all(&mut tail, rc.as_slice());
    push_str(&mut tail, "\n");
    let head = wrap_chars("|", render_md_cells(header.as_slice(), env), tail.as_slice());
    let hv = match head {
        Err(e) => {
            return Err(e);
        },
        Ok(h) => h,
    };
    let body = match render_md_rows(rows.as_slice(), header.len(), env) {
        Err(e) => {
            return Err(e);
        },
        Ok(b) => b,
    };
    let mut out = hv;
    push_all(&mut out, body.as_slice());
    Ok(out)
}

fn quote_escaped_exec(c: &[char]) -> (r: Vec<char>)
    ensures
        r@ == quote_escaped(c@),
{
    let mut out: Vec<char> = Vec::new();
    let mut i: usize = 0;
    while i < c.len()
        invariant
            i <= c@.len(),
            out@ == quote_escaped(c@.take(i as int)),
        decreases c@.len() - i,
    {
        proof {
            assert(c@.take(i + 1).drop_last() =~= c@.take(i as int));
        }
        let ghost before = out@;
        if c[i] == '"' {
            out.push('\\');
            out.push('"');
        } else {
            out.push(c[i]);
        }
        proof {
            assert(out@ =~= quote_escaped(c@.take(i + 1)));
        }
        i = i + 1;
    }
    proof {
        assert(c@.take(c@.len() as int) =~= c@);
    }
    out
}

fn render_gitbook_image(alt: &String, path: &String, caption: &Option<String>, env: &GitBookEnvironment) -> (r:
    Result<Vec<char>, RenderError>)
    ensures
        res_view(r) == md_image(
            alt@,
            path@,
            match caption {
                Some(c) => Some(c@),
                None => None,
            },
            genv_model(*env),
        ),
{
    let pc = chars_of(path.as_str());
    if is_remote_target(pc.as_slice()) {
        return Err(RenderError::with_detail("remote image must be vendored: ", pc.as_slice()));
    }
    let ac = chars_of(alt.as_str());
    let at = trimmed(ac.as_slice());
    if at.len() == 0 {
        return Err(RenderError::new("local image must have non-empty alt text"));
    }
    let published = match lookup_resolution(&env.images, pc.as_slice()) {
        None => {
            return Err(RenderError::with_detail("local image was not registered: ", pc.as_slice()));
        },
        Some(Err(e)) => {
            return Err(e);
        },
        Some(Ok(p)) => chars_of(p.as_str()),
    };
    let oc = chars_of(env.output_path.as_str());
    let parent = parent_exec(oc.as_slice());
    let linked = match relative_markdown_path(parent.as_slice(), published.as_slice()) {
        Err(e) => {
            return Err(e);
        },
        Ok(l) => l,
    };
    let mut out: Vec<char> = Vec::new();
    push_str(&mut out, "![");
    let ea = escape_markdown_text(ac.as_slice());
    push_all(&mut out, ea.as_slice());
    push_str(&mut out, "](");
    push_all(&mut out, linked.as_slice());
    match caption {
        Some(c) => {
            push_str(&mut out, " \"");
            let cc = chars_of(c.as_str());
            let q = quote_escaped_exec(cc.as_slice());
            push_all(&mut out, q.as_slice());
            push_str(&mut out, "\"");
        },
        None => {},
    }
    push_str(&mut out, ")\n");
    proof {
        let cap = match caption {
            Some(c) => Some(c@),
            None => None::<Seq<char>>,
        };
        assert(out@ =~= md_image(alt@, path@, cap, genv_model(*env))->Ok_0);
    }
    Ok(out)
}

/// Renders one block as Markdown (see [`md_block`]).
fn render_gitbook_block(b: &Block, env: &GitBookEnvironment) -> (r: Result<Vec<char>, RenderError>)
    ensures
        res_view(r) == md_block(block_model(*b), genv_model(*env)),
    decreases b,
{
    match b {
        Block::Heading { level, content } => {
            let mut head = repeat_exec('#', *level);
            head.push(' ');
            let hs = string_of(head.as_slice());
            let nl = chars_of("\n");
            proof {
                reveal_strlit(" ");
                assert(head@ =~= repeat('#', *level as nat) + " "@);
            }
            wrap_chars(hs.as_str(), render_gitbook_inlines(content.as_slice(), env), nl.as_slice())
        },
        Block::Paragraph(c) => {
            proof {
                reveal_strlit("");
                assert(""@ =~= Seq::<char>::empty());
            }
            let nl = chars_of("\n");
            wrap_chars("", render_gitbook_inlines(c.as_slice(), env), nl.as_slice())
        },
        Block::Code { language, source } => {
            let lc = chars_of(language.as_str());
            let sc = chars_of(source.as_str());
            let fence = markdown_fence(sc.as_slice(), lc.as_slice());
            let mut out: Vec<char> = Vec::new();
            push_all(&mut out, fence.as_slice());
            push_all(&mut out, lc.as_slice());
            out.push('\n');
            push_all(&mut out, sc.as_slice());
            out.push('\n');
            push_all(&mut out, fence.as_slice());
            out.push('\n');
            proof {
                reveal_strlit("\n");
                assert(out@ =~= fence_for(sc@, lc@) + lc@ + "\n"@ + sc@ + "\n"@ + fence_for(
                    sc@,
                    lc@,
                ) + "\n"@);
            }
            Ok(out)
        },
        Block::BulletList(items) => render_gitbook_list(items.as_slice(), None, env),
        Block::OrderedList { start, items } => render_gitbook_list(
            items.as_slice(),
            Some(*start),
            env,
        ),
        Block::Quote(c) => match render_gitbook_blocks(c.as_slice(), env) {
            Err(e) => Err(e),
            Ok(x) => Ok(prefix_markdown_lines(x.as_slice(), "> ")),
        },
        Block::Card(c) => match render_gitbook_blocks(c.as_slice(), env) {
            Err(e) => Err(e),
            Ok(x) => Ok(prefix_markdown_lines(x.as_slice(), "> ")),
        },
        Block::CardLabel(c) => {
            let tail = chars_of("**\n");
            wrap_chars("**", render_gitbook_inlines(c.as_slice(), env), tail.as_slice())
        },
        Block::Table { header, rows } => render_gitbook_table(header, rows, env),
        Block::Image { alt, path, caption } => render_gitbook_image(alt, path, caption, env),
        Block::Rule => Ok(chars_of("---\n")),
    }
}

/// `path` relative to the directory `dir` (`Path::strip_prefix` on
/// canonical paths).
pub open spec fn strip_dir(path: Seq<char>, dir: Seq<char>) -> Option<Seq<char>> {
    if !path_within(path, dir) {
        None
    } else if dir.len() == 0 {
        Some(path)
    } else if path == dir {
        Some(seq![])
    } else if dir.last() == '/' {
        Some(path.subrange(dir.len() as int, path.len() as int))
    } else {
        Some(path.subrange(dir.len() as int + 1, path.len() as int))
    }
}

/// Where each chapter goes in the mirror, from entry `i` on: its path under
/// the source directory, with `index.md` becoming `README.md`.
pub open spec fn outputs_from(
    es: Seq<EntryM>,
    i: int,
    dir: Seq<char>,
    dests: Seq<Seq<char>>,
    acc: Seq<(Seq<char>, Seq<char>)>,
) -> Result<Seq<(Seq<char>, Seq<char>)>, Seq<char>>
    decreases es.len() - i,
{
    if i < 0 || i >= es.len() {
        Ok(acc)
    } else {
        match es[i] {
            EntryM::Chapter { title, source, depth, label } => match strip_dir(source, dir) {
                None => Err("chapter is outside the book source directory: "@ + source),
                Some(rel) => {
                    let dest = if rel == "index.md"@ {
                        "README.md"@
                    } else {
                        rel
                    };
                    match path_md(dest) {
                        Err(e) => Err(e),
                        Ok(_) => if dests.contains(dest) {
                            Err("two chapters map to the same GitBook path: "@ + dest)
                        } else {
                            outputs_from(es, i + 1, dir, dests.push(dest), acc.push((source, dest)))
                        },
                    }
                },
            },
            _ => outputs_from(es, i + 1, dir, dests, acc),
        }
    }
}

pub open spec fn pair_view(v: Seq<(Vec<char>, Vec<char>)>) -> Seq<(Seq<char>, Seq<char>)> {
    Seq::new(v.len(), |k: int| (v[k].0@, v[k].1@))
}

fn copy_chars(s: &[char]) -> (v: Vec<char>)
    ensures
        v@ == s@,
{
    let v = copy_range(s, 0, s.len());
    proof {
        assert(v@ =~= s@);
    }
    v
}

fn contains_chars(v: &Vec<Vec<char>>, x: &[char]) -> (b: bool)
    ensures
        b == v@.map_values(|p: Vec<char>| p@).contains(x@),
{
    let ghost dv = v@.map_values(|p: Vec<char>| p@);
    let mut k: usize = 0;
    while k < v.len()
        invariant
            k <= v@.len(),
            dv == v@.map_values(|p: Vec<char>| p@),
            forall|j: int| 0 <= j < k ==> dv[j] != x@,
        decreases v@.len() - k,
    {
        if eq_chars(v[k].as_slice(), x) {
            proof {
                assert(dv[k as int] == x@);
            }
            return true;
        }
        k = k + 1;
    }
    false
}

/// Decides where each chapter goes in the mirror (see [`outputs_from`]).
pub fn gitbook_chapter_outputs(entries: &Vec<SummaryEntry>, source_dir: &str) -> (r: Result<
    Vec<(Vec<char>, Vec<char>)>,
    RenderError,
>)
    ensures
        match r {
            Ok(v) => outputs_from(entries_model(entries@), 0, source_dir@, seq![], seq![]) == Ok::<
                Seq<(Seq<char>, Seq<char>)>,
                Seq<char>,
            >(pair_view(v@)),
            Err(e) => outputs_from(entries_model(entries@), 0, source_dir@, seq![], seq![])
                == Err::<Seq<(Seq<char>, Seq<char>)>, Seq<char>>(e@),
        },
{
    let ghost es = entries_model(entries@);
    let dir = chars_of(source_dir);
    let mut out: Vec<(Vec<char>, Vec<char>)> = Vec::new();
    let mut dests: Vec<Vec<char>> = Vec::new();
    let mut i: usize = 0;
    proof {
        assert(pair_view(out@) =~= Seq::<(Seq<char>, Seq<char>)>::empty());
        assert(dests@.map_values(|p: Vec<char>| p@) =~= Seq::<Seq<char>>::empty());
    }
    while i < entries.len()
        invariant
            i <= entries@.len(),
            es == entries_model(entries@),
            dir@ == source_dir@,
            outputs_from(es, 0, source_dir@, seq![], seq![]) == outputs_from(
                es,
                i as int,
                source_dir@,
                dests@.map_values(|p: Vec<char>| p@),
                pair_view(out@),
            ),
        decreases entries@.len() - i,
    {
        match &entries[i] {
            SummaryEntry::Chapter(c) => {
                let src = chars_of(c.source.as_str());
                if !is_within(src.as_slice(), dir.as_slice()) {
                    return Err(RenderError::with_detail(
                        "chapter is outside the book source directory: ",
                        src.as_slice(),
                    ));
                }
                proof {
                    assert(es[i as int] == entry_model(entries@[i as int]));
                    if dir@.len() > 0 && src@ != dir@ {
                        assert(starts_with(src@, dir@));
                        if src@.len() == dir@.len() {
                            assert(src@.subrange(0, dir@.len() as int) =~= src@);
                        }
                        assert(src@.len() > dir@.len());
                    }
                }
                let _n = src.len();
                let rel = if dir.len() == 0 {
                    copy_chars(src.as_slice())
                } else if eq_chars(src.as_slice(), dir.as_slice()) {
                    Vec::new()
                } else if dir[dir.len() - 1] == '/' {
                    copy_range(src.as_slice(), dir.len(), src.len())
                } else {
                    copy_range(src.as_slice(), dir.len() + 1, src.len())
                };
                let index = chars_of("index.md");
                let dest = if eq_chars(rel.as_slice(), index.as_slice()) {
                    chars_of("README.md")
                } else {
                    rel
                };
                match path_to_markdown(dest.as_slice()) {
                    Err(e) => {
                        return Err(e);
                    },
                    Ok(_) => {},
                }
                let ghost dv = dests@.map_values(|p: Vec<char>| p@);
                if contains_chars(&dests, dest.as_slice()) {
                    return Err(RenderError::with_detail(
                        "two chapters map to the same GitBook path: ",
                        dest.as_slice(),
                    ));
                }
                let ghost before = pair_view(out@);
                dests.push(copy_chars(dest.as_slice()));
                out.push((src, dest));
                proof {
                    assert(!dv.contains(dest@));
                    assert(dests@.map_values(|p: Vec<char>| p@) =~= dv.push(dest@));
                    assert(pair_view(out@) =~= before.push((c.source@, dest@)));
                }
            },
            _ => {},
        }
        i = i + 1;
    }
    Ok(out)
}

/// The destination recorded for `source`.
pub open spec fn destination_of(outs: Seq<(Seq<char>, Seq<char>)>, source: Seq<char>) -> Option<
    Seq<char>,
>
    decreases outs.len(),
{
    if outs.len() == 0 {
        None
    } else if outs[0].0 == source {
        Some(outs[0].1)
    } else {
        destination_of(outs.drop_first(), source)
    }
}

/// The mirror's `SUMMARY.md` text for the entries, each followed by a blank line.
pub open spec fn summary_lines(es: Seq<EntryM>, outs: Seq<(Seq<char>, Seq<char>)>) -> Result<
    Seq<char>,
    Seq<char>,
>
    decreases es.len(),
{
    if es.len() == 0 {
        Ok(seq![])
    } else {
        then_ok(
            summary_lines(es.drop_last(), outs),
            match es.last() {
                EntryM::Part(t) => Ok("# "@ + t + "\n\n"@),
                EntryM::Separator => Ok("---\n\n"@),
                EntryM::Chapter { title, source, depth, label } => match destination_of(outs, source) {
                    None => Err("chapter is missing its GitBook summary destination"@),
                    Some(d) => match path_md(d) {
                        Err(e) => Err(e),
                        Ok(p) => Ok(
                            repeat_str("  "@, depth) + "- ["@ + escape_md(title) + "]("@ + p
                                + ")\n\n"@,
                        ),
                    },
                },
            },
        )
    }
}

/// `n` copies of `s`.
pub open spec fn repeat_str(s: Seq<char>, n: nat) -> Seq<char>
    decreases n,
{
    if n == 0 {
        seq![]
    } else {
        repeat_str(s, (n - 1) as nat) + s
    }
}

/// The whole `SUMMARY.md` of the mirror.
pub open spec fn gitbook_summary(es: Seq<EntryM>, outs: Seq<(Seq<char>, Seq<char>)>) -> Result<
    Seq<char>,
    Seq<char>,
> {
    match summary_lines(es, outs) {
        Err(e) => Err(e),
        Ok(b) => Ok("# Summary\n\n"@ + b),
    }
}

proof fn lemma_summary_lines_err(c: Seq<EntryM>, outs: Seq<(Seq<char>, Seq<char>)>, k: int)
    requires
        0 <= k <= c.len(),
        summary_lines(c.take(k), outs) is Err,
    ensures
        summary_lines(c, outs) == summary_lines(c.take(k), outs),
    decreases c.len() - k,
{
    if k < c.len() {
        assert(c.take(k + 1).drop_last() =~= c.take(k));
        lemma_summary_lines_err(c, outs, k + 1);
    } else {
        assert(c.take(k) =~= c);
    }
}

/// The mirror path recorded for the chapter at `source`.
pub fn destination_for(outs: &Vec<(Vec<char>, Vec<char>)>, source: &[char]) -> (r: Option<Vec<char>>)
    ensures
        match r {
            Some(d) => destination_of(pair_view(outs@), source@) == Some(d@),
            None => destination_of(pair_view(outs@), source@) is None,
        },
{
    let ghost pv = pair_view(outs@);
    let mut k: usize = 0;
    proof {
        assert(pv.skip(0) =~= pv);
    }
    while k < outs.len()
        invariant
            k <= outs@.len(),
            pv == pair_view(outs@),
            destination_of(pv, source@) == destination_of(pv.skip(k as int), source@),
        decreases outs@.len() - k,
    {
        proof {
            assert(pv.skip(k as int)[0] == pv[k as int]);
            assert(pv.skip(k as int).drop_first() =~= pv.skip(k + 1));
        }
        if eq_chars(outs[k].0.as_slice(), source) {
            return Some(copy_chars(outs[k].1.as_slice()));
        }
        k = k + 1;
    }
    None
}

/// Writes the mirror's `SUMMARY.md` (see [`gitbook_summary`]).
pub fn render_gitbook_summary(entries: &Vec<SummaryEntry>, outs: &Vec<(Vec<char>, Vec<char>)>) -> (r:
    Result<Vec<char>, RenderError>)
    ensures
        res_view(r) == gitbook_summary(entries_model(entries@), pair_view(outs@)),
{
    let ghost es = entries_model(entries@);
    let mut out: Vec<char> = Vec::new();
    let mut i: usize = 0;
    proof {
        assert(es.take(0) =~= Seq::<EntryM>::empty());
    }
    while i < entries.len()
        invariant
            i <= entries@.len(),
            es == entries_model(entries@),
            summary_lines(es.take(i as int), pair_view(outs@)) == Ok::<Seq<char>, Seq<char>>(out@),
        decreases entries@.len() - i,
    {
        proof {
            assert(es.take(i + 1).drop_last() =~= es.take(i as int));
            assert(es.take(i + 1).last() == entry_model(entries@[i as int]));
        }
        let ghost before = out@;
        match &entries[i] {
            SummaryEntry::Part(t) => {
                push_str(&mut out, "# ");
                push_str(&mut out, t.as_str());
                push_str(&mut out, "\n\n");
                proof {
                    assert(out@ =~= before + ("# "@ + t@ + "\n\n"@));
                }
            },
            SummaryEntry::Separator => {
                push_str(&mut out, "---\n\n");
            },
            SummaryEntry::Chapter(c) => {
                let src = chars_of(c.source.as_str());
                let d = match destination_for(outs, src.as_slice()) {
                    None => {
                        proof {
                            lemma_summary_lines_err(es, pair_view(outs@), i + 1);
                        }
                        return Err(RenderError::new(
                            "chapter is missing its GitBook summary destination",
                        ));
                    },
                    Some(d) => d,
                };
                let p = match path_to_markdown(d.as_slice()) {
                    Err(e) => {
                        proof {
                            lemma_summary_lines_err(es, pair_view(outs@), i + 1);
                        }
                        return Err(e);
                    },
                    Ok(p) => p,
                };
                let mut k: usize = 0;
                let ghost base = out@;
                while k < c.depth
                    invariant
                        k <= c.depth,
                        out@ == base + repeat_str("  "@, k as nat),
                    decreases c.depth - k,
                {
                    push_str(&mut out, "  ");
                    k = k + 1;
                }
                push_str(&mut out, "- [");
                let tc = chars_of(c.title.as_str());
                let et = escape_markdown_text(tc.as_slice());
                push_all(&mut out, et.as_slice());
                push_str(&mut out, "](");
                push_all(&mut out, p.as_slice());
                push_str(&mut out, ")\n\n");
                proof {
                    assert(out@ =~= before + (repeat_str("  "@, c.depth as nat) + "- ["@ + escape_md(
                        c.title@,
                    ) + "]("@ + p@ + ")\n\n"@));
                }
            },
        }
        proof {
            assert(summary_lines(es.take(i + 1), pair_view(outs@)) == Ok::<Seq<char>, Seq<char>>(
                out@,
            ));
        }
        i = i + 1;
    }
    proof {
        assert(es.take(entries@.len() as int) =~= es);
    }
    let mut full: Vec<char> = Vec::new();
    push_str(&mut full, "# Summary\n\n");
    push_all(&mut full, out.as_slice());
    Ok(full)
}

proof fn lemma_outputs_distinct(
    es: Seq<EntryM>,
    i: int,
    dir: Seq<char>,
    dests: Seq<Seq<char>>,
    acc: Seq<(Seq<char>, Seq<char>)>,
)
    requires
        0 <= i,
        dests.no_duplicates(),
        acc.len() == dests.len(),
        forall|k: int| 0 <= k < acc.len() ==> #[trigger] acc[k].1 == dests[k],
    ensures
        outputs_from(es, i, dir, dests, acc) matches Ok(v) ==> forall|a: int, b: int|
            0 <= a < b < v.len() ==> #[trigger] v[a].1 != #[trigger] v[b].1,
    decreases es.len() - i,
{
    if i >= es.len() {
        assert forall|a: int, b: int| 0 <= a < b < acc.len() implies #[trigger] acc[a].1
            != #[trigger] acc[b].1 by {
            assert(acc[a].1 == dests[a] && acc[b].1 == dests[b]);
        }
    } else {
        match es[i] {
            EntryM::Chapter { title, source, depth, label } => match strip_dir(source, dir) {
                None => {},
                Some(rel) => {
                    let dest = if rel == "index.md"@ {
                        "README.md"@
                    } else {
                        rel
                    };
                    if path_md(dest) is Ok && !dests.contains(dest) {
                        let d2 = dests.push(dest);
                        let a2 = acc.push((source, dest));
                        assert forall|x: int, y: int|
                            0 <= x < d2.len() && 0 <= y < d2.len() && x != y implies d2[x]
                            != d2[y] by {
                            if y == dests.len() {
                                assert(d2[x] == dests[x]);
                            } else if x == dests.len() {
                                assert(d2[y] == dests[y]);
                            } else {
                                assert(d2[x] == dests[x] && d2[y] == dests[y]);
                            }
                        }
                        assert forall|k: int| 0 <= k < a2.len() implies #[trigger] a2[k].1 == d2[k] by {
                            if k < acc.len() {
                                assert(a2[k] == acc[k]);
                            }
                        }
                        lemma_outputs_distinct(es, i + 1, dir, d2, a2);
                    }
                },
            },
            _ => {
                lemma_outputs_distinct(es, i + 1, dir, dests, acc);
            },
        }
    }
}

/// No two chapters of the mirror share a path: where the outputs are
/// decided, their destinations are pairwise distinct.
pub proof fn law_mirror_paths_are_distinct(es: Seq<EntryM>, dir: Seq<char>)
    ensures
        outputs_from(es, 0, dir, seq![], seq![]) matches Ok(v) ==> forall|a: int, b: int|
            0 <= a < b < v.len() ==> #[trigger] v[a].1 != #[trigger] v[b].1,
{
    lemma_outputs_distinct(es, 0, dir, seq![], seq![]);
}

/// The mirror's `.gitbook.yaml`: the root, the readme and the summary.
pub open spec fn gitbook_config() -> Seq<char> {
    "root: ./\n\nstructure:\n  readme: README.md\n  summary: SUMMARY.md\n"@
}

/// Writes the mirror's `.gitbook.yaml` (see [`gitbook_config`]).
pub fn gitbook_config_text() -> (r: String)
    ensures
        r@ == gitbook_config(),
{
    String::from_str("root: ./\n\nstructure:\n  readme: README.md\n  summary: SUMMARY.md\n")
}

/// Every line of `x` starts with `>`: its first character and each one
/// after a line feed.
pub open spec fn lines_quoted(x: Seq<char>) -> bool {
    forall|k: int| 0 <= k < x.len() && (k == 0 || x[k - 1] == '\n') ==> #[trigger] x[k] == '>'
}

proof fn lemma_lines_have_no_line_feed(s: Seq<char>, pos: int)
    requires
        0 <= pos,
    ensures
        forall|j: int| 0 <= j < lines_from(s, pos).len() ==> !(#[trigger] lines_from(s, pos)[j]).contains('\n'),
        pos < s.len() ==> lines_from(s, pos).len() > 0,
    decreases s.len() - pos,
{
    reveal_strlit("\n");
    if pos < s.len() {
        lemma_find_from(s, pos, seq!['\n']);
        match find_from(s, pos, seq!['\n']) {
            Some(k) => {
                if pos <= k && k < s.len() {
                    lemma_lines_have_no_line_feed(s, k + 1);
                    let first = s.subrange(pos, k);
                    assert(!first.contains('\n')) by {
                        if first.contains('\n') {
                            let m = choose|m: int| 0 <= m < first.len() && first[m] == '\n';
                            assert(s.subrange(pos + m, pos + m + 1) =~= seq!['\n']);
                            assert(matches_at(s, pos + m, seq!['\n']));
                        }
                    }
                    let f = crate::text::strip_cr(first);
                    assert(!f.contains('\n')) by {
                        if f.contains('\n') {
                            let m = choose|m: int| 0 <= m < f.len() && f[m] == '\n';
                            assert(first[m] == '\n');
                        }
                    }
                    let all = lines_from(s, pos);
                    assert(all == seq![f] + lines_from(s, k + 1));
                    assert forall|j: int| 0 <= j < all.len() implies !(#[trigger] all[j]).contains('\n') by {
                        if j > 0 {
                            assert(all[j] == lines_from(s, k + 1)[j - 1]);
                        }
                    }
                }
            },
            None => {
                let rest = s.subrange(pos, s.len() as int);
                assert(!rest.contains('\n')) by {
                    if rest.contains('\n') {
                        let m = choose|m: int| 0 <= m < rest.len() && rest[m] == '\n';
                        assert(s.subrange(pos + m, pos + m + 1) =~= seq!['\n']);
                        assert(matches_at(s, pos + m, seq!['\n']));
                    }
                }
            },
        }
    }
}

proof fn lemma_quoted_concat(a: Seq<char>, b: Seq<char>)
    requires
        lines_quoted(a),
        a.len() == 0 || a.last() == '\n',
        lines_quoted(b),
    ensures
        lines_quoted(a + b),
{
    let s = a + b;
    assert forall|k: int| 0 <= k < s.len() && (k == 0 || s[k - 1] == '\n') implies #[trigger] s[k] == '>' by {
        if k < a.len() {
            assert(s[k] == a[k]);
            if k > 0 {
                assert(s[k - 1] == a[k - 1]);
            }
        } else {
            let j = k - a.len();
            assert(s[k] == b[j]);
            if j > 0 {
                assert(s[k - 1] == b[j - 1]);
            }
        }
    }
}

proof fn lemma_quoted_piece(h: Seq<char>)
    requires
        h.len() > 0,
        h[0] == '>',
        !h.contains('\n'),
    ensures
        lines_quoted(h + "\n"@),
{
    reveal_strlit("\n");
    let s = h + "\n"@;
    assert forall|k: int| 0 <= k < s.len() && (k == 0 || s[k - 1] == '\n') implies #[trigger] s[k] == '>' by {
        if k > 0 {
            assert(s[k - 1] == h[k - 1]);
            assert(h.contains(h[k - 1]));
        }
    }
}

/// The text of one quoted line before its line feed.
spec fn quoted_line(l: Seq<char>) -> Seq<char> {
    if l.len() == 0 {
        trim_end("> "@)
    } else {
        "> "@ + l
    }
}

proof fn lemma_quoted_line(l: Seq<char>)
    requires
        !l.contains('\n'),
    ensures
        quoted_line(l).len() > 0,
        quoted_line(l)[0] == '>',
        !quoted_line(l).contains('\n'),
{
    reveal_strlit("> ");
    reveal_strlit(">");
    let p = "> "@;
    if l.len() == 0 {
        assert(crate::text::ws_run_start(p, 1) == 1);
        assert(crate::text::ws_run_start(p, 2) == 1);
        assert(trim_end(p) =~= ">"@);
    } else {
        let h = p + l;
        assert(!h.contains('\n')) by {
            if h.contains('\n') {
                let m = choose|m: int| 0 <= m < h.len() && h[m] == '\n';
                if m >= 2 {
                    assert(h[m] == l[m - 2]);
                    assert(l.contains(l[m - 2]));
                }
            }
        }
    }
}

proof fn lemma_prefix_each_quoted(ls: Seq<Seq<char>>)
    requires
        forall|j: int| 0 <= j < ls.len() ==> !(#[trigger] ls[j]).contains('\n'),
    ensures
        lines_quoted(prefix_each(ls, "> "@)),
        prefix_each(ls, "> "@).len() == 0 || prefix_each(ls, "> "@).last() == '\n',
        ls.len() > 0 ==> prefix_each(ls, "> "@).len() > 0,
    decreases ls.len(),
{
    if ls.len() > 0 {
        let init = ls.drop_last();
        assert forall|j: int| 0 <= j < init.len() implies !(#[trigger] init[j]).contains('\n') by {
            assert(init[j] == ls[j]);
        }
        lemma_prefix_each_quoted(init);
        let l = ls.last();
        assert(l == ls[ls.len() - 1]);
        let p = "> "@;
        let h = quoted_line(l);
        lemma_quoted_line(l);
        lemma_quoted_piece(h);
        let a = prefix_each(init, p);
        lemma_quoted_concat(a, h + "\n"@);
        assert(prefix_each(ls, p) == a + h + "\n"@);
        assert(a + h + "\n"@ =~= a + (h + "\n"@));
        reveal_strlit("\n");
        assert((a + (h + "\n"@)).last() == '\n');
    }
}

/// A block quote stays a quote in the mirror: it renders exactly when its
/// content renders, every line of it starts with `>`, each line ends with a
/// line feed, and content with any visible text gives a non-empty quote.
pub proof fn law_quote_lines_are_quoted(c: Seq<BlockM>, env: GEnvM)
    ensures
        md_block(BlockM::Quote(c), env) is Ok <==> md_blocks(c, env) is Ok,
        md_block(BlockM::Quote(c), env) matches Ok(x) ==> lines_quoted(x) && (x.len() == 0
            || x.last() == '\n'),
        md_blocks(c, env) matches Ok(y) ==> (trim_end(y).len() > 0 ==> md_block(
            BlockM::Quote(c),
            env,
        )->Ok_0.len() > 0),
{
    if let Ok(y) = md_blocks(c, env) {
        let ls = lines(trim_end(y));
        lemma_lines_have_no_line_feed(trim_end(y), 0);
        lemma_prefix_each_quoted(ls);
    }
}

} // verus!
