//! Renders the Markdown tree as Typst source.
use vstd::prelude::*;

use crate::book::RenderError;
use crate::markdown::{
    Block, BlockM, Inline, InlineM, ListItem, block_model, blocks_model, cells_model,
    inline_model, inlines_model, items_model, lemma_blocks_model_index, lemma_blocks_model_len,
    lemma_cells_model_index, lemma_cells_model_len, lemma_inlines_model_index,
    lemma_inlines_model_len, lemma_items_model_index, lemma_items_model_len,
    lemma_rows_model_index, lemma_rows_model_len, rows_model,
};
use crate::text::{
    chars_of, copy_all, decimal, decimal_exec, decimal_wide, eq_chars, find_from, find_from_exec, hex, hex_exec,
    lemma_find_from, push_all, push_str, starts_with, starts_with_exec, string_of, trim, trimmed,
};

verus! {

/// A control character (general category `Cc`), as `char::is_control` documents it.
pub open spec fn is_cc(c: char) -> bool {
    c <= '\u{1F}' || ('\u{7F}' <= c && c <= '\u{9F}')
}

/// The escape of one character inside a Typst string literal.
pub open spec fn escape_char(c: char) -> Seq<char> {
    if c == '\\' {
        seq!['\\', '\\']
    } else if c == '"' {
        seq!['\\', '"']
    } else if c == '\n' {
        seq!['\\', 'n']
    } else if c == '\r' {
        seq!['\\', 'r']
    } else if c == '\t' {
        seq!['\\', 't']
    } else if is_cc(c) {
        seq!['\\', 'u', '{'] + hex(c as nat) + seq!['}']
    } else {
        seq![c]
    }
}

/// `s` escaped for a Typst string literal.
pub open spec fn escape_typst(s: Seq<char>) -> Seq<char>
    decreases s.len(),
{
    if s.len() == 0 {
        seq![]
    } else {
        escape_typst(s.drop_last()) + escape_char(s.last())
    }
}

fn char_to_u32(c: char) -> (n: u32)
    ensures
        n as nat == c as nat,
{
    c as u32
}

/// Escapes text for a Typst string literal.
pub fn escape_typst_string(s: &[char]) -> (r: Vec<char>)
    ensures
        r@ == escape_typst(s@),
{
    let mut out: Vec<char> = Vec::new();
    let mut i: usize = 0;
    while i < s.len()
        invariant
            i <= s@.len(),
            out@ == escape_typst(s@.take(i as int)),
        decreases s@.len() - i,
    {
        let c = s[i];
        proof {
            assert(s@.take(i + 1).drop_last() =~= s@.take(i as int));
        }
        let ghost before = out@;
        if c == '\\' {
            out.push('\\');
            out.push('\\');
        } else if c == '"' {
            out.push('\\');
            out.push('"');
        } else if c == '\n' {
            out.push('\\');
            out.push('n');
        } else if c == '\r' {
            out.push('\\');
            out.push('r');
        } else if c == '\t' {
            out.push('\\');
            out.push('t');
        } else if c <= '\u{1F}' || ('\u{7F}' <= c && c <= '\u{9F}') {
            out.push('\\');
            out.push('u');
            out.push('{');
            let h = hex_exec(char_to_u32(c));
            push_all(&mut out, h.as_slice());
            out.push('}');
        } else {
            out.push(c);
        }
        proof {
            assert(out@ =~= before + escape_char(c));
        }
        i = i + 1;
    }
    proof {
        assert(s@.take(s@.len() as int) =~= s@);
    }
    out
}

/// How a link target was resolved for Typst.
pub enum ResolvedLink {
    External(String),
    Internal(String),
}

/// One precomputed answer of the renderer's surroundings: a link target or
/// image path, and what it resolved to.
pub struct Resolution {
    pub key: String,
    pub value: Result<String, RenderError>,
}

pub open spec fn resolution_model(r: Resolution) -> (Seq<char>, Result<Seq<char>, Seq<char>>) {
    (
        r.key@,
        match r.value {
            Ok(v) => Ok(v@),
            Err(e) => Err(e@),
        },
    )
}

pub open spec fn resolutions_model(v: Seq<Resolution>) -> Seq<
    (Seq<char>, Result<Seq<char>, Seq<char>>),
> {
    Seq::new(v.len(), |k: int| resolution_model(v[k]))
}

/// The first answer recorded for `key`.
pub open spec fn lookup(table: Seq<(Seq<char>, Result<Seq<char>, Seq<char>>)>, key: Seq<char>) -> Option<
    Result<Seq<char>, Seq<char>>,
>
    decreases table.len(),
{
    if table.len() == 0 {
        None
    } else if table[0].0 == key {
        Some(table[0].1)
    } else {
        lookup(table.drop_first(), key)
    }
}

/// What the renderer knows of the chapter it renders.
///
/// A Markdown fragment has no chapter: its links stay external and its
/// images are refused. For a chapter of the book, the local links and images
/// have been resolved against the file system beforehand, in rendering order.
pub struct RenderEnvironment {
    pub in_chapter: bool,
    pub has_project_root: bool,
    pub has_assets: bool,
    pub current_label: Result<String, RenderError>,
    pub links: Vec<Resolution>,
    pub images: Vec<Resolution>,
}

/// The model of a [`RenderEnvironment`].
pub struct EnvM {
    pub in_chapter: bool,
    pub has_project_root: bool,
    pub has_assets: bool,
    pub current_label: Result<Seq<char>, Seq<char>>,
    pub links: Seq<(Seq<char>, Result<Seq<char>, Seq<char>>)>,
    pub images: Seq<(Seq<char>, Result<Seq<char>, Seq<char>>)>,
}

pub open spec fn env_model(e: RenderEnvironment) -> EnvM {
    EnvM {
        in_chapter: e.in_chapter,
        has_project_root: e.has_project_root,
        has_assets: e.has_assets,
        current_label: match e.current_label {
            Ok(v) => Ok(v@),
            Err(x) => Err(x@),
        },
        links: resolutions_model(e.links@),
        images: resolutions_model(e.images@),
    }
}

/// A target outside the book.
pub open spec fn remote(t: Seq<char>) -> bool {
    starts_with(t, "http://"@) || starts_with(t, "https://"@) || starts_with(t, "data:"@)
}

pub fn is_remote_target(t: &[char]) -> (b: bool)
    ensures
        b == remote(t@),
{
    let a = chars_of("http://");
    let b = chars_of("https://");
    let c = chars_of("data:");
    starts_with_exec(t, a.as_slice()) || starts_with_exec(t, b.as_slice()) || starts_with_exec(
        t,
        c.as_slice(),
    )
}

/// `(External, destination)` or `(Internal, label)`.
pub open spec fn resolve_link_spec(target: Seq<char>, env: EnvM) -> Result<(bool, Seq<char>), Seq<char>> {
    if remote(target) || starts_with(target, "mailto:"@) || !env.in_chapter {
        Ok((true, target))
    } else if !env.has_project_root {
        Err("local links require a project root"@)
    } else if starts_with(target, "#"@) {
        match env.current_label {
            Ok(l) => Ok((false, l)),
            Err(e) => Err(e),
        }
    } else {
        match find_from(target, 0, "#"@) {
            Some(k) => if k + 1 < target.len() {
                Err("heading-fragment links are not yet supported in PDF output: "@ + target)
            } else {
                local_label(target, env)
            },
            None => local_label(target, env),
        }
    }
}

pub open spec fn local_label(target: Seq<char>, env: EnvM) -> Result<(bool, Seq<char>), Seq<char>> {
    match lookup(env.links, target) {
        Some(Ok(l)) => Ok((false, l)),
        Some(Err(e)) => Err(e),
        None => Err("local Markdown link does not target a chapter in SUMMARY.md: "@ + target),
    }
}

/// The Typst text of inline content.
pub open spec fn typst_inlines(c: Seq<InlineM>, env: EnvM) -> Result<Seq<char>, Seq<char>>
    decreases c,
{
    if c.len() == 0 {
        Ok(seq![])
    } else {
        match typst_inlines(c.drop_last(), env) {
            Err(e) => Err(e),
            Ok(a) => match typst_inline(c.last(), env) {
                Err(e) => Err(e),
                Ok(b) => Ok(a + b),
            },
        }
    }
}

pub open spec fn wrap(prefix: Seq<char>, inner: Result<Seq<char>, Seq<char>>, suffix: Seq<char>) -> Result<
    Seq<char>,
    Seq<char>,
> {
    match inner {
        Err(e) => Err(e),
        Ok(x) => Ok(prefix + x + suffix),
    }
}

pub open spec fn typst_inline(x: InlineM, env: EnvM) -> Result<Seq<char>, Seq<char>>
    decreases x,
{
    match x {
        InlineM::Text(v) => Ok("#text(\""@ + escape_typst(v) + "\")"@),
        InlineM::Strong(c) => wrap("#strong(["@, typst_inlines(c, env), "])"@),
        InlineM::Emphasis(c) => wrap("#emph(["@, typst_inlines(c, env), "])"@),
        InlineM::Strike(c) => wrap("#strike-text(["@, typst_inlines(c, env), "])"@),
        InlineM::Code(v) => Ok("#inline-code(\""@ + escape_typst(v) + "\")"@),
        InlineM::Term(c) => wrap("#term(["@, typst_inlines(c, env), "])"@),
        InlineM::Link { target, content } => match typst_inlines(content, env) {
            Err(e) => Err(e),
            Ok(body) => match resolve_link_spec(target, env) {
                Err(e) => Err(e),
                Ok((external, d)) => if external {
                    Ok("#book-link(\""@ + escape_typst(d) + "\", ["@ + body + "])"@)
                } else {
                    Ok("#book-ref(<"@ + d + ">, ["@ + body + "])"@)
                },
            },
        },
        InlineM::Break => Ok("#linebreak()"@),
    }
}

pub open spec fn chars_res(r: Result<Vec<char>, RenderError>) -> Result<Seq<char>, Seq<char>> {
    match r {
        Ok(v) => Ok(v@),
        Err(e) => Err(e@),
    }
}

pub fn lookup_resolution(table: &Vec<Resolution>, key: &[char]) -> (r: Option<Result<String, RenderError>>)
    ensures
        match r {
            None => lookup(resolutions_model(table@), key@) is None,
            Some(Ok(v)) => lookup(resolutions_model(table@), key@) == Some(
                Ok::<Seq<char>, Seq<char>>(v@),
            ),
            Some(Err(e)) => lookup(resolutions_model(table@), key@) == Some(
                Err::<Seq<char>, Seq<char>>(e@),
            ),
        },
{
    let mut k: usize = 0;
    proof {
        assert(resolutions_model(table@).skip(0) =~= resolutions_model(table@));
    }
    while k < table.len()
        invariant
            k <= table@.len(),
            lookup(resolutions_model(table@), key@) == lookup(
                resolutions_model(table@).skip(k as int),
                key@,
            ),
        decreases table@.len() - k,
    {
        let kc = chars_of(table[k].key.as_str());
        proof {
            let t = resolutions_model(table@).skip(k as int);
            assert(t[0] == resolution_model(table@[k as int]));
            assert(t.drop_first() =~= resolutions_model(table@).skip(k + 1));
        }
        if eq_chars(kc.as_slice(), key) {
            return match &table[k].value {
                Ok(v) => Some(Ok(v.clone())),
                Err(e) => Some(Err(e.clone_error())),
            };
        }
        k = k + 1;
    }
    proof {
        assert(resolutions_model(table@).skip(table@.len() as int).len() == 0);
    }
    None
}

/// Resolves a link target (see [`resolve_link_spec`]).
pub fn resolve_link(target: &[char], env: &RenderEnvironment) -> (r: Result<ResolvedLink, RenderError>)
    ensures
        match r {
            Ok(ResolvedLink::External(d)) => resolve_link_spec(target@, env_model(*env)) == Ok::<
                (bool, Seq<char>),
                Seq<char>,
            >((true, d@)),
            Ok(ResolvedLink::Internal(l)) => resolve_link_spec(target@, env_model(*env)) == Ok::<
                (bool, Seq<char>),
                Seq<char>,
            >((false, l@)),
            Err(e) => resolve_link_spec(target@, env_model(*env)) == Err::<
                (bool, Seq<char>),
                Seq<char>,
            >(e@),
        },
{
    proof {
        reveal_strlit("#");
    }
    let mailto = chars_of("mailto:");
    if is_remote_target(target) || starts_with_exec(target, mailto.as_slice()) || !env.in_chapter {
        return Ok(ResolvedLink::External(string_of(target)));
    }
    if !env.has_project_root {
        return Err(RenderError::new("local links require a project root"));
    }
    let hash = chars_of("#");
    if starts_with_exec(target, hash.as_slice()) {
        return match &env.current_label {
            Ok(l) => Ok(ResolvedLink::Internal(l.clone())),
            Err(e) => Err(e.clone_error()),
        };
    }
    match find_from_exec(target, 0, hash.as_slice()) {
        Some(k) => {
            proof {
                lemma_find_from(target@, 0, "#"@);
                assert(hash@ == "#"@);
                assert("#"@.len() == 1);
                assert(k < target@.len());
            }
            let n = target.len();
            if k + 1 < n {
                return Err(
                    RenderError::with_detail(
                        "heading-fragment links are not yet supported in PDF output: ",
                        target,
                    ),
                );
            }
        },
        None => {},
    }
    match lookup_resolution(&env.links, target) {
        Some(Ok(l)) => Ok(ResolvedLink::Internal(l)),
        Some(Err(e)) => Err(e),
        None => Err(
            RenderError::with_detail(
                "local Markdown link does not target a chapter in SUMMARY.md: ",
                target,
            ),
        ),
    }
}

fn wrap_exec(prefix: &str, inner: Result<Vec<char>, RenderError>, suffix: &str) -> (r: Result<
    Vec<char>,
    RenderError,
>)
    ensures
        chars_res(r) == wrap(prefix@, chars_res(inner), suffix@),
{
    match inner {
        Err(e) => Err(e),
        Ok(x) => {
            let mut out: Vec<char> = Vec::new();
            push_str(&mut out, prefix);
            push_all(&mut out, x.as_slice());
            push_str(&mut out, suffix);
            Ok(out)
        },
    }
}

/// Renders inline content as Typst.
pub fn render_inlines(content: &[Inline], env: &RenderEnvironment) -> (r: Result<
    Vec<char>,
    RenderError,
>)
    ensures
        chars_res(r) == typst_inlines(inlines_model(content@), env_model(*env)),
    decreases content@,
{
    let ghost m = inlines_model(content@);
    let mut out: Vec<char> = Vec::new();
    let mut i: usize = 0;
    proof {
        lemma_inlines_model_len(content@);
        assert(m.take(0) =~= Seq::<InlineM>::empty());
    }
    while i < content.len()
        invariant
            i <= content@.len(),
            m == inlines_model(content@),
            m.len() == content@.len(),
            typst_inlines(m.take(i as int), env_model(*env)) == Ok::<Seq<char>, Seq<char>>(out@),
        decreases content@.len() - i,
    {
        proof {
            lemma_inlines_model_index(content@, i as int);
            assert(m.take(i + 1).drop_last() =~= m.take(i as int));
        }
        let piece = render_inline(&content[i], env);
        match piece {
            Err(e) => {
                proof {
                    lemma_typst_inlines_err(m, i + 1, env_model(*env));
                }
                return Err(e);
            },
            Ok(p) => {
                push_all(&mut out, p.as_slice());
                i = i + 1;
            },
        }
    }
    proof {
        assert(m.take(content@.len() as int) =~= m);
    }
    Ok(out)
}

proof fn lemma_typst_inlines_err(c: Seq<InlineM>, k: int, env: EnvM)
    requires
        0 <= k <= c.len(),
        typst_inlines(c.take(k), env) is Err,
    ensures
        typst_inlines(c, env) == typst_inlines(c.take(k), env),
    decreases c.len() - k,
{
    if k < c.len() {
        assert(c.take(k + 1).drop_last() =~= c.take(k));
        lemma_typst_inlines_err(c, k + 1, env);
    } else {
        assert(c.take(k) =~= c);
    }
}

fn render_inline(x: &Inline, env: &RenderEnvironment) -> (r: Result<Vec<char>, RenderError>)
    ensures
        chars_res(r) == typst_inline(inline_model(*x), env_model(*env)),
    decreases x,
{
    match x {
        Inline::Text(v) => {
            let mut out: Vec<char> = Vec::new();
            push_str(&mut out, "#text(\"");
            let vc = chars_of(v.as_str());
            let e = escape_typst_string(vc.as_slice());
            push_all(&mut out, e.as_slice());
            push_str(&mut out, "\")");
            Ok(out)
        },
        Inline::Strong(c) => wrap_exec("#strong([", render_inlines(c.as_slice(), env), "])"),
        Inline::Emphasis(c) => wrap_exec("#emph([", render_inlines(c.as_slice(), env), "])"),
        Inline::Strike(c) => wrap_exec("#strike-text([", render_inlines(c.as_slice(), env), "])"),
        Inline::Code(v) => {
            let mut out: Vec<char> = Vec::new();
            push_str(&mut out, "#inline-code(\"");
            let vc = chars_of(v.as_str());
            let e = escape_typst_string(vc.as_slice());
            push_all(&mut out, e.as_slice());
            push_str(&mut out, "\")");
            Ok(out)
        },
        Inline::Term(c) => wrap_exec("#term([", render_inlines(c.as_slice(), env), "])"),
        Inline::Link { target, content } => {
            let body = match render_inlines(content.as_slice(), env) {
                Err(e) => {
                    return Err(e);
                },
                Ok(b) => b,
            };
            let tc = chars_of(target.as_str());
            match resolve_link(tc.as_slice(), env) {
                Err(e) => Err(e),
                Ok(ResolvedLink::External(d)) => {
                    let mut out: Vec<char> = Vec::new();
                    push_str(&mut out, "#book-link(\"");
                    let dc = chars_of(d.as_str());
                    let e = escape_typst_string(dc.as_slice());
                    push_all(&mut out, e.as_slice());
                    push_str(&mut out, "\", [");
                    push_all(&mut out, body.as_slice());
                    push_str(&mut out, "])");
                    Ok(out)
                },
                Ok(ResolvedLink::Internal(l)) => {
                    let mut out: Vec<char> = Vec::new();
                    push_str(&mut out, "#book-ref(<");
                    push_str(&mut out, l.as_str());
                    push_str(&mut out, ">, [");
                    push_all(&mut out, body.as_slice());
                    push_str(&mut out, "])");
                    Ok(out)
                },
            }
        },
        Inline::Break => {
            let mut out: Vec<char> = Vec::new();
            push_str(&mut out, "#linebreak()");
            Ok(out)
        },
    }
}

/// Appends `tail` to a successful result.
pub open spec fn then_ok(r: Result<Seq<char>, Seq<char>>, tail: Result<Seq<char>, Seq<char>>) -> Result<
    Seq<char>,
    Seq<char>,
> {
    match r {
        Err(e) => Err(e),
        Ok(a) => match tail {
            Err(e) => Err(e),
            Ok(b) => Ok(a + b),
        },
    }
}

/// The Typst text of a sequence of blocks.
pub open spec fn typst_blocks(bs: Seq<BlockM>, env: EnvM) -> Result<Seq<char>, Seq<char>>
    decreases bs,
{
    if bs.len() == 0 {
        Ok(seq![])
    } else {
        then_ok(typst_blocks(bs.drop_last(), env), typst_block(bs.last(), env))
    }
}

/// The Typst items of a list: each item's blocks in `[` ... `],`.
pub open spec fn typst_items(items: Seq<Seq<BlockM>>, env: EnvM) -> Result<Seq<char>, Seq<char>>
    decreases items,
{
    if items.len() == 0 {
        Ok(seq![])
    } else {
        then_ok(
            typst_items(items.drop_last(), env),
            wrap("[\n"@, typst_blocks(items.last(), env), "],"@),
        )
    }
}

/// The header cells of a table, each in bold.
pub open spec fn typst_header(cells: Seq<Seq<InlineM>>, env: EnvM) -> Result<Seq<char>, Seq<char>>
    decreases cells.len(),
{
    if cells.len() == 0 {
        Ok(seq![])
    } else {
        then_ok(
            typst_header(cells.drop_last(), env),
            wrap("[#strong(["@, typst_inlines(cells.last(), env), "])],"@),
        )
    }
}

/// The cells of one body row.
pub open spec fn typst_cells(cells: Seq<Seq<InlineM>>, env: EnvM) -> Result<Seq<char>, Seq<char>>
    decreases cells.len(),
{
    if cells.len() == 0 {
        Ok(seq![])
    } else {
        then_ok(
            typst_cells(cells.drop_last(), env),
            wrap("["@, typst_inlines(cells.last(), env), "],"@),
        )
    }
}

/// The body rows of a table with `columns` columns.
pub open spec fn typst_rows(rows: Seq<Seq<Seq<InlineM>>>, columns: nat, env: EnvM) -> Result<
    Seq<char>,
    Seq<char>,
>
    decreases rows.len(),
{
    if rows.len() == 0 {
        Ok(seq![])
    } else {
        then_ok(
            typst_rows(rows.drop_last(), columns, env),
            if rows.last().len() != columns {
                Err("table row has a different column count from its header"@)
            } else {
                typst_cells(rows.last(), env)
            },
        )
    }
}

/// The Typst text of an image block.
pub open spec fn typst_image(alt: Seq<char>, path: Seq<char>, caption: Option<Seq<char>>, env: EnvM) -> Result<
    Seq<char>,
    Seq<char>,
> {
    if remote(path) {
        Err("remote image must be vendored: "@ + path)
    } else if trim(alt).len() == 0 {
        Err("local image must have non-empty alt text"@)
    } else if !env.in_chapter {
        Err("images require a chapter source path"@)
    } else if !env.has_assets {
        Err("images require the complete book renderer"@)
    } else {
        match lookup(env.images, path) {
            None => Err("local image was not registered: "@ + path),
            Some(Err(e)) => Err(e),
            Some(Ok(published)) => Ok(
                "#book-image(\""@ + escape_typst(published) + "\", \""@ + escape_typst(alt)
                    + "\", caption: [#text(\""@ + escape_typst(
                    match caption {
                        Some(c) => c,
                        None => alt,
                    },
                ) + "\")])\n"@,
            ),
        }
    }
}

/// The Typst text of one block.
pub open spec fn typst_block(b: BlockM, env: EnvM) -> Result<Seq<char>, Seq<char>>
    decreases b,
{
    match b {
        BlockM::Heading { level, content } => wrap(
            "#section(["@,
            typst_inlines(content, env),
            "], level: "@ + decimal(level + 1) + ")\n"@,
        ),
        BlockM::Paragraph(c) => wrap("#prose(["@, typst_inlines(c, env), "])\n"@),
        BlockM::Code { language, source } => Ok(
            "#code-block(\""@ + escape_typst(language) + "\", \""@ + escape_typst(source)
                + "\")\n"@,
        ),
        BlockM::BulletList(items) => wrap("#bullet-list(("@, typst_items(items, env), "))\n"@),
        BlockM::OrderedList { start, items } => wrap(
            "#ordered-list("@ + decimal(start) + ", ("@,
            typst_items(items, env),
            "))\n"@,
        ),
        BlockM::Quote(c) => wrap("#quote-block([\n"@, typst_blocks(c, env), "])\n"@),
        BlockM::Card(c) => wrap("#card([\n"@, typst_blocks(c, env), "])\n"@),
        BlockM::CardLabel(c) => wrap("#card-label(["@, typst_inlines(c, env), "])\n"@),
        BlockM::Table { header, rows } => if header.len() == 0 {
            Err("table must have at least one column"@)
        } else {
            wrap(
                "#book-table("@ + decimal(header.len()) + ", ("@,
                then_ok(typst_header(header, env), typst_rows(rows, header.len(), env)),
                "))\n"@,
            )
        },
        BlockM::Image { alt, path, caption } => typst_image(alt, path, caption, env),
        BlockM::Rule => Ok("#thematic-break()\n"@),
    }
}

proof fn lemma_typst_blocks_err(c: Seq<BlockM>, k: int, env: EnvM)
    requires
        0 <= k <= c.len(),
        typst_blocks(c.take(k), env) is Err,
    ensures
        typst_blocks(c, env) == typst_blocks(c.take(k), env),
    decreases c.len() - k,
{
    if k < c.len() {
        assert(c.take(k + 1).drop_last() =~= c.take(k));
        lemma_typst_blocks_err(c, k + 1, env);
    } else {
        assert(c.take(k) =~= c);
    }
}

proof fn lemma_typst_items_err(c: Seq<Seq<BlockM>>, k: int, env: EnvM)
    requires
        0 <= k <= c.len(),
        typst_items(c.take(k), env) is Err,
    ensures
        typst_items(c, env) == typst_items(c.take(k), env),
    decreases c.len() - k,
{
    if k < c.len() {
        assert(c.take(k + 1).drop_last() =~= c.take(k));
        lemma_typst_items_err(c, k + 1, env);
    } else {
        assert(c.take(k) =~= c);
    }
}

proof fn lemma_typst_header_err(c: Seq<Seq<InlineM>>, k: int, env: EnvM)
    requires
        0 <= k <= c.len(),
        typst_header(c.take(k), env) is Err,
    ensures
        typst_header(c, env) == typst_header(c.take(k), env),
    decreases c.len() - k,
{
    if k < c.len() {
        assert(c.take(k + 1).drop_last() =~= c.take(k));
        lemma_typst_header_err(c, k + 1, env);
    } else {
        assert(c.take(k) =~= c);
    }
}

proof fn lemma_typst_cells_err(c: Seq<Seq<InlineM>>, k: int, env: EnvM)
    requires
        0 <= k <= c.len(),
        typst_cells(c.take(k), env) is Err,
    ensures
        typst_cells(c, env) == typst_cells(c.take(k), env),
    decreases c.len() - k,
{
    if k < c.len() {
        assert(c.take(k + 1).drop_last() =~= c.take(k));
        lemma_typst_cells_err(c, k + 1, env);
    } else {
        assert(c.take(k) =~= c);
    }
}

proof fn lemma_typst_rows_err(c: Seq<Seq<Seq<InlineM>>>, n: nat, k: int, env: EnvM)
    requires
        0 <= k <= c.len(),
        typst_rows(c.take(k), n, env) is Err,
    ensures
        typst_rows(c, n, env) == typst_rows(c.take(k), n, env),
    decreases c.len() - k,
{
    if k < c.len() {
        assert(c.take(k + 1).drop_last() =~= c.take(k));
        lemma_typst_rows_err(c, n, k + 1, env);
    } else {
        assert(c.take(k) =~= c);
    }
}

/// Renders blocks as Typst.
pub fn render_blocks(blocks: &[Block], env: &RenderEnvironment) -> (r: Result<
    Vec<char>,
    RenderError,
>)
    ensures
        chars_res(r) == typst_blocks(blocks_model(blocks@), env_model(*env)),
    decreases blocks@,
{
    let ghost m = blocks_model(blocks@);
    let mut out: Vec<char> = Vec::new();
    let mut i: usize = 0;
    proof {
        lemma_blocks_model_len(blocks@);
        assert(m.take(0) =~= Seq::<BlockM>::empty());
    }
    while i < blocks.len()
        invariant
            i <= blocks@.len(),
            m == blocks_model(blocks@),
            m.len() == blocks@.len(),
            typst_blocks(m.take(i as int), env_model(*env)) == Ok::<Seq<char>, Seq<char>>(out@),
        decreases blocks@.len() - i,
    {
        proof {
            lemma_blocks_model_index(blocks@, i as int);
            assert(m.take(i + 1).drop_last() =~= m.take(i as int));
        }
        let piece = render_block(&blocks[i], env);
        match piece {
            Err(e) => {
                proof {
                    lemma_typst_blocks_err(m, i + 1, env_model(*env));
                }
                return Err(e);
            },
            Ok(p) => {
                push_all(&mut out, p.as_slice());
                i = i + 1;
            },
        }
    }
    proof {
        assert(m.take(blocks@.len() as int) =~= m);
    }
    Ok(out)
}

/// Renders the items of a list.
fn render_items(items: &[ListItem], env: &RenderEnvironment) -> (r: Result<
    Vec<char>,
    RenderError,
>)
    ensures
        chars_res(r) == typst_items(items_model(items@), env_model(*env)),
    decreases items@,
{
    let ghost m = items_model(items@);
    let mut out: Vec<char> = Vec::new();
    let mut i: usize = 0;
    proof {
        lemma_items_model_len(items@);
        assert(m.take(0) =~= Seq::<Seq<BlockM>>::empty());
    }
    while i < items.len()
        invariant
            i <= items@.len(),
            m == items_model(items@),
            m.len() == items@.len(),
            typst_items(m.take(i as int), env_model(*env)) == Ok::<Seq<char>, Seq<char>>(out@),
        decreases items@.len() - i,
    {
        proof {
            lemma_items_model_index(items@, i as int);
            assert(m.take(i + 1).drop_last() =~= m.take(i as int));
        }
        let piece = wrap_exec("[\n", render_blocks(items[i].blocks.as_slice(), env), "],");
        match piece {
            Err(e) => {
                proof {
                    lemma_typst_items_err(m, i + 1, env_model(*env));
                }
                return Err(e);
            },
            Ok(p) => {
                push_all(&mut out, p.as_slice());
                i = i + 1;
            },
        }
    }
    proof {
        assert(m.take(items@.len() as int) =~= m);
    }
    Ok(out)
}

/// Renders the header cells of a table.
fn render_header(cells: &[Vec<Inline>], env: &RenderEnvironment) -> (r: Result<
    Vec<char>,
    RenderError,
>)
    ensures
        chars_res(r) == typst_header(cells_model(cells@), env_model(*env)),
{
    let ghost m = cells_model(cells@);
    let mut out: Vec<char> = Vec::new();
    let mut i: usize = 0;
    proof {
        lemma_cells_model_len(cells@);
        assert(m.take(0) =~= Seq::<Seq<InlineM>>::empty());
    }
    while i < cells.len()
        invariant
            i <= cells@.len(),
            m == cells_model(cells@),
            m.len() == cells@.len(),
            typst_header(m.take(i as int), env_model(*env)) == Ok::<Seq<char>, Seq<char>>(out@),
        decreases cells@.len() - i,
    {
        proof {
            lemma_cells_model_index(cells@, i as int);
            assert(m.take(i + 1).drop_last() =~= m.take(i as int));
        }
        let piece = wrap_exec("[#strong([", render_inlines(cells[i].as_slice(), env), "])],");
        match piece {
            Err(e) => {
                proof {
                    lemma_typst_header_err(m, i + 1, env_model(*env));
                }
                return Err(e);
            },
            Ok(p) => {
                push_all(&mut out, p.as_slice());
                i = i + 1;
            },
        }
    }
    proof {
        assert(m.take(cells@.len() as int) =~= m);
    }
    Ok(out)
}

/// Renders the cells of one body row.
fn render_cells(cells: &[Vec<Inline>], env: &RenderEnvironment) -> (r: Result<
    Vec<char>,
    RenderError,
>)
    ensures
        chars_res(r) == typst_cells(cells_model(cells@), env_model(*env)),
{
    let ghost m = cells_model(cells@);
    let mut out: Vec<char> = Vec::new();
    let mut i: usize = 0;
    proof {
        lemma_cells_model_len(cells@);
        assert(m.take(0) =~= Seq::<Seq<InlineM>>::empty());
    }
    while i < cells.len()
        invariant
            i <= cells@.len(),
            m == cells_model(cells@),
            m.len() == cells@.len(),
            typst_cells(m.take(i as int), env_model(*env)) == Ok::<Seq<char>, Seq<char>>(out@),
        decreases cells@.len() - i,
    {
        proof {
            lemma_cells_model_index(cells@, i as int);
            assert(m.take(i + 1).drop_last() =~= m.take(i as int));
        }
        let piece = wrap_exec("[", render_inlines(cells[i].as_slice(), env), "],");
        match piece {
            Err(e) => {
                proof {
                    lemma_typst_cells_err(m, i + 1, env_model(*env));
                }
                return Err(e);
            },
            Ok(p) => {
                push_all(&mut out, p.as_slice());
                i = i + 1;
            },
        }
    }
    proof {
        assert(m.take(cells@.len() as int) =~= m);
    }
    Ok(out)
}

/// Renders the body rows of a table with `columns` columns.
fn render_rows(rows: &[Vec<Vec<Inline>>], columns: usize, env: &RenderEnvironment) -> (r: Result<
    Vec<char>,
    RenderError,
>)
    ensures
        chars_res(r) == typst_rows(rows_model(rows@), columns as nat, env_model(*env)),
{
    let ghost m = rows_model(rows@);
    let mut out: Vec<char> = Vec::new();
    let mut i: usize = 0;
    proof {
        lemma_rows_model_len(rows@);
        assert(m.take(0) =~= Seq::<Seq<Seq<InlineM>>>::empty());
    }
    while i < rows.len()
        invariant
            i <= rows@.len(),
            m == rows_model(rows@),
            m.len() == rows@.len(),
            typst_rows(m.take(i as int), columns as nat, env_model(*env)) == Ok::<
                Seq<char>,
                Seq<char>,
            >(out@),
        decreases rows@.len() - i,
    {
        proof {
            lemma_rows_model_index(rows@, i as int);
            lemma_cells_model_len(rows@[i as int]@);
            assert(m.take(i + 1).drop_last() =~= m.take(i as int));
        }
        let piece = if rows[i].len() != columns {
            Err(RenderError::new("table row has a different column count from its header"))
        } else {
            render_cells(rows[i].as_slice(), env)
        };
        match piece {
            Err(e) => {
                proof {
                    lemma_typst_rows_err(m, columns as nat, i + 1, env_model(*env));
                }
                return Err(e);
            },
            Ok(p) => {
                push_all(&mut out, p.as_slice());
                i = i + 1;
            },
        }
    }
    proof {
        assert(m.take(rows@.len() as int) =~= m);
    }
    Ok(out)
}

fn render_image(alt: &String, path: &String, caption: &Option<String>, env: &RenderEnvironment) -> (r: Result<
    Vec<char>,
    RenderError,
>)
    ensures
        chars_res(r) == typst_image(
            alt@,
            path@,
            match caption {
                Some(c) => Some(c@),
                None => None,
            },
            env_model(*env),
        ),
{
    let pc = chars_of(path.as_str());
    if is_remote_target(pc.as_slice()) {
        return Err(RenderError::with_detail("remote image must be vendored: ", pc.as_slice()));
    }
    let ac = chars_of(alt.as_str());
    let at = trimmed(ac.as_slice());
    if at.len() == 0 {
        return Err(RenderError::new("local image must have non-empty alt text"));
    }
    if !env.in_chapter {
        return Err(RenderError::new("images require a chapter source path"));
    }
    if !env.has_assets {
        return Err(RenderError::new("images require the complete book renderer"));
    }
    match lookup_resolution(&env.images, pc.as_slice()) {
        None => Err(RenderError::with_detail("local image was not registered: ", pc.as_slice())),
        Some(Err(e)) => Err(e),
        Some(Ok(published)) => {
            let cap = match caption {
                Some(c) => chars_of(c.as_str()),
                None => copy_all(ac.as_slice()),
            };
            let mut out: Vec<char> = Vec::new();
            push_str(&mut out, "#book-image(\"");
            let pub_c = chars_of(published.as_str());
            let e1 = escape_typst_string(pub_c.as_slice());
            push_all(&mut out, e1.as_slice());
            push_str(&mut out, "\", \"");
            let e2 = escape_typst_string(ac.as_slice());
            push_all(&mut out, e2.as_slice());
            push_str(&mut out, "\", caption: [#text(\"");
            let e3 = escape_typst_string(cap.as_slice());
            push_all(&mut out, e3.as_slice());
            push_str(&mut out, "\")])\n");
            Ok(out)
        },
    }
}

fn render_table(header: &Vec<Vec<Inline>>, rows: &Vec<Vec<Vec<Inline>>>, env: &RenderEnvironment) -> (r: Result<
    Vec<char>,
    RenderError,
>)
    ensures
        chars_res(r) == typst_block(
            BlockM::Table { header: cells_model(header@), rows: rows_model(rows@) },
            env_model(*env),
        ),
{
    proof {
        lemma_cells_model_len(header@);
    }
    let columns = header.len();
    if columns == 0 {
        return Err(RenderError::new("table must have at least one column"));
    }
    let h = render_header(header.as_slice(), env);
    let hv = match h {
        Err(e) => {
            return Err(e);
        },
        Ok(hv) => hv,
    };
    let b = render_rows(rows.as_slice(), columns, env);
    let bv = match b {
        Err(e) => {
            return Err(e);
        },
        Ok(bv) => bv,
    };
    let mut body: Vec<char> = Vec::new();
    push_all(&mut body, hv.as_slice());
    push_all(&mut body, bv.as_slice());
    let d = decimal_wide(columns as u128);
    let mut out: Vec<char> = Vec::new();
    push_str(&mut out, "#book-table(");
    push_all(&mut out, d.as_slice());
    push_str(&mut out, ", (");
    push_all(&mut out, body.as_slice());
    push_str(&mut out, "))\n");
    proof {
        assert(out@ =~= ("#book-table("@ + decimal(header@.len()) + ", ("@) + body@ + "))\n"@);
    }
    Ok(out)
}

fn simple(prefix: &str, middle: &[char], suffix: &str) -> (r: Vec<char>)
    ensures
        r@ == prefix@ + middle@ + suffix@,
{
    let mut out: Vec<char> = Vec::new();
    push_str(&mut out, prefix);
    push_all(&mut out, middle);
    push_str(&mut out, suffix);
    out
}

/// Renders one block as Typst.
fn render_block(b: &Block, env: &RenderEnvironment) -> (r: Result<Vec<char>, RenderError>)
    ensures
        chars_res(r) == typst_block(block_model(*b), env_model(*env)),
    decreases b,
{
    match b {
        Block::Heading { level, content } => {
            let lv = decimal_wide((*level as u128) + 1);
            let tail = simple("], level: ", lv.as_slice(), ")\n");
            let mut suffix = String::new();
            let _ = &suffix;
            suffix = string_of(tail.as_slice());
            wrap_exec("#section([", render_inlines(content.as_slice(), env), suffix.as_str())
        },
        Block::Paragraph(c) => wrap_exec("#prose([", render_inlines(c.as_slice(), env), "])\n"),
        Block::Code { language, source } => {
            let lc = chars_of(language.as_str());
            let sc = chars_of(source.as_str());
            let el = escape_typst_string(lc.as_slice());
            let es = escape_typst_string(sc.as_slice());
            let mut out: Vec<char> = Vec::new();
            push_str(&mut out, "#code-block(\"");
            push_all(&mut out, el.as_slice());
            push_str(&mut out, "\", \"");
            push_all(&mut out, es.as_slice());
            push_str(&mut out, "\")\n");
            Ok(out)
        },
        Block::BulletList(items) => wrap_exec(
            "#bullet-list((",
            render_items(items.as_slice(), env),
            "))\n",
        ),
        Block::OrderedList { start, items } => {
            let d = decimal_wide(*start as u128);
            let head = simple("#ordered-list(", d.as_slice(), ", (");
            let hs = string_of(head.as_slice());
            wrap_exec(hs.as_str(), render_items(items.as_slice(), env), "))\n")
        },
        Block::Quote(c) => wrap_exec("#quote-block([\n", render_blocks(c.as_slice(), env), "])\n"),
        Block::Card(c) => wrap_exec("#card([\n", render_blocks(c.as_slice(), env), "])\n"),
        Block::CardLabel(c) => wrap_exec(
            "#card-label([",
            render_inlines(c.as_slice(), env),
            "])\n",
        ),
        Block::Table { header, rows } => render_table(header, rows, env),
        Block::Image { alt, path, caption } => render_image(alt, path, caption, env),
        Block::Rule => {
            let mut out: Vec<char> = Vec::new();
            push_str(&mut out, "#thematic-break()\n");
            Ok(out)
        },
    }
}

proof fn lemma_hex_digits(n: nat)
    ensures
        forall|k: int|
            0 <= k < hex(n).len() ==> ('0' <= #[trigger] hex(n)[k] <= '9' || 'a' <= hex(n)[k] <= 'f'),
    decreases n,
{
    let d = crate::text::hex_digit(n % 16);
    assert('0' <= d <= '9' || 'a' <= d <= 'f');
    if n >= 16 {
        lemma_hex_digits(n / 16);
        let a = hex(n / 16);
        assert(hex(n) == a + seq![d]);
        assert forall|k: int| 0 <= k < hex(n).len() implies ('0' <= #[trigger] hex(n)[k] <= '9'
            || 'a' <= hex(n)[k] <= 'f') by {
            if k < a.len() {
                assert(hex(n)[k] == a[k]);
            } else {
                assert(hex(n)[k] == d);
            }
        }
    } else {
        assert(hex(n) == seq![crate::text::hex_digit(n)]);
    }
}

proof fn lemma_escape_char_safe(c: char)
    ensures
        forall|k: int| 0 <= k < escape_char(c).len() ==> !is_cc(#[trigger] escape_char(c)[k]),
        forall|k: int|
            0 <= k < escape_char(c).len() && #[trigger] escape_char(c)[k] == '"' ==> k > 0
                && escape_char(c)[k - 1] == '\\',
{
    if is_cc(c) && c != '\n' && c != '\r' && c != '\t' {
        lemma_hex_digits(c as nat);
        let e = seq!['\\', 'u', '{'] + hex(c as nat) + seq!['}'];
        assert forall|k: int| 0 <= k < e.len() implies !is_cc(#[trigger] e[k]) && e[k] != '"' by {
            if 3 <= k < e.len() - 1 {
                assert(e[k] == hex(c as nat)[k - 3]);
            }
        }
    }
}

/// Escaped text is safe inside a Typst string literal: it holds no raw
/// control character (line feeds and tabs included), and every double quote
/// in it comes right after a backslash.
pub proof fn law_escaped_text_is_literal_safe(s: Seq<char>)
    ensures
        forall|k: int| 0 <= k < escape_typst(s).len() ==> !is_cc(#[trigger] escape_typst(s)[k]),
        forall|k: int|
            0 <= k < escape_typst(s).len() && #[trigger] escape_typst(s)[k] == '"' ==> k > 0
                && escape_typst(s)[k - 1] == '\\',
    decreases s.len(),
{
    if s.len() > 0 {
        law_escaped_text_is_literal_safe(s.drop_last());
        lemma_escape_char_safe(s.last());
        let a = escape_typst(s.drop_last());
        let b = escape_char(s.last());
        assert(escape_typst(s) == a + b);
        assert forall|k: int| 0 <= k < (a + b).len() implies !is_cc(#[trigger] (a + b)[k]) by {
            if k >= a.len() {
                assert((a + b)[k] == b[k - a.len()]);
            }
        }
        assert forall|k: int|
            0 <= k < (a + b).len() && #[trigger] (a + b)[k] == '"' implies k > 0 && (a + b)[k - 1]
                == '\\' by {
            if k >= a.len() {
                assert((a + b)[k] == b[k - a.len()]);
                assert((a + b)[k - 1] == b[k - 1 - a.len()]);
            }
        }
    }
}

/// Emphasis is italic: a single emphasised inline renders as `#emph([`,
/// the Typst text of its content, and `])`, exactly when its content
/// renders, and never as the bold text that the same content gets as
/// strong emphasis.
pub proof fn law_emphasis_renders_italic(c: Seq<InlineM>, env: EnvM)
    ensures
        typst_inlines(seq![InlineM::Emphasis(c)], env) is Ok <==> typst_inlines(c, env) is Ok,
        typst_inlines(c, env) matches Ok(body) ==> typst_inlines(seq![InlineM::Emphasis(c)], env)
            == Ok::<Seq<char>, Seq<char>>("#emph(["@ + body + "])"@),
        typst_inlines(c, env) is Ok ==> typst_inlines(seq![InlineM::Emphasis(c)], env)
            != typst_inlines(seq![InlineM::Strong(c)], env),
{
    reveal_strlit("#emph([");
    reveal_strlit("#strong([");
    reveal_strlit("])");
    let se = seq![InlineM::Emphasis(c)];
    let ss = seq![InlineM::Strong(c)];
    assert(se.drop_last() =~= Seq::<InlineM>::empty());
    assert(ss.drop_last() =~= Seq::<InlineM>::empty());
    assert(typst_inlines(Seq::<InlineM>::empty(), env) == Ok::<Seq<char>, Seq<char>>(seq![]));
    assert(se.last() == InlineM::Emphasis(c));
    assert(ss.last() == InlineM::Strong(c));
    assert(typst_inline(InlineM::Emphasis(c), env) == wrap("#emph(["@, typst_inlines(c, env), "])"@));
    assert(typst_inline(InlineM::Strong(c), env) == wrap("#strong(["@, typst_inlines(c, env), "])"@));
    if let Ok(body) = typst_inlines(c, env) {
        let e = "#emph(["@ + body + "])"@;
        let s = "#strong(["@ + body + "])"@;
        assert(Seq::<char>::empty() + e =~= e);
        assert(Seq::<char>::empty() + s =~= s);
        assert(e[1] == 'e');
        assert(s[1] == 's');
    }
}

} // verus!
