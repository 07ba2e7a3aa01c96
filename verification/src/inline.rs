//! The inline Markdown parser: emphasis, code spans, links, terms, breaks.
use vstd::prelude::*;

use crate::book::RenderError;
use crate::markdown::{
    Inline, InlineM, inline_model, inlines_model, lemma_inlines_model_index,
    lemma_inlines_model_len, lemma_inlines_model_push,
};
use crate::text::{
    chars_of, copy_range, find_from, find_from_exec, is_ascii_alpha, lemma_find_from, matches_at,
    matches_at_exec, push_all, string_of, trim, trimmed,
};

verus! {

pub open spec fn term_open() -> Seq<char> {
    "<span class=\"term-en\">"@
}

pub open spec fn term_close() -> Seq<char> {
    "</span>"@
}

/// ASCII punctuation, as `char::is_ascii_punctuation` documents it.
pub open spec fn is_ascii_punct(c: char) -> bool {
    ('!' <= c && c <= '/') || (':' <= c && c <= '@') || ('[' <= c && c <= '`') || ('{' <= c
        && c <= '~')
}

/// The text collected so far joined to the inlines: appended to a trailing
/// text node, or added as a new one; nothing when it is empty.
pub open spec fn flush(out: Seq<InlineM>, text: Seq<char>) -> Seq<InlineM> {
    if text.len() == 0 {
        out
    } else if out.len() > 0 && out.last() is Text {
        out.drop_last().push(InlineM::Text(out.last()->Text_0 + text))
    } else {
        out.push(InlineM::Text(text))
    }
}

/// `<` followed by `/` or an ASCII letter starts something that looks like HTML.
pub open spec fn looks_like_html_at(s: Seq<char>, i: int) -> bool {
    0 <= i && i + 1 < s.len() && (s[i + 1] == '/' || is_ascii_alpha(s[i + 1]))
}

/// A link destination with an optional `"title"`.
pub open spec fn destination_and_title(raw: Seq<char>) -> Result<
    (Seq<char>, Option<Seq<char>>),
    Seq<char>,
> {
    if raw.len() >= 2 && raw[0] == '<' && raw.last() == '>' {
        Ok((raw.subrange(1, raw.len() - 1), None))
    } else {
        match find_from(raw, 0, " \""@) {
            Some(idx) => if !(raw.len() > 0 && raw.last() == '"') || !(0 <= idx && idx + 2
                <= raw.len() - 1) {
                Err("malformed Markdown link title"@)
            } else {
                Ok((trim(raw.subrange(0, idx)), Some(raw.subrange(idx + 2, raw.len() - 1))))
            },
            None => Ok((raw, None)),
        }
    }
}

/// Number of backticks starting at `i`.
pub open spec fn tick_run(s: Seq<char>, i: int) -> int
    decreases s.len() - i,
{
    if 0 <= i < s.len() && s[i] == '`' {
        1 + tick_run(s, i + 1)
    } else {
        0
    }
}

pub open spec fn ticks(n: nat) -> Seq<char> {
    Seq::new(n, |k: int| '`')
}

/// The characters of `s` from `i`, at most 40 of them.
pub open spec fn preview(s: Seq<char>, i: int) -> Seq<char> {
    s.subrange(i, if i + 40 <= s.len() {
        i + 40
    } else {
        s.len() as int
    })
}

/// The inline parse of `s`.
pub open spec fn parse_inlines_spec(s: Seq<char>) -> Result<Seq<InlineM>, Seq<char>>
    decreases s.len(), s.len() + 1, 2int,
{
    inlines_from(s, 0, seq![], seq![])
}

/// `<span class="term-en">…</span>` at `i`.
pub open spec fn term_step(s: Seq<char>, i: int, out: Seq<InlineM>, text: Seq<char>) -> Result<
    Seq<InlineM>,
    Seq<char>,
>
    decreases s.len(), s.len() - i, 0int,
{
    proof {
        reveal_strlit("<span class=\"term-en\">");
        reveal_strlit("</span>");
    }
    match find_from(s, i, term_close()) {
        None => Err("term-en span is not closed"@),
        Some(close) => if !(0 <= i && i + term_open().len() <= close && close + term_close().len()
            <= s.len()) {
            Err("term-en span is not closed"@)
        } else {
            match parse_inlines_spec(s.subrange(i + term_open().len(), close)) {
                Err(e) => Err(e),
                Ok(c) => inlines_from(
                    s,
                    close + term_close().len(),
                    flush(out, text).push(InlineM::Term(c)),
                    seq![],
                ),
            }
        },
    }
}

/// An autolink `<http://…>` or `<https://…>` at `i`.
pub open spec fn autolink_step(s: Seq<char>, i: int, out: Seq<InlineM>, text: Seq<char>) -> Result<
    Seq<InlineM>,
    Seq<char>,
>
    decreases s.len(), s.len() - i, 0int,
{
    match find_from(s, i, ">"@) {
        None => Err("autolink is not closed"@),
        Some(close) => if !(0 <= i && i + 1 <= close && close + 1 <= s.len()) {
            Err("autolink is not closed"@)
        } else {
            let target = s.subrange(i + 1, close);
            inlines_from(
                s,
                close + 1,
                flush(out, text).push(
                    InlineM::Link { target, content: seq![InlineM::Text(target)] },
                ),
                seq![],
            )
        },
    }
}

/// `**…**` (when `strong`) or `~~…~~` at `i`.
pub open spec fn delimited_step(
    s: Seq<char>,
    i: int,
    out: Seq<InlineM>,
    text: Seq<char>,
    strong: bool,
) -> Result<Seq<InlineM>, Seq<char>>
    decreases s.len(), s.len() - i, 0int,
{
    let marker = if strong {
        "**"@
    } else {
        "~~"@
    };
    let unclosed = if strong {
        "strong emphasis is not closed"@
    } else {
        "strikethrough is not closed"@
    };
    match find_from(s, i + 2, marker) {
        None => Err(unclosed),
        Some(close) => if !(0 <= i && i + 2 <= close && close + 2 <= s.len()) {
            Err(unclosed)
        } else {
            match parse_inlines_spec(s.subrange(i + 2, close)) {
                Err(e) => Err(e),
                Ok(c) => inlines_from(
                    s,
                    close + 2,
                    flush(out, text).push(
                        if strong {
                            InlineM::Strong(c)
                        } else {
                            InlineM::Strike(c)
                        },
                    ),
                    seq![],
                ),
            }
        },
    }
}

/// A code span opened by a run of backticks at `i`.
pub open spec fn code_step(s: Seq<char>, i: int, out: Seq<InlineM>, text: Seq<char>) -> Result<
    Seq<InlineM>,
    Seq<char>,
>
    decreases s.len(), s.len() - i, 0int,
{
    let n = tick_run(s, i);
    match find_from(s, i + n, ticks(n as nat)) {
        None => Err("inline code span is not closed"@),
        Some(close) => if !(0 <= i && n >= 1 && i + n <= close && close + n <= s.len()) {
            Err("inline code span is not closed"@)
        } else {
            inlines_from(
                s,
                close + n,
                flush(out, text).push(InlineM::Code(s.subrange(i + n, close))),
                seq![],
            )
        },
    }
}

/// `[label](destination)` at `i`, where `]( ` is first found at `label_end`.
pub open spec fn link_step(
    s: Seq<char>,
    i: int,
    label_end: int,
    out: Seq<InlineM>,
    text: Seq<char>,
) -> Result<Seq<InlineM>, Seq<char>>
    decreases s.len(), s.len() - i, 0int,
{
    match find_from(s, label_end + 2, ")"@) {
        None => Err("Markdown link is not closed"@),
        Some(dest_end) => if !(0 <= i && i + 1 <= label_end && label_end + 2 <= dest_end && dest_end
            + 1 <= s.len()) {
            Err("Markdown link is not closed"@)
        } else {
            match destination_and_title(s.subrange(label_end + 2, dest_end)) {
                Err(e) => Err(e),
                Ok(dt) => match parse_inlines_spec(s.subrange(i + 1, label_end)) {
                    Err(e) => Err(e),
                    Ok(c) => inlines_from(
                        s,
                        dest_end + 1,
                        flush(out, text).push(InlineM::Link { target: dt.0, content: c }),
                        seq![],
                    ),
                },
            }
        },
    }
}

/// `*…*` at `i`, closed at `close`.
pub open spec fn emphasis_step(
    s: Seq<char>,
    i: int,
    close: int,
    out: Seq<InlineM>,
    text: Seq<char>,
) -> Result<Seq<InlineM>, Seq<char>>
    decreases s.len(), s.len() - i, 0int,
{
    if !(0 <= i && i + 1 <= close && close + 1 <= s.len()) {
        Err("emphasis is not closed"@)
    } else {
        match parse_inlines_spec(s.subrange(i + 1, close)) {
            Err(e) => Err(e),
            Ok(c) => inlines_from(
                s,
                close + 1,
                flush(out, text).push(InlineM::Emphasis(c)),
                seq![],
            ),
        }
    }
}

/// The inline parse of `s` from index `i` on, where `out` has been parsed and
/// `text` collected since the last node.
pub open spec fn inlines_from(s: Seq<char>, i: int, out: Seq<InlineM>, text: Seq<char>) -> Result<
    Seq<InlineM>,
    Seq<char>,
>
    decreases s.len(), s.len() - i, 1int,
{
    proof {
        reveal_strlit("<br>");
        reveal_strlit("<br/>");
        reveal_strlit("<br />");
    }
    if i < 0 || i >= s.len() {
        Ok(flush(out, text))
    } else if matches_at(s, i, term_open()) {
        term_step(s, i, out, text)
    } else if matches_at(s, i, "<br>"@) {
        inlines_from(s, i + "<br>"@.len(), flush(out, text).push(InlineM::Break), seq![])
    } else if matches_at(s, i, "<br/>"@) {
        inlines_from(s, i + "<br/>"@.len(), flush(out, text).push(InlineM::Break), seq![])
    } else if matches_at(s, i, "<br />"@) {
        inlines_from(s, i + "<br />"@.len(), flush(out, text).push(InlineM::Break), seq![])
    } else if matches_at(s, i, "<http://"@) || matches_at(s, i, "<https://"@) {
        autolink_step(s, i, out, text)
    } else if matches_at(s, i, "**"@) {
        delimited_step(s, i, out, text, true)
    } else if matches_at(s, i, "~~"@) {
        delimited_step(s, i, out, text, false)
    } else if s[i] == '`' {
        code_step(s, i, out, text)
    } else if matches_at(s, i, "!["@) {
        Err("inline images are unsupported; place the image on its own line"@)
    } else if s[i] == '[' && find_from(s, i + 1, "]("@) is Some {
        link_step(s, i, find_from(s, i + 1, "]("@)->0, out, text)
    } else if s[i] == '*' && find_from(s, i + 1, "*"@) is Some {
        emphasis_step(s, i, find_from(s, i + 1, "*"@)->0, out, text)
    } else if s[i] == '\\' {
        if i + 1 < s.len() && is_ascii_punct(s[i + 1]) {
            inlines_from(s, i + 2, out, text.push(s[i + 1]))
        } else {
            inlines_from(s, i + 1, out, text.push('\\'))
        }
    } else if s[i] == '<' && looks_like_html_at(s, i) {
        Err("unsupported inline HTML near: "@ + preview(s, i))
    } else {
        inlines_from(s, i + 1, out, text.push(s[i]))
    }
}

/// The outcome of a parse, seen through the models.
pub open spec fn inlines_result(r: Result<Vec<Inline>, RenderError>) -> Result<
    Seq<InlineM>,
    Seq<char>,
> {
    match r {
        Ok(v) => Ok(inlines_model(v@)),
        Err(e) => Err(e@),
    }
}

pub fn is_ascii_punctuation(c: char) -> (b: bool)
    ensures
        b == is_ascii_punct(c),
{
    ('!' <= c && c <= '/') || (':' <= c && c <= '@') || ('[' <= c && c <= '`') || ('{' <= c
        && c <= '~')
}

pub fn parse_destination_and_title(raw: &[char]) -> (r: Result<
    (Vec<char>, Option<Vec<char>>),
    RenderError,
>)
    ensures
        match r {
            Ok((p, t)) => destination_and_title(raw@) == Ok::<
                (Seq<char>, Option<Seq<char>>),
                Seq<char>,
            >((p@, match t {
                Some(x) => Some(x@),
                None => None,
            })),
            Err(e) => destination_and_title(raw@) == Err::<
                (Seq<char>, Option<Seq<char>>),
                Seq<char>,
            >(e@),
        },
{
    let n = raw.len();
    proof {
        reveal_strlit(" \"");
    }
    if n >= 2 && raw[0] == '<' && raw[n - 1] == '>' {
        return Ok((copy_range(raw, 1, n - 1), None));
    }
    let sep = chars_of(" \"");
    match find_from_exec(raw, 0, sep.as_slice()) {
        Some(idx) => {
            proof {
                lemma_find_from(raw@, 0, sep@);
            }
            if !(n > 0 && raw[n - 1] == '"') || idx + 2 > n - 1 {
                return Err(RenderError::new("malformed Markdown link title"));
            }
            let head = copy_range(raw, 0, idx);
            let path = trimmed(head.as_slice());
            let title = copy_range(raw, idx + 2, n - 1);
            Ok((path, Some(title)))
        },
        None => {
            let all = copy_range(raw, 0, n);
            proof {
                assert(all@ =~= raw@);
            }
            Ok((all, None))
        },
    }
}

/// Literal patterns the inline parser looks for.
pub struct InlinePatterns {
    pub term_open: Vec<char>,
    pub term_close: Vec<char>,
    pub br1: Vec<char>,
    pub br2: Vec<char>,
    pub br3: Vec<char>,
    pub http: Vec<char>,
    pub https: Vec<char>,
    pub gt: Vec<char>,
    pub star2: Vec<char>,
    pub tilde2: Vec<char>,
    pub image: Vec<char>,
    pub label_end: Vec<char>,
    pub rparen: Vec<char>,
    pub star: Vec<char>,
}

impl InlinePatterns {
    pub open spec fn wf(&self) -> bool {
        &&& self.term_open@ == term_open()
        &&& self.term_close@ == term_close()
        &&& self.br1@ == "<br>"@
        &&& self.br2@ == "<br/>"@
        &&& self.br3@ == "<br />"@
        &&& self.http@ == "<http://"@
        &&& self.https@ == "<https://"@
        &&& self.gt@ == ">"@
        &&& self.star2@ == "**"@
        &&& self.tilde2@ == "~~"@
        &&& self.image@ == "!["@
        &&& self.label_end@ == "]("@
        &&& self.rparen@ == ")"@
        &&& self.star@ == "*"@
    }

    pub fn new() -> (p: Self)
        ensures
            p.wf(),
    {
        InlinePatterns {
            term_open: chars_of("<span class=\"term-en\">"),
            term_close: chars_of("</span>"),
            br1: chars_of("<br>"),
            br2: chars_of("<br/>"),
            br3: chars_of("<br />"),
            http: chars_of("<http://"),
            https: chars_of("<https://"),
            gt: chars_of(">"),
            star2: chars_of("**"),
            tilde2: chars_of("~~"),
            image: chars_of("!["),
            label_end: chars_of("]("),
            rparen: chars_of(")"),
            star: chars_of("*"),
        }
    }
}

/// Joins the pending text to the parsed inlines (see [`flush`]).
fn flush_text(out: &mut Vec<Inline>, text: &mut Vec<char>)
    ensures
        inlines_model(final(out)@) == flush(inlines_model(old(out)@), old(text)@),
        final(text)@ == Seq::<char>::empty(),
{
    proof {
        lemma_inlines_model_len(out@);
    }
    if text.len() == 0 {
        return;
    }
    let n = out.len();
    let merge = n > 0 && match &out[n - 1] {
        Inline::Text(_) => true,
        _ => false,
    };
    if merge {
        proof {
            lemma_inlines_model_index(out@, n - 1);
        }
        let last = out.pop().unwrap();
        proof {
            assert(out@ =~= old(out)@.drop_last());
        }
        let mut merged: Vec<char> = Vec::new();
        match last {
            Inline::Text(prev) => {
                let pv = chars_of(prev.as_str());
                push_all(&mut merged, pv.as_slice());
            },
            _ => {},
        }
        push_all(&mut merged, text.as_slice());
        let node = Inline::Text(string_of(merged.as_slice()));
        proof {
            lemma_inlines_model_push(out@, node);
        }
        out.push(node);
    } else {
        proof {
            if n > 0 {
                lemma_inlines_model_index(out@, n - 1);
            }
        }
        let node = Inline::Text(string_of(text.as_slice()));
        proof {
            lemma_inlines_model_push(out@, node);
        }
        out.push(node);
    }
    *text = Vec::new();
}

fn tick_count(s: &[char], i: usize) -> (n: usize)
    requires
        i <= s@.len(),
    ensures
        n == tick_run(s@, i as int),
        i + n <= s@.len(),
        forall|k: int| i <= k < i + n ==> s@[k] == '`',
        i < s@.len() && s@[i as int] == '`' ==> n >= 1,
{
    let mut j = i;
    while j < s.len() && s[j] == '`'
        invariant
            i <= j <= s@.len(),
            tick_run(s@, i as int) == (j - i) + tick_run(s@, j as int),
            forall|k: int| i <= k < j ==> s@[k] == '`',
        decreases s@.len() - j,
    {
        j = j + 1;
    }
    j - i
}

fn tick_marker(n: usize) -> (v: Vec<char>)
    ensures
        v@ == ticks(n as nat),
{
    let mut v: Vec<char> = Vec::new();
    let mut k: usize = 0;
    while k < n
        invariant
            k <= n,
            v@ == ticks(k as nat),
        decreases n - k,
    {
        v.push('`');
        k = k + 1;
        proof {
            assert(v@ =~= ticks(k as nat));
        }
    }
    v
}

/// The result of one step of the parser, as the models see it.
pub open spec fn step_result(
    r: Result<usize, RenderError>,
    s: Seq<char>,
    out: Seq<Inline>,
    text: Seq<char>,
) -> Result<Seq<InlineM>, Seq<char>> {
    match r {
        Ok(j) => inlines_from(s, j as int, inlines_model(out), text),
        Err(e) => Err(e@),
    }
}

/// Parses `<span class="term-en">…</span>` at `i`.
fn parse_term(
    s: &[char],
    i: usize,
    p: &InlinePatterns,
    out: &mut Vec<Inline>,
    text: &mut Vec<char>,
) -> (r: Result<usize, RenderError>)
    requires
        p.wf(),
        i < s@.len(),
        matches_at(s@, i as int, term_open()),
    ensures
        r matches Ok(j) ==> i < j <= s@.len(),
        step_result(r, s@, final(out)@, final(text)@) == term_step(
            s@,
            i as int,
            inlines_model(old(out)@),
            old(text)@,
        ),
    decreases s@.len(), 0int,
{
    let _len = s.len();
    proof {
        reveal_strlit("<span class=\"term-en\">");
        reveal_strlit("</span>");
    }
    match find_from_exec(s, i, p.term_close.as_slice()) {
        None => Err(RenderError::new("term-en span is not closed")),
        Some(close) => {
            proof {
                lemma_find_from(s@, i as int, term_close());
            }
            if !(i + p.term_open.len() <= close) {
                return Err(RenderError::new("term-en span is not closed"));
            }
            let inner = copy_range(s, i + p.term_open.len(), close);
            match parse_inlines(inner.as_slice()) {
                Err(e) => Err(e),
                Ok(c) => {
                    flush_text(out, text);
                    let node = Inline::Term(c);
                    proof {
                        lemma_inlines_model_push(out@, node);
                    }
                    out.push(node);
                    Ok(close + p.term_close.len())
                },
            }
        },
    }
}

/// Parses an autolink at `i`.
fn parse_autolink(
    s: &[char],
    i: usize,
    p: &InlinePatterns,
    out: &mut Vec<Inline>,
    text: &mut Vec<char>,
) -> (r: Result<usize, RenderError>)
    requires
        p.wf(),
        i < s@.len(),
    ensures
        r matches Ok(j) ==> i < j <= s@.len(),
        step_result(r, s@, final(out)@, final(text)@) == autolink_step(
            s@,
            i as int,
            inlines_model(old(out)@),
            old(text)@,
        ),
    decreases s@.len(), 0int,
{
    let _len = s.len();
    proof {
        reveal_strlit(">");
    }
    match find_from_exec(s, i, p.gt.as_slice()) {
        None => Err(RenderError::new("autolink is not closed")),
        Some(close) => {
            proof {
                lemma_find_from(s@, i as int, ">"@);
            }
            if !(i + 1 <= close) {
                return Err(RenderError::new("autolink is not closed"));
            }
            let target = copy_range(s, i + 1, close);
            flush_text(out, text);
            let mut content: Vec<Inline> = Vec::new();
            let t1 = Inline::Text(string_of(target.as_slice()));
            proof {
                lemma_inlines_model_push(content@, t1);
                assert(inlines_model(Seq::<Inline>::empty()) =~= Seq::<InlineM>::empty());
            }
            content.push(t1);
            let node = Inline::Link { target: string_of(target.as_slice()), content };
            proof {
                lemma_inlines_model_push(out@, node);
                assert(inlines_model(content@) =~= seq![InlineM::Text(target@)]);
            }
            out.push(node);
            Ok(close + 1)
        },
    }
}

/// Parses `**…**` or `~~…~~` at `i`.
fn parse_delimited(
    s: &[char],
    i: usize,
    strong: bool,
    p: &InlinePatterns,
    out: &mut Vec<Inline>,
    text: &mut Vec<char>,
) -> (r: Result<usize, RenderError>)
    requires
        p.wf(),
        i + 2 <= s@.len(),
    ensures
        r matches Ok(j) ==> i < j <= s@.len(),
        step_result(r, s@, final(out)@, final(text)@) == delimited_step(
            s@,
            i as int,
            inlines_model(old(out)@),
            old(text)@,
            strong,
        ),
    decreases s@.len(), 0int,
{
    let _len = s.len();
    proof {
        reveal_strlit("**");
        reveal_strlit("~~");
    }
    let found = if strong {
        find_from_exec(s, i + 2, p.star2.as_slice())
    } else {
        find_from_exec(s, i + 2, p.tilde2.as_slice())
    };
    match found {
        None => {
            if strong {
                Err(RenderError::new("strong emphasis is not closed"))
            } else {
                Err(RenderError::new("strikethrough is not closed"))
            }
        },
        Some(close) => {
            proof {
                if strong {
                    lemma_find_from(s@, i + 2, "**"@);
                } else {
                    lemma_find_from(s@, i + 2, "~~"@);
                }
            }
            let inner = copy_range(s, i + 2, close);
            match parse_inlines(inner.as_slice()) {
                Err(e) => Err(e),
                Ok(c) => {
                    flush_text(out, text);
                    let node = if strong {
                        Inline::Strong(c)
                    } else {
                        Inline::Strike(c)
                    };
                    proof {
                        lemma_inlines_model_push(out@, node);
                    }
                    out.push(node);
                    Ok(close + 2)
                },
            }
        },
    }
}

/// Parses a code span at `i`.
fn parse_code(s: &[char], i: usize, out: &mut Vec<Inline>, text: &mut Vec<char>) -> (r: Result<
    usize,
    RenderError,
>)
    requires
        i < s@.len(),
        s@[i as int] == '`',
    ensures
        r matches Ok(j) ==> i < j <= s@.len(),
        step_result(r, s@, final(out)@, final(text)@) == code_step(
            s@,
            i as int,
            inlines_model(old(out)@),
            old(text)@,
        ),
{
    let _len = s.len();
    let k = tick_count(s, i);
    let marker = tick_marker(k);
    match find_from_exec(s, i + k, marker.as_slice()) {
        None => Err(RenderError::new("inline code span is not closed")),
        Some(close) => {
            proof {
                lemma_find_from(s@, i + k, ticks(k as nat));
            }
            let code = copy_range(s, i + k, close);
            flush_text(out, text);
            let node = Inline::Code(string_of(code.as_slice()));
            proof {
                lemma_inlines_model_push(out@, node);
            }
            out.push(node);
            Ok(close + k)
        },
    }
}

/// Parses `[label](destination)` at `i` with `](` at `label_end`.
fn parse_link(
    s: &[char],
    i: usize,
    label_end: usize,
    p: &InlinePatterns,
    out: &mut Vec<Inline>,
    text: &mut Vec<char>,
) -> (r: Result<usize, RenderError>)
    requires
        p.wf(),
        i < label_end,
        label_end + 2 <= s@.len(),
    ensures
        r matches Ok(j) ==> i < j <= s@.len(),
        step_result(r, s@, final(out)@, final(text)@) == link_step(
            s@,
            i as int,
            label_end as int,
            inlines_model(old(out)@),
            old(text)@,
        ),
    decreases s@.len(), 0int,
{
    let _len = s.len();
    proof {
        reveal_strlit(")");
    }
    match find_from_exec(s, label_end + 2, p.rparen.as_slice()) {
        None => Err(RenderError::new("Markdown link is not closed")),
        Some(dest_end) => {
            proof {
                lemma_find_from(s@, label_end + 2, ")"@);
            }
            let raw = copy_range(s, label_end + 2, dest_end);
            match parse_destination_and_title(raw.as_slice()) {
                Err(e) => Err(e),
                Ok((target, _)) => {
                    let label = copy_range(s, i + 1, label_end);
                    match parse_inlines(label.as_slice()) {
                        Err(e) => Err(e),
                        Ok(c) => {
                            flush_text(out, text);
                            let node = Inline::Link { target: string_of(target.as_slice()), content: c };
                            proof {
                                lemma_inlines_model_push(out@, node);
                            }
                            out.push(node);
                            Ok(dest_end + 1)
                        },
                    }
                },
            }
        },
    }
}

/// Parses `*…*` at `i`, closed at `close`.
fn parse_emphasis(
    s: &[char],
    i: usize,
    close: usize,
    out: &mut Vec<Inline>,
    text: &mut Vec<char>,
) -> (r: Result<usize, RenderError>)
    requires
        i < close,
        close < s@.len(),
    ensures
        r matches Ok(j) ==> i < j <= s@.len(),
        step_result(r, s@, final(out)@, final(text)@) == emphasis_step(
            s@,
            i as int,
            close as int,
            inlines_model(old(out)@),
            old(text)@,
        ),
    decreases s@.len(), 0int,
{
    let _len = s.len();
    let inner = copy_range(s, i + 1, close);
    match parse_inlines(inner.as_slice()) {
        Err(e) => Err(e),
        Ok(c) => {
            flush_text(out, text);
            let node = Inline::Emphasis(c);
            proof {
                lemma_inlines_model_push(out@, node);
            }
            out.push(node);
            Ok(close + 1)
        },
    }
}

/// Parses inline Markdown.
pub fn parse_inlines(s: &[char]) -> (r: Result<Vec<Inline>, RenderError>)
    ensures
        inlines_result(r) == parse_inlines_spec(s@),
    decreases s@.len(), 1int,
{
    let p = InlinePatterns::new();
    let mut out: Vec<Inline> = Vec::new();
    let mut text: Vec<char> = Vec::new();
    let mut i: usize = 0;
    let n = s.len();
    proof {
        assert(inlines_model(out@) =~= Seq::<InlineM>::empty());
    }
    while i < n
        invariant
            p.wf(),
            n == s@.len(),
            i <= n,
            inlines_from(s@, i as int, inlines_model(out@), text@) == parse_inlines_spec(s@),
        decreases n - i,
    {
        proof {
            reveal_strlit("<span class=\"term-en\">");
            reveal_strlit("<br>");
            reveal_strlit("<br/>");
            reveal_strlit("<br />");
            reveal_strlit("**");
            reveal_strlit("~~");
            reveal_strlit("](");
            reveal_strlit("*");
        }
        let step: Result<usize, RenderError>;
        if matches_at_exec(s, i, p.term_open.as_slice()) {
            step = parse_term(s, i, &p, &mut out, &mut text);
        } else if matches_at_exec(s, i, p.br1.as_slice()) || matches_at_exec(
            s,
            i,
            p.br2.as_slice(),
        ) || matches_at_exec(s, i, p.br3.as_slice()) {
            let len = if matches_at_exec(s, i, p.br1.as_slice()) {
                p.br1.len()
            } else if matches_at_exec(s, i, p.br2.as_slice()) {
                p.br2.len()
            } else {
                p.br3.len()
            };
            flush_text(&mut out, &mut text);
            let node = Inline::Break;
            proof {
                lemma_inlines_model_push(out@, node);
            }
            out.push(node);
            step = Ok(i + len);
        } else if matches_at_exec(s, i, p.http.as_slice()) || matches_at_exec(
            s,
            i,
            p.https.as_slice(),
        ) {
            step = parse_autolink(s, i, &p, &mut out, &mut text);
        } else if matches_at_exec(s, i, p.star2.as_slice()) {
            step = parse_delimited(s, i, true, &p, &mut out, &mut text);
        } else if matches_at_exec(s, i, p.tilde2.as_slice()) {
            step = parse_delimited(s, i, false, &p, &mut out, &mut text);
        } else if s[i] == '`' {
            step = parse_code(s, i, &mut out, &mut text);
        } else if matches_at_exec(s, i, p.image.as_slice()) {
            step = Err(
                RenderError::new("inline images are unsupported; place the image on its own line"),
            );
        } else if s[i] == '[' && find_from_exec(s, i + 1, p.label_end.as_slice()).is_some() {
            let label_end = find_from_exec(s, i + 1, p.label_end.as_slice()).unwrap();
            proof {
                lemma_find_from(s@, i + 1, "]("@);
            }
            step = parse_link(s, i, label_end, &p, &mut out, &mut text);
        } else if s[i] == '*' && find_from_exec(s, i + 1, p.star.as_slice()).is_some() {
            let close = find_from_exec(s, i + 1, p.star.as_slice()).unwrap();
            proof {
                lemma_find_from(s@, i + 1, "*"@);
            }
            step = parse_emphasis(s, i, close, &mut out, &mut text);
        } else if s[i] == '\\' {
            if i + 1 < n && is_ascii_punctuation(s[i + 1]) {
                text.push(s[i + 1]);
                step = Ok(i + 2);
            } else {
                text.push('\\');
                step = Ok(i + 1);
            }
        } else if s[i] == '<' && i + 1 < n && (s[i + 1] == '/' || ('a' <= s[i + 1] && s[i + 1]
            <= 'z') || ('A' <= s[i + 1] && s[i + 1] <= 'Z')) {
            let end = if n - i >= 40 {
                i + 40
            } else {
                n
            };
            let near = copy_range(s, i, end);
            step = Err(RenderError::with_detail("unsupported inline HTML near: ", near.as_slice()));
        } else {
            text.push(s[i]);
            step = Ok(i + 1);
        }
        match step {
            Ok(j) => {
                i = j;
            },
            Err(e) => {
                return Err(e);
            },
        }
    }
    flush_text(&mut out, &mut text);
    Ok(out)
}

/// Text runs are maximal: no text node is empty, no two text nodes stand
/// side by side, and the same holds inside every nested content.
pub open spec fn text_runs_maximal(v: Seq<InlineM>) -> bool
    decreases v,
{
    if v.len() == 0 {
        true
    } else {
        &&& text_runs_maximal(v.drop_last())
        &&& nested_runs_maximal(v.last())
        &&& (v.last() matches InlineM::Text(t) ==> t.len() > 0)
        &&& !(v.len() >= 2 && v.last() is Text && v[v.len() - 2] is Text)
    }
}

/// The content nested in an inline node has maximal text runs.
pub open spec fn nested_runs_maximal(x: InlineM) -> bool
    decreases x,
{
    match x {
        InlineM::Strong(c) => text_runs_maximal(c),
        InlineM::Emphasis(c) => text_runs_maximal(c),
        InlineM::Strike(c) => text_runs_maximal(c),
        InlineM::Term(c) => text_runs_maximal(c),
        InlineM::Link { target, content } => text_runs_maximal(content),
        _ => true,
    }
}

proof fn lemma_flush_maximal(out: Seq<InlineM>, text: Seq<char>)
    requires
        text_runs_maximal(out),
    ensures
        text_runs_maximal(flush(out, text)),
{
    if text.len() == 0 {
    } else if out.len() > 0 && out.last() is Text {
        let w = out.drop_last().push(InlineM::Text(out.last()->Text_0 + text));
        assert(w.drop_last() =~= out.drop_last());
        if w.len() >= 2 {
            assert(w[w.len() - 2] == out[out.len() - 2]);
            assert(out.drop_last().len() >= 1);
            assert(!(out[out.len() - 2] is Text));
        }
        assert(nested_runs_maximal(w.last()));
        assert(text_runs_maximal(w.drop_last()));
        assert(text_runs_maximal(w));
        assert(flush(out, text) == w);
    } else {
        let w = out.push(InlineM::Text(text));
        assert(w.drop_last() =~= out);
        if w.len() >= 2 {
            assert(w[w.len() - 2] == out.last());
        }
        assert(w.last() == InlineM::Text(text));
        assert(nested_runs_maximal(w.last()));
        assert(text_runs_maximal(w));
        assert(flush(out, text) == w);
    }
}

proof fn lemma_push_node_maximal(out: Seq<InlineM>, text: Seq<char>, x: InlineM)
    requires
        text_runs_maximal(out),
        !(x is Text),
        nested_runs_maximal(x),
    ensures
        text_runs_maximal(flush(out, text).push(x)),
{
    lemma_flush_maximal(out, text);
    assert(flush(out, text).push(x).drop_last() =~= flush(out, text));
}

proof fn lemma_inlines_from_maximal(s: Seq<char>, i: int, out: Seq<InlineM>, text: Seq<char>)
    requires
        text_runs_maximal(out),
    ensures
        inlines_from(s, i, out, text) matches Ok(v) ==> text_runs_maximal(v),
    decreases s.len(), s.len() - i,
{
    reveal_strlit("<br>");
    reveal_strlit("<br/>");
    reveal_strlit("<br />");
    reveal_strlit("<span class=\"term-en\">");
    reveal_strlit("</span>");
    reveal_strlit("<http://");
    reveal_strlit("<https://");
    reveal_strlit(">");
    reveal_strlit("**");
    reveal_strlit("~~");
    reveal_strlit("*");
    reveal_strlit(")");
    reveal_strlit("](");
    if i < 0 || i >= s.len() {
        lemma_flush_maximal(out, text);
    } else if matches_at(s, i, term_open()) {
        assert(inlines_from(s, i, out, text) == term_step(s, i, out, text));
        match find_from(s, i, term_close()) {
            None => {},
            Some(close) => if 0 <= i && i + term_open().len() <= close && close + term_close().len()
                <= s.len() {
                let sub = s.subrange(i + term_open().len(), close);
                lemma_inlines_from_maximal(sub, 0, seq![], seq![]);
                if let Ok(c) = parse_inlines_spec(sub) {
                    lemma_push_node_maximal(out, text, InlineM::Term(c));
                    lemma_inlines_from_maximal(
                        s,
                        close + term_close().len(),
                        flush(out, text).push(InlineM::Term(c)),
                        seq![],
                    );
                }
            },
        }
    } else if matches_at(s, i, "<br>"@) {
        lemma_push_node_maximal(out, text, InlineM::Break);
        lemma_inlines_from_maximal(s, i + "<br>"@.len(), flush(out, text).push(InlineM::Break), seq![]);
    } else if matches_at(s, i, "<br/>"@) {
        lemma_push_node_maximal(out, text, InlineM::Break);
        lemma_inlines_from_maximal(s, i + "<br/>"@.len(), flush(out, text).push(InlineM::Break), seq![]);
    } else if matches_at(s, i, "<br />"@) {
        lemma_push_node_maximal(out, text, InlineM::Break);
        lemma_inlines_from_maximal(s, i + "<br />"@.len(), flush(out, text).push(InlineM::Break), seq![]);
    } else if matches_at(s, i, "<http://"@) || matches_at(s, i, "<https://"@) {
        assert(inlines_from(s, i, out, text) == autolink_step(s, i, out, text));
        lemma_find_from(s, i, ">"@);
        match find_from(s, i, ">"@) {
            None => {},
            Some(close) => if 0 <= i && i + 1 <= close && close + 1 <= s.len() {
                if matches_at(s, i, "<http://"@) {
                    assert(s[i + 1] == s.subrange(i, i + 8)[1]);
                    assert(s[i] == s.subrange(i, i + 8)[0]);
                } else {
                    assert(s[i + 1] == s.subrange(i, i + 9)[1]);
                    assert(s[i] == s.subrange(i, i + 9)[0]);
                }
                assert(s[i] == '<' && s[i + 1] == 'h');
                assert(!matches_at(s, i, ">"@)) by {
                    assert(s.subrange(i, i + 1)[0] == s[i]);
                }
                assert(!matches_at(s, i + 1, ">"@)) by {
                    assert(s.subrange(i + 1, i + 2)[0] == s[i + 1]);
                }
                let target = s.subrange(i + 1, close);
                assert(close != i && close != i + 1);
                assert(target.len() > 0);
                let one = seq![InlineM::Text(target)];
                assert(one.drop_last() =~= Seq::<InlineM>::empty());
                assert(one.len() == 1 && one.last() == InlineM::Text(target));
                assert(nested_runs_maximal(one.last()));
                assert(text_runs_maximal(one.drop_last()));
                assert(text_runs_maximal(one));
                let node = InlineM::Link { target, content: one };
                lemma_push_node_maximal(out, text, node);
                lemma_inlines_from_maximal(s, close + 1, flush(out, text).push(node), seq![]);
            },
        }
    } else if matches_at(s, i, "**"@) || matches_at(s, i, "~~"@) {
        let strong = matches_at(s, i, "**"@);
        assert(inlines_from(s, i, out, text) == delimited_step(s, i, out, text, strong));
        let marker = if strong {
            "**"@
        } else {
            "~~"@
        };
        match find_from(s, i + 2, marker) {
            None => {},
            Some(close) => if 0 <= i && i + 2 <= close && close + 2 <= s.len() {
                let sub = s.subrange(i + 2, close);
                lemma_inlines_from_maximal(sub, 0, seq![], seq![]);
                if let Ok(c) = parse_inlines_spec(sub) {
                    let node = if strong {
                        InlineM::Strong(c)
                    } else {
                        InlineM::Strike(c)
                    };
                    lemma_push_node_maximal(out, text, node);
                    lemma_inlines_from_maximal(s, close + 2, flush(out, text).push(node), seq![]);
                }
            },
        }
    } else if s[i] == '`' {
        let n = tick_run(s, i);
        assert(inlines_from(s, i, out, text) == code_step(s, i, out, text));
        match find_from(s, i + n, ticks(n as nat)) {
            None => {},
            Some(close) => if 0 <= i && n >= 1 && i + n <= close && close + n <= s.len() {
                let node = InlineM::Code(s.subrange(i + n, close));
                lemma_push_node_maximal(out, text, node);
                lemma_inlines_from_maximal(s, close + n, flush(out, text).push(node), seq![]);
            },
        }
    } else if matches_at(s, i, "!["@) {
    } else if s[i] == '[' && find_from(s, i + 1, "]("@) is Some {
        let label_end = find_from(s, i + 1, "]("@)->0;
        assert(inlines_from(s, i, out, text) == link_step(s, i, label_end, out, text));
        match find_from(s, label_end + 2, ")"@) {
            None => {},
            Some(dest_end) => if 0 <= i && i + 1 <= label_end && label_end + 2 <= dest_end
                && dest_end + 1 <= s.len() {
                if let Ok(dt) = destination_and_title(s.subrange(label_end + 2, dest_end)) {
                    let sub = s.subrange(i + 1, label_end);
                    lemma_inlines_from_maximal(sub, 0, seq![], seq![]);
                    if let Ok(c) = parse_inlines_spec(sub) {
                        let node = InlineM::Link { target: dt.0, content: c };
                        lemma_push_node_maximal(out, text, node);
                        lemma_inlines_from_maximal(s, dest_end + 1, flush(out, text).push(node), seq![]);
                    }
                }
            },
        }
    } else if s[i] == '*' && find_from(s, i + 1, "*"@) is Some {
        let close = find_from(s, i + 1, "*"@)->0;
        assert(inlines_from(s, i, out, text) == emphasis_step(s, i, close, out, text));
        if 0 <= i && i + 1 <= close && close + 1 <= s.len() {
            let sub = s.subrange(i + 1, close);
            lemma_inlines_from_maximal(sub, 0, seq![], seq![]);
            if let Ok(c) = parse_inlines_spec(sub) {
                let node = InlineM::Emphasis(c);
                lemma_push_node_maximal(out, text, node);
                lemma_inlines_from_maximal(s, close + 1, flush(out, text).push(node), seq![]);
            }
        }
    } else if s[i] == '\\' {
        if i + 1 < s.len() && is_ascii_punct(s[i + 1]) {
            lemma_inlines_from_maximal(s, i + 2, out, text.push(s[i + 1]));
        } else {
            lemma_inlines_from_maximal(s, i + 1, out, text.push('\\'));
        }
    } else if s[i] == '<' && looks_like_html_at(s, i) {
    } else {
        lemma_inlines_from_maximal(s, i + 1, out, text.push(s[i]));
    }
}

/// The inline parser keeps text runs maximal (see [`text_runs_maximal`]):
/// adjacent plain text is always one node, and no text node is empty, at
/// every depth of nesting.
pub proof fn law_inline_text_runs_are_maximal(s: Seq<char>)
    ensures
        parse_inlines_spec(s) matches Ok(v) ==> text_runs_maximal(v),
{
    lemma_inlines_from_maximal(s, 0, seq![], seq![]);
}

} // verus!
