//! The `[book]` table of `book.toml`, read with the small TOML subset the
//! book uses: basic strings and arrays of basic strings.
use vstd::prelude::*;

use crate::book::RenderError;
use crate::text::{
    chars_of, copy_range, debug_quoted, debug_str, ends_with, ends_with_exec, eq_chars, find_from,
    find_from_exec, is_whitespace, is_ws, lemma_find_from, lines, lines_exec, push_all, push_str,
    starts_with, starts_with_exec, trim, trimmed,
};

verus! {

/// Index at which a TOML comment starts in `s` (or `s.len()`), scanning
/// from `i` with the given string and escape state.
pub open spec fn comment_cut(s: Seq<char>, i: int, in_str: bool, esc: bool) -> int
    decreases s.len() - i,
{
    if i < 0 || i >= s.len() {
        s.len() as int
    } else if esc {
        comment_cut(s, i + 1, in_str, false)
    } else if s[i] == '\\' && in_str {
        comment_cut(s, i + 1, in_str, true)
    } else if s[i] == '"' {
        comment_cut(s, i + 1, !in_str, false)
    } else if s[i] == '#' && !in_str {
        i
    } else {
        comment_cut(s, i + 1, in_str, false)
    }
}

/// A line of `book.toml` without its comment.
pub open spec fn without_comment(s: Seq<char>) -> Seq<char> {
    s.subrange(0, comment_cut(s, 0, false, false))
}

proof fn lemma_comment_cut_bounds(s: Seq<char>, i: int, in_str: bool, esc: bool)
    requires
        0 <= i <= s.len(),
    ensures
        i <= comment_cut(s, i, in_str, esc) <= s.len(),
    decreases s.len() - i,
{
    if i < s.len() {
        if esc {
            lemma_comment_cut_bounds(s, i + 1, in_str, false);
        } else if s[i] == '\\' && in_str {
            lemma_comment_cut_bounds(s, i + 1, in_str, true);
        } else if s[i] == '"' {
            lemma_comment_cut_bounds(s, i + 1, !in_str, false);
        } else if s[i] == '#' && !in_str {
        } else {
            lemma_comment_cut_bounds(s, i + 1, in_str, false);
        }
    }
}

/// Cuts a `#` comment that stands outside a string.
pub fn strip_toml_comment(line: &[char]) -> (r: Vec<char>)
    ensures
        r@ == without_comment(line@),
{
    let mut in_str = false;
    let mut esc = false;
    let mut i: usize = 0;
    while i < line.len()
        invariant
            i <= line@.len(),
            comment_cut(line@, 0, false, false) == comment_cut(line@, i as int, in_str, esc),
        decreases line@.len() - i,
    {
        let c = line[i];
        if esc {
            esc = false;
        } else if c == '\\' && in_str {
            esc = true;
        } else if c == '"' {
            in_str = !in_str;
        } else if c == '#' && !in_str {
            proof {
                lemma_comment_cut_bounds(line@, 0, false, false);
            }
            return copy_range(line, 0, i);
        }
        i = i + 1;
    }
    copy_range(line, 0, line.len())
}

/// `Ok(x + rest)` unless `rest` failed.
pub open spec fn prepend(x: Seq<char>, rest: Result<Seq<char>, Seq<char>>) -> Result<
    Seq<char>,
    Seq<char>,
> {
    match rest {
        Ok(r) => Ok(x + r),
        Err(e) => Err(e),
    }
}

/// The value of a basic string's body, escapes resolved, from index `i` on.
pub open spec fn unescape_from(s: Seq<char>, i: int) -> Result<Seq<char>, Seq<char>>
    decreases s.len() - i,
{
    if i < 0 || i >= s.len() {
        Ok(seq![])
    } else if s[i] != '\\' {
        prepend(seq![s[i]], unescape_from(s, i + 1))
    } else if i + 1 >= s.len() {
        Err("TOML string ends with an incomplete escape"@)
    } else {
        let c = s[i + 1];
        if c == '\\' {
            prepend(seq!['\\'], unescape_from(s, i + 2))
        } else if c == '"' {
            prepend(seq!['"'], unescape_from(s, i + 2))
        } else if c == 'n' {
            prepend(seq!['\n'], unescape_from(s, i + 2))
        } else if c == 'r' {
            prepend(seq!['\r'], unescape_from(s, i + 2))
        } else if c == 't' {
            prepend(seq!['\t'], unescape_from(s, i + 2))
        } else {
            Err("unsupported TOML string escape: \\"@ + seq![c])
        }
    }
}

pub open spec fn res_view(r: Result<Vec<char>, RenderError>) -> Result<Seq<char>, Seq<char>> {
    match r {
        Ok(v) => Ok(v@),
        Err(e) => Err(e@),
    }
}

/// Resolves the escapes of a basic string's body.
pub fn unescape_basic_string(s: &[char]) -> (r: Result<Vec<char>, RenderError>)
    ensures
        res_view(r) == unescape_from(s@, 0),
{
    let mut out: Vec<char> = Vec::new();
    let mut i: usize = 0;
    while i < s.len()
        invariant
            i <= s@.len(),
            unescape_from(s@, 0) == prepend(out@, unescape_from(s@, i as int)),
        decreases s@.len() - i,
    {
        let c = s[i];
        let ghost before = out@;
        if c != '\\' {
            out.push(c);
            proof {
                assert(before + seq![c] == out@);
                assert(forall|x: Seq<char>| #[trigger] (before + (seq![c] + x)) == out@ + x) by {
                    assert forall|x: Seq<char>| #[trigger] (before + (seq![c] + x)) == out@ + x by {
                        assert(before + (seq![c] + x) =~= out@ + x);
                    }
                }
            }
            i = i + 1;
        } else {
            if i + 1 >= s.len() {
                return Err(RenderError::new("TOML string ends with an incomplete escape"));
            }
            let e = s[i + 1];
            let v = if e == '\\' {
                '\\'
            } else if e == '"' {
                '"'
            } else if e == 'n' {
                '\n'
            } else if e == 'r' {
                '\r'
            } else if e == 't' {
                '\t'
            } else {
                let mut msg: Vec<char> = Vec::new();
                push_str(&mut msg, "unsupported TOML string escape: \\");
                msg.push(e);
                proof {
                    assert(msg@ =~= "unsupported TOML string escape: \\"@ + seq![e]);
                }
                return Err(RenderError::from_chars(msg.as_slice()));
            };
            out.push(v);
            proof {
                assert(forall|x: Seq<char>| #[trigger] (before + (seq![v] + x)) == out@ + x) by {
                    assert forall|x: Seq<char>| #[trigger] (before + (seq![v] + x)) == out@ + x by {
                        assert(before + (seq![v] + x) =~= out@ + x);
                    }
                }
            }
            i = i + 2;
        }
    }
    proof {
        assert(out@ + seq![] =~= out@);
    }
    Ok(out)
}

/// A basic TOML string `"..."`, unescaped.
pub open spec fn toml_string(v: Seq<char>) -> Result<Seq<char>, Seq<char>> {
    if !starts_with(v, "\""@) || !ends_with(v, "\""@) || v.len() < 2 {
        Err("expected a basic TOML string, found "@ + debug_quoted(v))
    } else {
        unescape_from(v.subrange(1, v.len() - 1), 0)
    }
}

pub fn parse_toml_string(v: &[char]) -> (r: Result<Vec<char>, RenderError>)
    ensures
        res_view(r) == toml_string(v@),
{
    let q = chars_of("\"");
    if !starts_with_exec(v, q.as_slice()) || !ends_with_exec(v, q.as_slice()) || v.len() < 2 {
        let d = debug_str(v);
        return Err(RenderError::with_detail("expected a basic TOML string, found ", d.as_slice()));
    }
    let body = copy_range(v, 1, v.len() - 1);
    unescape_basic_string(body.as_slice())
}

/// Index of the closing quote of a basic string whose body starts at `i`.
pub open spec fn close_quote(s: Seq<char>, i: int, esc: bool) -> Option<int>
    decreases s.len() - i,
{
    if i < 0 || i >= s.len() {
        None
    } else if esc {
        close_quote(s, i + 1, false)
    } else if s[i] == '\\' {
        close_quote(s, i + 1, true)
    } else if s[i] == '"' {
        Some(i)
    } else {
        close_quote(s, i + 1, false)
    }
}

proof fn lemma_close_quote_bounds(s: Seq<char>, i: int, esc: bool)
    requires
        0 <= i,
    ensures
        close_quote(s, i, esc) matches Some(k) ==> i <= k < s.len(),
    decreases s.len() - i,
{
    if i < s.len() {
        if esc {
            lemma_close_quote_bounds(s, i + 1, false);
        } else if s[i] == '\\' {
            lemma_close_quote_bounds(s, i + 1, true);
        } else if s[i] == '"' {
        } else {
            lemma_close_quote_bounds(s, i + 1, false);
        }
    }
}

/// First index from `i` on that is neither whitespace nor a comma.
pub open spec fn skip_separators(s: Seq<char>, i: int) -> int
    decreases s.len() - i,
{
    if 0 <= i < s.len() && (is_ws(s[i]) || s[i] == ',') {
        skip_separators(s, i + 1)
    } else {
        i
    }
}

proof fn lemma_skip_separators_bounds(s: Seq<char>, i: int)
    requires
        0 <= i <= s.len(),
    ensures
        i <= skip_separators(s, i) <= s.len(),
    decreases s.len() - i,
{
    if i < s.len() && (is_ws(s[i]) || s[i] == ',') {
        lemma_skip_separators_bounds(s, i + 1);
    }
}

/// The strings of an array body from `cursor` on, appended to `acc`.
pub open spec fn array_from(s: Seq<char>, cursor: int, acc: Seq<Seq<char>>) -> Result<
    Seq<Seq<char>>,
    Seq<char>,
>
    decreases s.len() - cursor,
{
    let c = skip_separators(s, cursor);
    if cursor < 0 || c < cursor || c >= s.len() {
        Ok(acc)
    } else if s[c] != '"' {
        Err("book.toml authors must be an array of basic strings"@)
    } else {
        match close_quote(s, c + 1, false) {
            None => Err("unterminated TOML string in authors"@),
            Some(e) => if e < c + 1 || e >= s.len() {
                Ok(acc)
            } else {
                match unescape_from(s.subrange(c + 1, e), 0) {
                    Err(x) => Err(x),
                    Ok(v) => array_from(s, e + 1, acc.push(v)),
                }
            },
        }
    }
}

/// A TOML array of basic strings.
pub open spec fn toml_string_array(v: Seq<char>) -> Result<Seq<Seq<char>>, Seq<char>> {
    if !starts_with(v, "["@) || !ends_with(v, "]"@) {
        Err("expected a TOML string array, found "@ + debug_quoted(v))
    } else if v.len() < 2 {
        Ok(seq![])
    } else {
        array_from(v.subrange(1, v.len() - 1), 0, seq![])
    }
}

pub open spec fn strings_view(v: Seq<Vec<char>>) -> Seq<Seq<char>> {
    Seq::new(v.len(), |k: int| v[k]@)
}

pub fn parse_toml_string_array(v: &[char]) -> (r: Result<Vec<Vec<char>>, RenderError>)
    ensures
        match r {
            Ok(xs) => toml_string_array(v@) == Ok::<Seq<Seq<char>>, Seq<char>>(strings_view(xs@)),
            Err(e) => toml_string_array(v@) == Err::<Seq<Seq<char>>, Seq<char>>(e@),
        },
{
    let open = chars_of("[");
    let close = chars_of("]");
    if !starts_with_exec(v, open.as_slice()) || !ends_with_exec(v, close.as_slice()) {
        let d = debug_str(v);
        return Err(RenderError::with_detail("expected a TOML string array, found ", d.as_slice()));
    }
    let mut out: Vec<Vec<char>> = Vec::new();
    if v.len() < 2 {
        proof {
            assert(strings_view(out@) =~= Seq::<Seq<char>>::empty());
        }
        return Ok(out);
    }
    let inner = copy_range(v, 1, v.len() - 1);
    let s = inner.as_slice();
    let mut cursor: usize = 0;
    proof {
        assert(strings_view(out@) =~= Seq::<Seq<char>>::empty());
    }
    loop
        invariant
            cursor <= s@.len(),
            s@ == v@.subrange(1, v@.len() - 1),
            v@.len() >= 2,
            toml_string_array(v@) == array_from(s@, cursor as int, strings_view(out@)),
        decreases s@.len() - cursor,
    {
        let _n = s.len();
        let c = skip_separators_exec(s, cursor);
        if c >= s.len() {
            return Ok(out);
        }
        if s[c] != '"' {
            return Err(RenderError::new("book.toml authors must be an array of basic strings"));
        }
        match find_close_quote(s, c + 1) {
            None => {
                return Err(RenderError::new("unterminated TOML string in authors"));
            },
            Some(e) => {
                proof {
                    lemma_close_quote_bounds(s@, c + 1, false);
                }
                let body = copy_range(s, c + 1, e);
                match unescape_basic_string(body.as_slice()) {
                    Err(x) => {
                        return Err(x);
                    },
                    Ok(val) => {
                        let ghost before = strings_view(out@);
                        out.push(val);
                        proof {
                            assert(strings_view(out@) =~= before.push(val@));
                        }
                        cursor = e + 1;
                    },
                }
            },
        }
    }
}

fn skip_separators_exec(s: &[char], i: usize) -> (r: usize)
    requires
        i <= s@.len(),
    ensures
        r == skip_separators(s@, i as int),
        i <= r <= s@.len(),
{
    let mut c = i;
    while c < s.len() && (is_whitespace(s[c]) || s[c] == ',')
        invariant
            i <= c <= s@.len(),
            skip_separators(s@, i as int) == skip_separators(s@, c as int),
        decreases s@.len() - c,
    {
        c = c + 1;
    }
    c
}

fn find_close_quote(s: &[char], from: usize) -> (r: Option<usize>)
    requires
        from <= s@.len(),
    ensures
        match r {
            Some(k) => close_quote(s@, from as int, false) == Some(k as int),
            None => close_quote(s@, from as int, false) is None,
        },
{
    let mut k = from;
    let mut esc = false;
    while k < s.len()
        invariant
            from <= k <= s@.len(),
            close_quote(s@, from as int, false) == close_quote(s@, k as int, esc),
        decreases s@.len() - k,
    {
        let ch = s[k];
        if esc {
            esc = false;
        } else if ch == '\\' {
            esc = true;
        } else if ch == '"' {
            return Some(k);
        }
        k = k + 1;
    }
    None
}

/// The settings of the book that the renderers read.
pub struct BookConfig {
    pub title: String,
    pub authors: Vec<String>,
    pub description: String,
    pub language: String,
    pub source: String,
}

/// The model of a [`BookConfig`].
pub struct BookConfigM {
    pub title: Seq<char>,
    pub authors: Seq<Seq<char>>,
    pub description: Seq<char>,
    pub language: Seq<char>,
    pub source: Seq<char>,
}

pub open spec fn config_model(c: BookConfig) -> BookConfigM {
    BookConfigM {
        title: c.title@,
        authors: Seq::new(c.authors@.len(), |k: int| c.authors@[k]@),
        description: c.description@,
        language: c.language@,
        source: c.source@,
    }
}

/// The `key = value` pairs of the `[book]` table from line `i` on, in order,
/// appended to `acc`; `section` is the table the lines belong to.
pub open spec fn book_pairs(
    ls: Seq<Seq<char>>,
    i: int,
    section: Seq<char>,
    acc: Seq<(Seq<char>, Seq<char>)>,
) -> Result<Seq<(Seq<char>, Seq<char>)>, Seq<char>>
    decreases ls.len() - i,
{
    if i < 0 || i >= ls.len() {
        Ok(acc)
    } else {
        let line = trim(without_comment(ls[i]));
        if line.len() == 0 {
            book_pairs(ls, i + 1, section, acc)
        } else if starts_with(line, "["@) && ends_with(line, "]"@) && line.len() >= 2 {
            book_pairs(ls, i + 1, trim(line.subrange(1, line.len() - 1)), acc)
        } else if section != "book"@ {
            book_pairs(ls, i + 1, section, acc)
        } else {
            match find_from(line, 0, "="@) {
                None => Err("malformed book.toml line: "@ + ls[i]),
                Some(k) => book_pairs(
                    ls,
                    i + 1,
                    section,
                    acc.push((trim(line.subrange(0, k)), trim(line.subrange(k + 1, line.len() as int)))),
                ),
            }
        }
    }
}

/// The value of the last pair with `key` (a later line overrides an earlier one).
pub open spec fn last_value(pairs: Seq<(Seq<char>, Seq<char>)>, key: Seq<char>) -> Option<Seq<char>>
    decreases pairs.len(),
{
    if pairs.len() == 0 {
        None
    } else if pairs.last().0 == key {
        Some(pairs.last().1)
    } else {
        last_value(pairs.drop_last(), key)
    }
}

pub open spec fn required_string(pairs: Seq<(Seq<char>, Seq<char>)>, key: Seq<char>) -> Result<
    Seq<char>,
    Seq<char>,
> {
    match last_value(pairs, key) {
        None => Err("book.toml [book] is missing "@ + key),
        Some(v) => toml_string(v),
    }
}

/// What `book.toml` says of the book, or why it is refused.
pub open spec fn book_config_spec(src: Seq<char>) -> Result<BookConfigM, Seq<char>> {
    match book_pairs(lines(src), 0, seq![], seq![]) {
        Err(e) => Err(e),
        Ok(p) => match required_string(p, "title"@) {
            Err(e) => Err(e),
            Ok(title) => match required_string(p, "description"@) {
                Err(e) => Err(e),
                Ok(description) => match required_string(p, "language"@) {
                    Err(e) => Err(e),
                    Ok(language) => match required_string(p, "src"@) {
                        Err(e) => Err(e),
                        Ok(source) => match last_value(p, "authors"@) {
                            None => Err("book.toml [book] is missing authors"@),
                            Some(a) => match toml_string_array(a) {
                                Err(e) => Err(e),
                                Ok(authors) => if authors.len() == 0 {
                                    Err("book.toml authors must not be empty"@)
                                } else {
                                    Ok(
                                        BookConfigM {
                                            title,
                                            authors,
                                            description,
                                            language,
                                            source,
                                        },
                                    )
                                },
                            },
                        },
                    },
                },
            },
        },
    }
}

pub open spec fn pairs_view(v: Seq<(Vec<char>, Vec<char>)>) -> Seq<(Seq<char>, Seq<char>)> {
    Seq::new(v.len(), |k: int| (v[k].0@, v[k].1@))
}

fn last_value_exec(pairs: &Vec<(Vec<char>, Vec<char>)>, key: &str) -> (r: Option<Vec<char>>)
    ensures
        match r {
            Some(v) => last_value(pairs_view(pairs@), key@) == Some(v@),
            None => last_value(pairs_view(pairs@), key@) is None,
        },
{
    let kc = chars_of(key);
    let mut j: usize = pairs.len();
    proof {
        assert(pairs_view(pairs@).take(j as int) =~= pairs_view(pairs@));
    }
    while j > 0
        invariant
            j <= pairs@.len(),
            kc@ == key@,
            last_value(pairs_view(pairs@), key@) == last_value(pairs_view(pairs@).take(j as int), key@),
        decreases j,
    {
        proof {
            assert(pairs_view(pairs@).take(j as int).drop_last() =~= pairs_view(pairs@).take(j - 1));
        }
        if eq_chars(pairs[j - 1].0.as_slice(), kc.as_slice()) {
            return Some(copy_range(pairs[j - 1].1.as_slice(), 0, pairs[j - 1].1.len()));
        }
        j = j - 1;
    }
    None
}

fn required_toml_string(pairs: &Vec<(Vec<char>, Vec<char>)>, key: &str) -> (r: Result<Vec<char>, RenderError>)
    ensures
        res_view(r) == required_string(pairs_view(pairs@), key@),
{
    match last_value_exec(pairs, key) {
        None => {
            let kc = chars_of(key);
            Err(RenderError::with_detail("book.toml [book] is missing ", kc.as_slice()))
        },
        Some(v) => {
            proof {
                assert(v@.subrange(0, v@.len() as int) =~= v@);
            }
            parse_toml_string(v.as_slice())
        },
    }
}

fn string_from(v: &Vec<char>) -> (s: String)
    ensures
        s@ == v@,
{
    crate::text::string_of(v.as_slice())
}

/// Reads the `[book]` table of `book.toml`.
pub fn parse_book_config(source: &str) -> (r: Result<BookConfig, RenderError>)
    ensures
        match r {
            Ok(c) => book_config_spec(source@) == Ok::<BookConfigM, Seq<char>>(config_model(c)),
            Err(e) => book_config_spec(source@) is Err && book_config_spec(source@)->Err_0 == e@,
        },
{
    let src = chars_of(source);
    let ls = lines_exec(src.as_slice());
    let ghost lsv = lines(src@);
    let mut section: Vec<char> = Vec::new();
    let mut pairs: Vec<(Vec<char>, Vec<char>)> = Vec::new();
    let mut i: usize = 0;
    proof {
        assert(pairs_view(pairs@) =~= Seq::<(Seq<char>, Seq<char>)>::empty());
        assert(section@ =~= Seq::<char>::empty());
    }
    while i < ls.len()
        invariant
            i <= ls@.len(),
            lsv == lines(src@),
            src@ == source@,
            ls@.len() == lsv.len(),
            forall|k: int| 0 <= k < ls@.len() ==> #[trigger] ls@[k]@ == lsv[k],
            book_pairs(lsv, 0, seq![], seq![]) == book_pairs(lsv, i as int, section@, pairs_view(pairs@)),
        decreases ls@.len() - i,
    {
        let raw = ls[i].as_slice();
        proof {
            assert(raw@ == lsv[i as int]);
        }
        let stripped = strip_toml_comment(raw);
        let line = trimmed(stripped.as_slice());
        let lo = chars_of("[");
        let hi = chars_of("]");
        if line.len() == 0 {
        } else if starts_with_exec(line.as_slice(), lo.as_slice()) && ends_with_exec(
            line.as_slice(),
            hi.as_slice(),
        ) && line.len() >= 2 {
            let inner = copy_range(line.as_slice(), 1, line.len() - 1);
            section = trimmed(inner.as_slice());
        } else {
            let book = chars_of("book");
            if !eq_chars(section.as_slice(), book.as_slice()) {
            } else {
                let eq = chars_of("=");
                match find_from_exec(line.as_slice(), 0, eq.as_slice()) {
                    None => {
                        proof {
                            assert(book_pairs(lsv, i as int, section@, pairs_view(pairs@)) == Err::<
                                Seq<(Seq<char>, Seq<char>)>,
                                Seq<char>,
                            >("malformed book.toml line: "@ + raw@));
                        }
                        return Err(RenderError::with_detail("malformed book.toml line: ", raw));
                    },
                    Some(k) => {
                        proof {
                            reveal_strlit("=");
                            lemma_find_from(line@, 0, "="@);
                        }
                        let kpart = copy_range(line.as_slice(), 0, k);
                        let vpart = copy_range(line.as_slice(), k + 1, line.len());
                        let key = trimmed(kpart.as_slice());
                        let value = trimmed(vpart.as_slice());
                        let ghost before = pairs_view(pairs@);
                        pairs.push((key, value));
                        proof {
                            assert(pairs_view(pairs@) =~= before.push(
                                (trim(line@.subrange(0, k as int)), trim(line@.subrange(k + 1, line@.len() as int))),
                            ));
                        }
                    },
                }
            }
        }
        i = i + 1;
    }
    let title = match required_toml_string(&pairs, "title") {
        Err(e) => {
            return Err(e);
        },
        Ok(v) => v,
    };
    let description = match required_toml_string(&pairs, "description") {
        Err(e) => {
            return Err(e);
        },
        Ok(v) => v,
    };
    let language = match required_toml_string(&pairs, "language") {
        Err(e) => {
            return Err(e);
        },
        Ok(v) => v,
    };
    let source_dir = match required_toml_string(&pairs, "src") {
        Err(e) => {
            return Err(e);
        },
        Ok(v) => v,
    };
    let authors_raw = match last_value_exec(&pairs, "authors") {
        None => {
            return Err(RenderError::new("book.toml [book] is missing authors"));
        },
        Some(v) => v,
    };
    let authors = match parse_toml_string_array(authors_raw.as_slice()) {
        Err(e) => {
            return Err(e);
        },
        Ok(a) => a,
    };
    if authors.len() == 0 {
        return Err(RenderError::new("book.toml authors must not be empty"));
    }
    let mut names: Vec<String> = Vec::new();
    let mut j: usize = 0;
    while j < authors.len()
        invariant
            j <= authors@.len(),
            names@.len() == j,
            forall|k: int| 0 <= k < j ==> #[trigger] names@[k]@ == authors@[k]@,
        decreases authors@.len() - j,
    {
        names.push(string_from(&authors[j]));
        j = j + 1;
    }
    let config = BookConfig {
        title: string_from(&title),
        authors: names,
        description: string_from(&description),
        language: string_from(&language),
        source: string_from(&source_dir),
    };
    proof {
        assert(config_model(config).authors =~= strings_view(authors@));
    }
    Ok(config)
}

} // verus!
