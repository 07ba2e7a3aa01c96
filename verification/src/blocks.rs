//! Recognisers for single Markdown lines: headings, fences, rules, list
//! markers, table rows and standalone images.
use vstd::prelude::*;

use crate::book::RenderError;
use crate::inline::{destination_and_title, parse_destination_and_title};
use crate::markdown::{Block, BlockM, ListKind, ListMarker, ListMarkerM, block_model, marker_model};
use crate::text::{
    chars_of, copy_range, digits_value, find_from, find_from_exec, is_digit, is_whitespace, is_ws,
    lemma_find_from, lemma_run_of, matches_at, nonws_all, nonws_count, parse_digits_u64, repeat,
    repeat_exec, rfind, rfind_exec, run_count, run_of, starts_with, starts_with_exec, string_of,
    trim, trim_bounds, trimmed,
};

verus! {

/// An ATX heading: one to six `#`, a space, then the (trimmed) title.
pub open spec fn heading(line: Seq<char>) -> Option<(nat, Seq<char>)> {
    let n = run_of(line, 0, '#');
    if n == 0 || n > 6 {
        None
    } else if n < line.len() && line[n] == ' ' {
        Some((n as nat, trim(line.subrange(n + 1, line.len() as int))))
    } else {
        None
    }
}

pub fn parse_heading(line: &[char]) -> (r: Option<(usize, Vec<char>)>)
    ensures
        match r {
            Some((n, t)) => heading(line@) == Some((n as nat, t@)),
            None => heading(line@) is None,
        },
{
    let n = run_count(line, 0, '#');
    if n == 0 || n > 6 {
        return None;
    }
    if n < line.len() && line[n] == ' ' {
        let rest = copy_range(line, n + 1, line.len());
        Some((n, trimmed(rest.as_slice())))
    } else {
        None
    }
}

/// An opening code fence: three or more backticks (or tildes) and the info text.
pub open spec fn fence_start(line: Seq<char>) -> Option<(Seq<char>, Seq<char>)> {
    let b = run_of(line, 0, '`');
    let t = run_of(line, 0, '~');
    if b >= 3 {
        Some((repeat('`', b as nat), trim(line.subrange(b, line.len() as int))))
    } else if t >= 3 {
        Some((repeat('~', t as nat), trim(line.subrange(t, line.len() as int))))
    } else {
        None
    }
}

pub fn parse_fence_start(line: &[char]) -> (r: Option<(Vec<char>, Vec<char>)>)
    ensures
        match r {
            Some((m, i)) => fence_start(line@) == Some((m@, i@)),
            None => fence_start(line@) is None,
        },
{
    let b = run_count(line, 0, '`');
    if b >= 3 {
        let rest = copy_range(line, b, line.len());
        return Some((repeat_exec('`', b), trimmed(rest.as_slice())));
    }
    let t = run_count(line, 0, '~');
    if t >= 3 {
        let rest = copy_range(line, t, line.len());
        return Some((repeat_exec('~', t), trimmed(rest.as_slice())));
    }
    None
}

/// The line closes a fence opened with `marker`.
pub open spec fn fence_end(line: Seq<char>, marker: Seq<char>) -> bool {
    starts_with(line, marker) && trim(line.subrange(marker.len() as int, line.len() as int)).len()
        == 0
}

pub fn is_fence_end(line: &[char], marker: &[char]) -> (b: bool)
    ensures
        b == fence_end(line@, marker@),
{
    if !starts_with_exec(line, marker) {
        return false;
    }
    let rest = copy_range(line, marker.len(), line.len());
    trimmed(rest.as_slice()).len() == 0
}

/// A thematic break: at least three `-` (or three `*`) and nothing else but whitespace.
pub open spec fn rule(line: Seq<char>) -> bool {
    nonws_count(line) >= 3 && (nonws_all(line, '-') || nonws_all(line, '*'))
}

proof fn lemma_nonws_all_push(s: Seq<char>, c: char, x: char)
    ensures
        nonws_all(s.push(c), x) == (nonws_all(s, x) && (is_ws(c) || c == x)),
{
    let t = s.push(c);
    if nonws_all(s, x) && (is_ws(c) || c == x) {
        assert forall|k: int| 0 <= k < t.len() && !is_ws(t[k]) implies t[k] == x by {
            if k < s.len() {
                assert(t[k] == s[k]);
            }
        }
    }
    if nonws_all(t, x) {
        assert forall|k: int| 0 <= k < s.len() && !is_ws(s[k]) implies s[k] == x by {
            assert(t[k] == s[k]);
        }
        assert(t[s.len() as int] == c);
    }
}

pub fn is_rule(line: &[char]) -> (b: bool)
    ensures
        b == rule(line@),
{
    let mut count: usize = 0;
    let mut dashes = true;
    let mut stars = true;
    let mut i: usize = 0;
    while i < line.len()
        invariant
            i <= line@.len(),
            count == nonws_count(line@.take(i as int)),
            count <= i,
            dashes == nonws_all(line@.take(i as int), '-'),
            stars == nonws_all(line@.take(i as int), '*'),
        decreases line@.len() - i,
    {
        let c = line[i];
        proof {
            assert(line@.take(i + 1).drop_last() =~= line@.take(i as int));
            lemma_nonws_all_push(line@.take(i as int), c, '-');
            lemma_nonws_all_push(line@.take(i as int), c, '*');
            assert(line@.take(i as int).push(c) =~= line@.take(i + 1));
        }
        if !is_whitespace(c) {
            count = count + 1;
            if c != '-' {
                dashes = false;
            }
            if c != '*' {
                stars = false;
            }
        }
        i = i + 1;
        proof {
            let t = line@.take(i as int);
            assert forall|k: int| 0 <= k < t.len() - 1 implies t[k] == line@.take(i - 1)[k] by {}
        }
    }
    proof {
        assert(line@.take(line@.len() as int) =~= line@);
    }
    count >= 3 && (dashes || stars)
}

pub open spec fn tab_error() -> Seq<char> {
    "tabs are not supported for Markdown indentation"@
}

/// Number of leading spaces; a tab among them is an error.
pub open spec fn leading_spaces_spec(line: Seq<char>) -> Result<nat, Seq<char>> {
    let k = run_of(line, 0, ' ');
    if k < line.len() && line[k] == '\t' {
        Err(tab_error())
    } else {
        Ok(k as nat)
    }
}

pub fn leading_spaces(line: &[char]) -> (r: Result<usize, RenderError>)
    ensures
        match r {
            Ok(k) => leading_spaces_spec(line@) == Ok::<nat, Seq<char>>(k as nat),
            Err(e) => leading_spaces_spec(line@) == Err::<nat, Seq<char>>(e@),
        },
{
    let k = run_count(line, 0, ' ');
    if k < line.len() && line[k] == '\t' {
        return Err(RenderError::new("tabs are not supported for Markdown indentation"));
    }
    Ok(k)
}

/// Number of leading ASCII digits from `i`.
pub open spec fn digit_run(s: Seq<char>, i: int) -> int
    decreases s.len() - i,
{
    if 0 <= i < s.len() && is_digit(s[i]) {
        1 + digit_run(s, i + 1)
    } else {
        0
    }
}

fn digit_count(s: &[char]) -> (n: usize)
    ensures
        n == digit_run(s@, 0),
        n <= s@.len(),
        forall|k: int| 0 <= k < n ==> is_digit(#[trigger] s@[k]),
{
    let mut j: usize = 0;
    while j < s.len() && '0' <= s[j] && s[j] <= '9'
        invariant
            j <= s@.len(),
            digit_run(s@, 0) == j + digit_run(s@, j as int),
            forall|k: int| 0 <= k < j ==> is_digit(#[trigger] s@[k]),
        decreases s@.len() - j,
    {
        j = j + 1;
    }
    j
}

pub open spec fn list_number_error() -> Seq<char> {
    "invalid ordered-list number: number too large to fit in target type"@
}

/// A list marker (`- `, `* ` or `<digits>. `) after leading spaces.
pub open spec fn list_marker(line: Seq<char>) -> Result<Option<ListMarkerM>, Seq<char>> {
    match leading_spaces_spec(line) {
        Err(e) => Err(e),
        Ok(indent) => {
            let t = line.subrange(indent as int, line.len() as int);
            if starts_with(t, "- "@) || starts_with(t, "* "@) {
                Ok(
                    Some(
                        ListMarkerM {
                            indent,
                            kind: ListKind::Bullet,
                            start: 1,
                            content: t.subrange(2, t.len() as int),
                        },
                    ),
                )
            } else {
                let d = digit_run(t, 0);
                if d == 0 {
                    Ok(None)
                } else if !starts_with(t.subrange(d, t.len() as int), ". "@) {
                    Ok(None)
                } else if digits_value(t.subrange(0, d)) > u64::MAX {
                    Err(list_number_error())
                } else {
                    Ok(
                        Some(
                            ListMarkerM {
                                indent,
                                kind: ListKind::Ordered,
                                start: digits_value(t.subrange(0, d)),
                                content: t.subrange(d + 2, t.len() as int),
                            },
                        ),
                    )
                }
            }
        },
    }
}

pub open spec fn marker_result(r: Result<Option<ListMarker>, RenderError>) -> Result<
    Option<ListMarkerM>,
    Seq<char>,
> {
    match r {
        Ok(Some(m)) => Ok(Some(marker_model(m))),
        Ok(None) => Ok(None),
        Err(e) => Err(e@),
    }
}

pub fn parse_list_marker(line: &[char]) -> (r: Result<Option<ListMarker>, RenderError>)
    ensures
        marker_result(r) == list_marker(line@),
{
    proof {
        reveal_strlit("- ");
        reveal_strlit("* ");
        reveal_strlit(". ");
    }
    let indent = match leading_spaces(line) {
        Err(e) => {
            return Err(e);
        },
        Ok(k) => k,
    };
    proof {
        lemma_run_of(line@, 0, ' ');
    }
    let t = copy_range(line, indent, line.len());
    let dash = chars_of("- ");
    let star = chars_of("* ");
    if starts_with_exec(t.as_slice(), dash.as_slice()) || starts_with_exec(
        t.as_slice(),
        star.as_slice(),
    ) {
        let content = copy_range(t.as_slice(), 2, t.len());
        return Ok(Some(ListMarker { indent, kind: ListKind::Bullet, start: 1, content }));
    }
    let d = digit_count(t.as_slice());
    if d == 0 {
        return Ok(None);
    }
    let after = copy_range(t.as_slice(), d, t.len());
    let dot = chars_of(". ");
    if !starts_with_exec(after.as_slice(), dot.as_slice()) {
        return Ok(None);
    }
    let digits = copy_range(t.as_slice(), 0, d);
    match parse_digits_u64(digits.as_slice()) {
        None => Err(
            RenderError::new("invalid ordered-list number: number too large to fit in target type"),
        ),
        Some(start) => {
            let content = copy_range(t.as_slice(), d + 2, t.len());
            Ok(Some(ListMarker { indent, kind: ListKind::Ordered, start, content }))
        },
    }
}

/// The cells of a table row, before the trimming of each cell's own text.
pub open spec fn cells_from(
    t: Seq<char>,
    i: int,
    escaped: bool,
    current: Seq<char>,
    cells: Seq<Seq<char>>,
) -> Result<Seq<Seq<char>>, Seq<char>>
    decreases t.len() - i,
{
    if i < 0 || i >= t.len() {
        if escaped {
            Err("table row ends with an incomplete escape"@)
        } else {
            let all = cells.push(trim(current));
            let no_first = if all[0].len() == 0 {
                all.drop_first()
            } else {
                all
            };
            Ok(
                if no_first.len() > 0 && no_first.last().len() == 0 {
                    no_first.drop_last()
                } else {
                    no_first
                },
            )
        }
    } else if escaped {
        cells_from(t, i + 1, false, current.push(t[i]), cells)
    } else if t[i] == '\\' {
        cells_from(t, i + 1, true, current, cells)
    } else if t[i] == '|' {
        cells_from(t, i + 1, false, seq![], cells.push(trim(current)))
    } else {
        cells_from(t, i + 1, false, current.push(t[i]), cells)
    }
}

/// The cells of a table row: split at unescaped `|`, each trimmed, without
/// the empty cells outside the first and last bar.
pub open spec fn table_cells(line: Seq<char>) -> Result<Seq<Seq<char>>, Seq<char>> {
    cells_from(trim(line), 0, false, seq![], seq![])
}

pub open spec fn cells_view(v: Seq<Vec<char>>) -> Seq<Seq<char>> {
    Seq::new(v.len(), |k: int| v[k]@)
}

pub fn split_table_cells(line: &[char]) -> (r: Result<Vec<Vec<char>>, RenderError>)
    ensures
        match r {
            Ok(v) => table_cells(line@) == Ok::<Seq<Seq<char>>, Seq<char>>(cells_view(v@)),
            Err(e) => table_cells(line@) == Err::<Seq<Seq<char>>, Seq<char>>(e@),
        },
{
    let t = trimmed(line);
    let mut cells: Vec<Vec<char>> = Vec::new();
    let mut current: Vec<char> = Vec::new();
    let mut escaped = false;
    let mut i: usize = 0;
    proof {
        assert(cells_view(cells@) =~= Seq::<Seq<char>>::empty());
        assert(current@ =~= Seq::<char>::empty());
    }
    while i < t.len()
        invariant
            i <= t@.len(),
            t@ == trim(line@),
            cells_from(t@, i as int, escaped, current@, cells_view(cells@)) == table_cells(line@),
        decreases t@.len() - i,
    {
        let c = t[i];
        if escaped {
            current.push(c);
            escaped = false;
        } else if c == '\\' {
            escaped = true;
        } else if c == '|' {
            let cell = trimmed(current.as_slice());
            proof {
                assert(cells_view(cells@.push(cell)) =~= cells_view(cells@).push(trim(current@)));
            }
            cells.push(cell);
            current = Vec::new();
        } else {
            current.push(c);
        }
        i = i + 1;
    }
    if escaped {
        return Err(RenderError::new("table row ends with an incomplete escape"));
    }
    let cell = trimmed(current.as_slice());
    proof {
        assert(cells_view(cells@.push(cell)) =~= cells_view(cells@).push(trim(current@)));
    }
    cells.push(cell);
    let ghost all = cells_view(cells@);
    if cells[0].len() == 0 {
        cells.remove(0);
        proof {
            assert(cells_view(cells@) =~= all.drop_first());
        }
    } else {
        proof {
            assert(cells_view(cells@) =~= all);
        }
    }
    let ghost no_first = cells_view(cells@);
    let n = cells.len();
    if n > 0 && cells[n - 1].len() == 0 {
        cells.pop();
        proof {
            assert(cells_view(cells@) =~= no_first.drop_last());
        }
    }
    Ok(cells)
}

/// `s` with every leading `c` removed.
pub open spec fn trim_start_char(s: Seq<char>, c: char) -> Seq<char> {
    s.subrange(run_of(s, 0, c), s.len() as int)
}

/// Number of copies of `c` that end `s.subrange(0, j)`.
pub open spec fn back_run(s: Seq<char>, j: int, c: char) -> int
    decreases j,
{
    if 0 < j <= s.len() && s[j - 1] == c {
        1 + back_run(s, j - 1, c)
    } else {
        0
    }
}

/// `s` with every trailing `c` removed.
pub open spec fn trim_end_char(s: Seq<char>, c: char) -> Seq<char> {
    s.subrange(0, s.len() - back_run(s, s.len() as int, c))
}

/// A delimiter cell: at least three dashes between optional alignment colons.
pub open spec fn delimiter_cell(cell: Seq<char>) -> bool {
    let v = trim_end_char(trim_start_char(trim(cell), ':'), ':');
    v.len() >= 3 && forall|k: int| 0 <= k < v.len() ==> v[k] == '-'
}

/// The separator row under a table header.
pub open spec fn table_delimiter(line: Seq<char>) -> bool {
    match table_cells(line) {
        Err(_) => false,
        Ok(cells) => cells.len() > 0 && forall|k: int|
            0 <= k < cells.len() ==> delimiter_cell(#[trigger] cells[k]),
    }
}

pub proof fn lemma_back_run(s: Seq<char>, j: int, c: char)
    requires
        0 <= j <= s.len(),
    ensures
        0 <= back_run(s, j, c) <= j,
    decreases j,
{
    if 0 < j && s[j - 1] == c {
        lemma_back_run(s, j - 1, c);
    }
}

pub fn back_count(s: &[char], c: char) -> (n: usize)
    ensures
        n == back_run(s@, s@.len() as int, c),
        n <= s@.len(),
{
    let mut j = s.len();
    while j > 0 && s[j - 1] == c
        invariant
            j <= s@.len(),
            back_run(s@, s@.len() as int, c) == (s@.len() - j) + back_run(s@, j as int, c),
        decreases j,
    {
        j = j - 1;
    }
    proof {
        lemma_back_run(s@, j as int, c);
    }
    s.len() - j
}

fn is_delimiter_cell(cell: &[char]) -> (b: bool)
    ensures
        b == delimiter_cell(cell@),
{
    let t = trimmed(cell);
    let a = run_count(t.as_slice(), 0, ':');
    let u = copy_range(t.as_slice(), a, t.len());
    let z = back_count(u.as_slice(), ':');
    let v = copy_range(u.as_slice(), 0, u.len() - z);
    proof {
        assert(u@ == trim_start_char(trim(cell@), ':'));
        assert(v@ == trim_end_char(trim_start_char(trim(cell@), ':'), ':'));
    }
    if v.len() < 3 {
        return false;
    }
    let mut k: usize = 0;
    while k < v.len()
        invariant
            k <= v@.len(),
            v@ == trim_end_char(trim_start_char(trim(cell@), ':'), ':'),
            forall|m: int| 0 <= m < k ==> v@[m] == '-',
        decreases v@.len() - k,
    {
        if v[k] != '-' {
            proof {
                assert(v@[k as int] != '-');
            }
            return false;
        }
        k = k + 1;
    }
    true
}

pub fn is_table_delimiter(line: &[char]) -> (b: bool)
    ensures
        b == table_delimiter(line@),
{
    match split_table_cells(line) {
        Err(_) => false,
        Ok(cells) => {
            if cells.len() == 0 {
                return false;
            }
            let mut k: usize = 0;
            while k < cells.len()
                invariant
                    k <= cells@.len(),
                    table_cells(line@) == Ok::<Seq<Seq<char>>, Seq<char>>(cells_view(cells@)),
                    forall|m: int|
                        0 <= m < k ==> delimiter_cell(#[trigger] cells_view(cells@)[m]),
                decreases cells@.len() - k,
            {
                if !is_delimiter_cell(cells[k].as_slice()) {
                    proof {
                        assert(cells_view(cells@)[k as int] == cells@[k as int]@);
                        assert(!delimiter_cell(cells_view(cells@)[k as int]));
                    }
                    return false;
                }
                k = k + 1;
            }
            true
        },
    }
}

/// A line that holds nothing but `![alt](destination)`.
pub open spec fn standalone_image(line: Seq<char>) -> Result<Option<BlockM>, Seq<char>> {
    if !starts_with(line, "!["@) {
        Ok(None)
    } else {
        match find_from(line, 0, "]("@) {
            None => Err("malformed Markdown image"@),
            Some(alt_end) => match rfind(line, ")"@) {
                None => Err("malformed Markdown image"@),
                Some(close) => if close + 1 != line.len() {
                    Err("standalone Markdown image has trailing content"@)
                } else if !(2 <= alt_end && alt_end + 2 <= close) {
                    Err("malformed Markdown image"@)
                } else {
                    match destination_and_title(trim(line.subrange(alt_end + 2, close))) {
                        Err(e) => Err(e),
                        Ok((path, caption)) => Ok(
                            Some(
                                BlockM::Image {
                                    alt: line.subrange(2, alt_end),
                                    path,
                                    caption,
                                },
                            ),
                        ),
                    }
                },
            },
        }
    }
}

pub open spec fn image_result(r: Result<Option<Block>, RenderError>) -> Result<
    Option<BlockM>,
    Seq<char>,
> {
    match r {
        Ok(Some(b)) => Ok(Some(block_model(b))),
        Ok(None) => Ok(None),
        Err(e) => Err(e@),
    }
}

pub fn parse_standalone_image(line: &[char]) -> (r: Result<Option<Block>, RenderError>)
    ensures
        image_result(r) == standalone_image(line@),
        r matches Ok(Some(b)) ==> b is Image,
{
    proof {
        reveal_strlit("![");
        reveal_strlit("](");
        reveal_strlit(")");
    }
    let open = chars_of("![");
    if !starts_with_exec(line, open.as_slice()) {
        return Ok(None);
    }
    let mid = chars_of("](");
    let alt_end = match find_from_exec(line, 0, mid.as_slice()) {
        None => {
            return Err(RenderError::new("malformed Markdown image"));
        },
        Some(k) => k,
    };
    proof {
        lemma_find_from(line@, 0, "]("@);
    }
    let paren = chars_of(")");
    let close = match rfind_exec(line, paren.as_slice()) {
        None => {
            return Err(RenderError::new("malformed Markdown image"));
        },
        Some(k) => k,
    };
    if close != line.len() - 1 {
        return Err(RenderError::new("standalone Markdown image has trailing content"));
    }
    if !(2 <= alt_end && alt_end + 2 <= close) {
        return Err(RenderError::new("malformed Markdown image"));
    }
    let raw = copy_range(line, alt_end + 2, close);
    let raw_trimmed = trimmed(raw.as_slice());
    match parse_destination_and_title(raw_trimmed.as_slice()) {
        Err(e) => Err(e),
        Ok((path, caption)) => {
            let alt = copy_range(line, 2, alt_end);
            let caption_string = match caption {
                Some(c) => Some(string_of(c.as_slice())),
                None => None,
            };
            Ok(
                Some(
                    Block::Image {
                        alt: string_of(alt.as_slice()),
                        path: string_of(path.as_slice()),
                        caption: caption_string,
                    },
                ),
            )
        },
    }
}

} // verus!
