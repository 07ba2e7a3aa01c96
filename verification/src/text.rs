//! Character-level helpers shared by the parsers and renderers.
//!
//! Text is handled as `Vec<char>` inside the library; the specifications speak
//! of `Seq<char>`, the view of both `String` and `&str`.
use vstd::prelude::*;

verus! {

/// The characters of `s`, in order.
pub fn chars_of(s: &str) -> (v: Vec<char>)
    ensures
        v@ == s@,
{
    let mut v: Vec<char> = Vec::new();
    for c in it: s.chars()
        invariant
            v@ == it.seq().take(it.index() as int),
            it.seq() == s@,
    {
        v.push(c);
    }
    v
}

/// Collects characters into a `String` (std's `FromIterator<&char>` for
/// `String`): the string holds exactly the given characters, in order.
#[verifier::external_body]
pub(crate) fn string_of(v: &[char]) -> (s: String)
    ensures
        s@ == v@,
{
    v.iter().collect()
}

/// What `{:?}` prints for a string: std's `Debug` for `str`, the text in
/// double quotes with std's escapes.
pub uninterp spec fn debug_quoted(s: Seq<char>) -> Seq<char>;

/// Formats a string with `{:?}` (std's `Debug` for `str`). The result is
/// named by [`debug_quoted`]; nothing more is claimed of std's escaping.
#[verifier::external_body]
pub(crate) fn debug_str(s: &[char]) -> (r: Vec<char>)
    ensures
        r@ == debug_quoted(s@),
{
    let text: String = s.iter().collect();
    format!("{text:?}").chars().collect()
}

/// The Unicode `White_Space` property, as `char::is_whitespace` documents it.
pub open spec fn is_ws(c: char) -> bool {
    ||| c == '\t'
    ||| c == '\n'
    ||| c == '\u{0B}'
    ||| c == '\u{0C}'
    ||| c == '\r'
    ||| c == ' '
    ||| c == '\u{85}'
    ||| c == '\u{A0}'
    ||| c == '\u{1680}'
    ||| ('\u{2000}' <= c && c <= '\u{200A}')
    ||| c == '\u{2028}'
    ||| c == '\u{2029}'
    ||| c == '\u{202F}'
    ||| c == '\u{205F}'
    ||| c == '\u{3000}'
}

pub fn is_whitespace(c: char) -> (b: bool)
    ensures
        b == is_ws(c),
{
    c == '\t' || c == '\n' || c == '\u{0B}' || c == '\u{0C}' || c == '\r' || c == ' ' || c
        == '\u{85}' || c == '\u{A0}' || c == '\u{1680}' || ('\u{2000}' <= c && c <= '\u{200A}')
        || c == '\u{2028}' || c == '\u{2029}' || c == '\u{202F}' || c == '\u{205F}' || c
        == '\u{3000}'
}

pub open spec fn is_digit(c: char) -> bool {
    '0' <= c && c <= '9'
}

pub open spec fn is_ascii_alpha(c: char) -> bool {
    ('a' <= c && c <= 'z') || ('A' <= c && c <= 'Z')
}

pub open spec fn is_ascii_alnum(c: char) -> bool {
    is_digit(c) || is_ascii_alpha(c)
}

/// Number of leading characters of `s` from `i` on that satisfy whitespace.
pub open spec fn ws_run_end(s: Seq<char>, i: int) -> int
    decreases s.len() - i,
{
    if 0 <= i < s.len() && is_ws(s[i]) {
        ws_run_end(s, i + 1)
    } else {
        i
    }
}

/// Index at which `s.subrange(0, j)` stops ending in whitespace.
pub open spec fn ws_run_start(s: Seq<char>, j: int) -> int
    decreases j,
{
    if 0 < j <= s.len() && is_ws(s[j - 1]) {
        ws_run_start(s, j - 1)
    } else {
        j
    }
}

pub open spec fn trim_start(s: Seq<char>) -> Seq<char> {
    s.subrange(ws_run_end(s, 0), s.len() as int)
}

pub open spec fn trim_end(s: Seq<char>) -> Seq<char> {
    s.subrange(0, ws_run_start(s, s.len() as int))
}

/// `str::trim`: whitespace removed from both ends.
pub open spec fn trim(s: Seq<char>) -> Seq<char> {
    trim_end(trim_start(s))
}

pub proof fn lemma_ws_run_end_bounds(s: Seq<char>, i: int)
    requires
        0 <= i <= s.len(),
    ensures
        i <= ws_run_end(s, i) <= s.len(),
        ws_run_end(s, i) < s.len() ==> !is_ws(s[ws_run_end(s, i)]),
        forall|k: int| i <= k < ws_run_end(s, i) ==> is_ws(#[trigger] s[k]),
    decreases s.len() - i,
{
    if i < s.len() && is_ws(s[i]) {
        lemma_ws_run_end_bounds(s, i + 1);
    }
}

pub proof fn lemma_ws_run_start_bounds(s: Seq<char>, j: int)
    requires
        0 <= j <= s.len(),
    ensures
        0 <= ws_run_start(s, j) <= j,
        ws_run_start(s, j) > 0 ==> !is_ws(s[ws_run_start(s, j) - 1]),
        forall|k: int| ws_run_start(s, j) <= k < j ==> is_ws(#[trigger] s[k]),
    decreases j,
{
    if 0 < j && is_ws(s[j - 1]) {
        lemma_ws_run_start_bounds(s, j - 1);
    }
}

/// Index of the first non-whitespace character at or after `i`.
pub fn skip_ws(s: &[char], i: usize) -> (r: usize)
    requires
        i <= s@.len(),
    ensures
        r == ws_run_end(s@, i as int),
        i <= r <= s@.len(),
{
    let mut j = i;
    while j < s.len() && is_whitespace(s[j])
        invariant
            i <= j <= s@.len(),
            ws_run_end(s@, i as int) == ws_run_end(s@, j as int),
        decreases s@.len() - j,
    {
        j = j + 1;
    }
    proof {
        lemma_ws_run_end_bounds(s@, i as int);
    }
    j
}

/// Index just after the last non-whitespace character before `j`.
pub fn back_skip_ws(s: &[char], j: usize) -> (r: usize)
    requires
        j <= s@.len(),
    ensures
        r == ws_run_start(s@, j as int),
        r <= j,
{
    let mut k = j;
    while k > 0 && is_whitespace(s[k - 1])
        invariant
            k <= j <= s@.len(),
            ws_run_start(s@, j as int) == ws_run_start(s@, k as int),
        decreases k,
    {
        k = k - 1;
    }
    proof {
        lemma_ws_run_start_bounds(s@, j as int);
    }
    k
}

pub proof fn lemma_ws_run_start_sub(s: Seq<char>, a: int, j: int)
    requires
        0 <= a <= j <= s.len(),
    ensures
        ws_run_start(s.subrange(a, s.len() as int), j - a) == if ws_run_start(s, j) >= a {
            ws_run_start(s, j) - a
        } else {
            0
        },
    decreases j,
{
    let t = s.subrange(a, s.len() as int);
    if j > a && is_ws(s[j - 1]) {
        assert(t[j - a - 1] == s[j - 1]);
        lemma_ws_run_start_sub(s, a, j - 1);
    } else if j > a {
        assert(t[j - a - 1] == s[j - 1]);
    } else {
        lemma_ws_run_start_bounds(s, j);
    }
}

/// The bounds of `trim(s)` inside `s`.
pub fn trim_bounds(s: &[char]) -> (r: (usize, usize))
    ensures
        r.0 <= r.1 <= s@.len(),
        s@.subrange(r.0 as int, r.1 as int) == trim(s@),
        r.0 == ws_run_end(s@, 0),
{
    let a = skip_ws(s, 0);
    let b = back_skip_ws(s, s.len());
    proof {
        lemma_ws_run_end_bounds(s@, 0);
        lemma_ws_run_start_bounds(s@, s@.len() as int);
        lemma_ws_run_start_sub(s@, a as int, s@.len() as int);
        if (b as int) < (a as int) {
            // everything is whitespace
            assert forall|k: int| 0 <= k < s@.len() implies is_ws(#[trigger] s@[k]) by {
                if k < a {
                } else {
                }
            }
            assert(a == s@.len()) by {
                if a < s@.len() {
                    assert(is_ws(s@[a as int]));
                }
            }
        }
    }
    let b2 = if b < a {
        a
    } else {
        b
    };
    proof {
        let t = s@.subrange(a as int, s@.len() as int);
        assert(trim_start(s@) == t);
        if b >= a {
            assert(t.subrange(0, b - a) =~= s@.subrange(a as int, b as int));
        } else {
            assert(t.subrange(0, 0) =~= s@.subrange(a as int, a as int));
        }
    }
    (a, b2)
}

/// A copy of `s[a..b]`.
pub fn copy_range(s: &[char], a: usize, b: usize) -> (v: Vec<char>)
    requires
        a <= b <= s@.len(),
    ensures
        v@ == s@.subrange(a as int, b as int),
{
    let mut v: Vec<char> = Vec::new();
    let mut i = a;
    while i < b
        invariant
            a <= i <= b <= s@.len(),
            v@ == s@.subrange(a as int, i as int),
        decreases b - i,
    {
        v.push(s[i]);
        i = i + 1;
        proof {
            assert(v@ =~= s@.subrange(a as int, i as int));
        }
    }
    v
}

/// `trim(s)` as a new vector.
pub fn trimmed(s: &[char]) -> (v: Vec<char>)
    ensures
        v@ == trim(s@),
{
    let (a, b) = trim_bounds(s);
    copy_range(s, a, b)
}

/// Appends `t` to `out`.
pub fn push_all(out: &mut Vec<char>, t: &[char])
    ensures
        final(out)@ == old(out)@ + t@,
{
    let mut i: usize = 0;
    let ghost start = out@;
    while i < t.len()
        invariant
            i <= t@.len(),
            out@ == start + t@.subrange(0, i as int),
        decreases t@.len() - i,
    {
        out.push(t[i]);
        i = i + 1;
        proof {
            assert(out@ =~= start + t@.subrange(0, i as int));
        }
    }
    proof {
        assert(t@.subrange(0, t@.len() as int) =~= t@);
    }
}

/// Appends the characters of `t` to `out`.
pub fn push_str(out: &mut Vec<char>, t: &str)
    ensures
        final(out)@ == old(out)@ + t@,
{
    let v = chars_of(t);
    push_all(out, v.as_slice());
}

/// `pat` occurs in `s` at index `i`.
pub open spec fn matches_at(s: Seq<char>, i: int, pat: Seq<char>) -> bool {
    0 <= i && i + pat.len() <= s.len() && s.subrange(i, i + pat.len()) == pat
}

pub fn matches_at_exec(s: &[char], i: usize, pat: &[char]) -> (b: bool)
    ensures
        b == matches_at(s@, i as int, pat@),
{
    if pat.len() > s.len() || i > s.len() - pat.len() {
        return false;
    }
    let mut k: usize = 0;
    while k < pat.len()
        invariant
            k <= pat@.len(),
            i + pat@.len() <= s@.len(),
            i + pat@.len() <= s.len(),
            forall|m: int| 0 <= m < k ==> s@[i + m] == pat@[m],
        decreases pat@.len() - k,
    {
        if s[i + k] != pat[k] {
            proof {
                assert(s@.subrange(i as int, i + pat@.len())[k as int] != pat@[k as int]);
            }
            return false;
        }
        k = k + 1;
    }
    proof {
        assert(s@.subrange(i as int, i + pat@.len()) =~= pat@);
    }
    true
}

/// First index `k >= from` at which `pat` occurs in `s`.
pub open spec fn find_from(s: Seq<char>, from: int, pat: Seq<char>) -> Option<int>
    decreases s.len() + 1 - from,
{
    if from < 0 || from + pat.len() > s.len() {
        None
    } else if matches_at(s, from, pat) {
        Some(from)
    } else {
        find_from(s, from + 1, pat)
    }
}

pub proof fn lemma_find_from(s: Seq<char>, from: int, pat: Seq<char>)
    requires
        0 <= from,
    ensures
        find_from(s, from, pat) matches Some(k) ==> from <= k && matches_at(s, k, pat) && forall|
            m: int,
        |
            from <= m < k ==> !#[trigger] matches_at(s, m, pat),
        find_from(s, from, pat) is None ==> forall|m: int|
            from <= m ==> !#[trigger] matches_at(s, m, pat),
    decreases s.len() + 1 - from,
{
    if from + pat.len() > s.len() {
    } else if matches_at(s, from, pat) {
    } else {
        lemma_find_from(s, from + 1, pat);
    }
}

pub fn find_from_exec(s: &[char], from: usize, pat: &[char]) -> (r: Option<usize>)
    requires
        from <= s@.len(),
    ensures
        r matches Some(k) ==> find_from(s@, from as int, pat@) == Some(k as int),
        r is None ==> find_from(s@, from as int, pat@) is None,
{
    if pat.len() == 0 {
        proof {
            assert(s@.subrange(from as int, from as int) =~= pat@);
        }
        return Some(from);
    }
    let mut i = from;
    while i <= s.len() && pat.len() <= s.len() - i
        invariant
            from <= i,
            pat@.len() > 0,
            find_from(s@, from as int, pat@) == find_from(s@, i as int, pat@),
        decreases s@.len() + 1 - i,
    {
        if matches_at_exec(s, i, pat) {
            return Some(i);
        }
        i = i + 1;
    }
    None
}

/// Last index `k <= upto` at which `pat` occurs in `s`.
pub open spec fn rfind_upto(s: Seq<char>, upto: int, pat: Seq<char>) -> Option<int>
    decreases upto + 1,
{
    if upto < 0 {
        None
    } else if matches_at(s, upto, pat) {
        Some(upto)
    } else {
        rfind_upto(s, upto - 1, pat)
    }
}

pub proof fn lemma_rfind_upto(s: Seq<char>, upto: int, pat: Seq<char>)
    ensures
        rfind_upto(s, upto, pat) matches Some(k) ==> k <= upto && matches_at(s, k, pat),
    decreases upto + 1,
{
    if upto >= 0 && !matches_at(s, upto, pat) {
        lemma_rfind_upto(s, upto - 1, pat);
    }
}

/// `str::rfind`: start of the last occurrence of `pat` in `s`.
pub open spec fn rfind(s: Seq<char>, pat: Seq<char>) -> Option<int> {
    rfind_upto(s, s.len() - pat.len(), pat)
}

pub fn rfind_exec(s: &[char], pat: &[char]) -> (r: Option<usize>)
    ensures
        r matches Some(k) ==> rfind(s@, pat@) == Some(k as int),
        r is None ==> rfind(s@, pat@) is None,
{
    if pat.len() > s.len() {
        proof {
            assert(rfind_upto(s@, s@.len() - pat@.len(), pat@) is None);
        }
        return None;
    }
    let mut i = s.len() - pat.len();
    loop
        invariant
            i + pat@.len() <= s@.len(),
            rfind(s@, pat@) == rfind_upto(s@, i as int, pat@),
        decreases i,
    {
        if matches_at_exec(s, i, pat) {
            return Some(i);
        }
        if i == 0 {
            proof {
                assert(rfind_upto(s@, -1, pat@) is None);
            }
            return None;
        }
        i = i - 1;
    }
}

/// `s` contains `pat`.
pub open spec fn contains(s: Seq<char>, pat: Seq<char>) -> bool {
    find_from(s, 0, pat) is Some
}

pub fn contains_exec(s: &[char], pat: &[char]) -> (b: bool)
    ensures
        b == contains(s@, pat@),
{
    find_from_exec(s, 0, pat).is_some()
}

/// `pat` is a prefix of `s`.
pub open spec fn starts_with(s: Seq<char>, pat: Seq<char>) -> bool {
    matches_at(s, 0, pat)
}

/// `pat` is a suffix of `s`.
pub open spec fn ends_with(s: Seq<char>, pat: Seq<char>) -> bool {
    matches_at(s, s.len() - pat.len(), pat)
}

pub fn starts_with_exec(s: &[char], pat: &[char]) -> (b: bool)
    ensures
        b == starts_with(s@, pat@),
{
    matches_at_exec(s, 0, pat)
}

pub fn ends_with_exec(s: &[char], pat: &[char]) -> (b: bool)
    ensures
        b == ends_with(s@, pat@),
{
    if pat.len() > s.len() {
        return false;
    }
    matches_at_exec(s, s.len() - pat.len(), pat)
}

/// A line without the carriage return that preceded its line feed.
pub open spec fn strip_cr(line: Seq<char>) -> Seq<char> {
    if line.len() > 0 && line.last() == '\r' {
        line.drop_last()
    } else {
        line
    }
}

/// `str::lines` from index `pos` on: split at `\n`, a `\r` before the `\n`
/// dropped, and no empty last line for a trailing line feed.
pub open spec fn lines_from(s: Seq<char>, pos: int) -> Seq<Seq<char>>
    decreases s.len() - pos,
{
    if pos < 0 || pos >= s.len() {
        seq![]
    } else {
        match find_from(s, pos, seq!['\n']) {
            Some(k) => if pos <= k && k < s.len() {
                seq![strip_cr(s.subrange(pos, k))] + lines_from(s, k + 1)
            } else {
                seq![]
            },
            None => seq![s.subrange(pos, s.len() as int)],
        }
    }
}

pub open spec fn lines(s: Seq<char>) -> Seq<Seq<char>> {
    lines_from(s, 0)
}

pub fn lines_exec(s: &[char]) -> (r: Vec<Vec<char>>)
    ensures
        r@.len() == lines(s@).len(),
        forall|i: int| 0 <= i < r@.len() ==> #[trigger] r@[i]@ == lines(s@)[i],
{
    let mut out: Vec<Vec<char>> = Vec::new();
    let mut pos: usize = 0;
    let nl = ['\n'];
    let ghost acc: Seq<Seq<char>> = seq![];
    while pos < s.len()
        invariant
            pos <= s@.len(),
            nl@ == seq!['\n'],
            out@.len() == acc.len(),
            forall|i: int| 0 <= i < out@.len() ==> #[trigger] out@[i]@ == acc[i],
            lines(s@) == acc + lines_from(s@, pos as int),
        decreases s@.len() - pos,
    {
        match find_from_exec(s, pos, nl.as_slice()) {
            Some(k) => {
                proof {
                    lemma_find_from(s@, pos as int, seq!['\n']);
                }
                let mut line = copy_range(s, pos, k);
                if line.len() > 0 && line[line.len() - 1] == '\r' {
                    line.pop();
                }
                proof {
                    assert(line@ =~= strip_cr(s@.subrange(pos as int, k as int)));
                    let old_acc = acc;
                    acc = acc.push(line@);
                    assert(lines_from(s@, pos as int) == seq![line@] + lines_from(
                        s@,
                        k + 1,
                    ));
                    assert(old_acc + (seq![line@] + lines_from(s@, k + 1)) =~= acc
                        + lines_from(s@, k + 1));
                }
                out.push(line);
                pos = k + 1;
            },
            None => {
                let line = copy_range(s, pos, s.len());
                proof {
                    let old_acc = acc;
                    acc = acc.push(line@);
                    assert(lines_from(s@, s@.len() as int) =~= Seq::<Seq<char>>::empty());
                    assert(old_acc + seq![line@] =~= acc + lines_from(s@, s@.len() as int));
                }
                out.push(line);
                pos = s.len();
            },
        }
    }
    proof {
        assert(lines_from(s@, pos as int) =~= Seq::<Seq<char>>::empty());
        assert(lines(s@) =~= acc);
    }
    out
}

/// The lines joined with `sep` between them.
pub open spec fn join(parts: Seq<Seq<char>>, sep: Seq<char>) -> Seq<char>
    decreases parts.len(),
{
    if parts.len() == 0 {
        seq![]
    } else if parts.len() == 1 {
        parts[0]
    } else {
        join(parts.drop_last(), sep) + sep + parts.last()
    }
}

pub fn join_exec(parts: &Vec<Vec<char>>, sep: &[char]) -> (r: Vec<char>)
    ensures
        r@ == join(parts@.map_values(|p: Vec<char>| p@), sep@),
{
    let ghost views = parts@.map_values(|p: Vec<char>| p@);
    let mut out: Vec<char> = Vec::new();
    let mut i: usize = 0;
    while i < parts.len()
        invariant
            i <= parts@.len(),
            views == parts@.map_values(|p: Vec<char>| p@),
            out@ == join(views.take(i as int), sep@),
        decreases parts@.len() - i,
    {
        if i > 0 {
            push_all(&mut out, sep);
        }
        push_all(&mut out, parts[i].as_slice());
        proof {
            assert(views.take(i + 1).drop_last() =~= views.take(i as int));
            if i == 0 {
                assert(views.take(1) =~= seq![views[0]]);
            }
        }
        i = i + 1;
    }
    proof {
        assert(views.take(parts@.len() as int) =~= views);
    }
    out
}

/// Decimal digits of `n`, most significant first, without leading zeros.
pub open spec fn decimal(n: nat) -> Seq<char>
    decreases n,
{
    if n < 10 {
        seq![digit_char(n)]
    } else {
        decimal(n / 10) + seq![digit_char(n % 10)]
    }
}

pub open spec fn digit_char(d: nat) -> char {
    if d == 0 {
        '0'
    } else if d == 1 {
        '1'
    } else if d == 2 {
        '2'
    } else if d == 3 {
        '3'
    } else if d == 4 {
        '4'
    } else if d == 5 {
        '5'
    } else if d == 6 {
        '6'
    } else if d == 7 {
        '7'
    } else if d == 8 {
        '8'
    } else {
        '9'
    }
}

fn digit(d: u64) -> (c: char)
    requires
        d < 10,
    ensures
        c == digit_char(d as nat),
{
    if d == 0 {
        '0'
    } else if d == 1 {
        '1'
    } else if d == 2 {
        '2'
    } else if d == 3 {
        '3'
    } else if d == 4 {
        '4'
    } else if d == 5 {
        '5'
    } else if d == 6 {
        '6'
    } else if d == 7 {
        '7'
    } else if d == 8 {
        '8'
    } else {
        '9'
    }
}

/// Decimal text of `n` (`format!("{n}")`).
pub fn decimal_exec(n: u64) -> (r: Vec<char>)
    ensures
        r@ == decimal(n as nat),
    decreases n,
{
    if n < 10 {
        let mut v = Vec::new();
        v.push(digit(n));
        proof {
            assert(v@ =~= seq![digit_char(n as nat)]);
        }
        v
    } else {
        let mut v = decimal_exec(n / 10);
        v.push(digit(n % 10));
        v
    }
}

/// Decimal text of a wide number.
pub fn decimal_wide(n: u128) -> (r: Vec<char>)
    ensures
        r@ == decimal(n as nat),
    decreases n,
{
    if n < 10 {
        let mut v = Vec::new();
        v.push(digit((n % 10) as u64));
        proof {
            assert(v@ =~= seq![digit_char(n as nat)]);
        }
        v
    } else {
        let mut v = decimal_wide(n / 10);
        v.push(digit((n % 10) as u64));
        v
    }
}

/// `decimal(n)` left-padded with zeros to at least `width` characters
/// (`format!("{n:0width$}")`).
pub open spec fn zero_padded(n: nat, width: nat) -> Seq<char> {
    let d = decimal(n);
    if d.len() >= width {
        d
    } else {
        Seq::new((width - d.len()) as nat, |i: int| '0') + d
    }
}

pub fn zero_padded_exec(n: u64, width: usize) -> (r: Vec<char>)
    ensures
        r@ == zero_padded(n as nat, width as nat),
{
    let d = decimal_exec(n);
    if d.len() >= width {
        return d;
    }
    let mut out: Vec<char> = Vec::new();
    let pad = width - d.len();
    let mut i: usize = 0;
    while i < pad
        invariant
            i <= pad,
            out@ == Seq::new(i as nat, |k: int| '0'),
        decreases pad - i,
    {
        out.push('0');
        i = i + 1;
        proof {
            assert(out@ =~= Seq::new(i as nat, |k: int| '0'));
        }
    }
    push_all(&mut out, d.as_slice());
    out
}

/// Number of consecutive copies of `c` in `s` starting at `i`.
pub open spec fn run_of(s: Seq<char>, i: int, c: char) -> int
    decreases s.len() - i,
{
    if 0 <= i < s.len() && s[i] == c {
        1 + run_of(s, i + 1, c)
    } else {
        0
    }
}

pub proof fn lemma_run_of(s: Seq<char>, i: int, c: char)
    requires
        0 <= i <= s.len(),
    ensures
        0 <= run_of(s, i, c) <= s.len() - i,
        forall|k: int| i <= k < i + run_of(s, i, c) ==> s[k] == c,
        i + run_of(s, i, c) < s.len() ==> s[i + run_of(s, i, c)] != c,
    decreases s.len() - i,
{
    if i < s.len() && s[i] == c {
        lemma_run_of(s, i + 1, c);
    }
}

pub fn run_count(s: &[char], i: usize, c: char) -> (n: usize)
    requires
        i <= s@.len(),
    ensures
        n == run_of(s@, i as int, c),
        i + n <= s@.len(),
{
    let mut j = i;
    while j < s.len() && s[j] == c
        invariant
            i <= j <= s@.len(),
            run_of(s@, i as int, c) == (j - i) + run_of(s@, j as int, c),
        decreases s@.len() - j,
    {
        j = j + 1;
    }
    j - i
}

/// `n` copies of `c`.
pub open spec fn repeat(c: char, n: nat) -> Seq<char> {
    Seq::new(n, |k: int| c)
}

pub fn repeat_exec(c: char, n: usize) -> (v: Vec<char>)
    ensures
        v@ == repeat(c, n as nat),
{
    let mut v: Vec<char> = Vec::new();
    let mut k: usize = 0;
    while k < n
        invariant
            k <= n,
            v@ == repeat(c, k as nat),
        decreases n - k,
    {
        v.push(c);
        k = k + 1;
        proof {
            assert(v@ =~= repeat(c, k as nat));
        }
    }
    v
}

/// Number of non-whitespace characters in `s`.
pub open spec fn nonws_count(s: Seq<char>) -> nat
    decreases s.len(),
{
    if s.len() == 0 {
        0
    } else {
        nonws_count(s.drop_last()) + if is_ws(s.last()) {
            0nat
        } else {
            1nat
        }
    }
}

/// Every non-whitespace character of `s` is `c`.
pub open spec fn nonws_all(s: Seq<char>, c: char) -> bool {
    forall|k: int| 0 <= k < s.len() && !is_ws(s[k]) ==> s[k] == c
}

/// Decimal value of a run of ASCII digits.
pub open spec fn digits_value(s: Seq<char>) -> nat
    decreases s.len(),
{
    if s.len() == 0 {
        0
    } else {
        digits_value(s.drop_last()) * 10 + (s.last() as nat - '0' as nat) as nat
    }
}

/// Parses a run of ASCII digits as a `u64`; `None` when it does not fit.
pub fn parse_digits_u64(s: &[char]) -> (r: Option<u64>)
    requires
        forall|k: int| 0 <= k < s@.len() ==> is_digit(#[trigger] s@[k]),
    ensures
        r matches Some(v) ==> v as nat == digits_value(s@),
        r is None <==> digits_value(s@) > u64::MAX,
{
    let mut v: u64 = 0;
    let mut i: usize = 0;
    let mut overflow = false;
    let ghost big: nat = 0;
    while i < s.len()
        invariant
            i <= s@.len(),
            forall|k: int| 0 <= k < s@.len() ==> is_digit(#[trigger] s@[k]),
            !overflow ==> v as nat == digits_value(s@.take(i as int)),
            overflow ==> digits_value(s@.take(i as int)) > u64::MAX,
        decreases s@.len() - i,
    {
        let d = (s[i] as u32 - '0' as u32) as u64;
        proof {
            assert(s@.take(i + 1).drop_last() =~= s@.take(i as int));
            assert(is_digit(s@[i as int]));
        }
        if overflow {
            proof {
                assert(digits_value(s@.take(i + 1)) >= digits_value(s@.take(i as int)) * 10) by (nonlinear_arith)
                    requires digits_value(s@.take(i + 1)) == digits_value(s@.take(i as int)) * 10 + (s@[i as int] as nat - '0' as nat) as nat;
                assert(digits_value(s@.take(i as int)) * 10 >= digits_value(s@.take(i as int))) by (nonlinear_arith);
            }
        } else if v > (u64::MAX - d) / 10 {
            overflow = true;
            proof {
                assert(v as nat * 10 + d > u64::MAX) by (nonlinear_arith)
                    requires v > (u64::MAX - d) / 10, d < 10;
            }
        } else {
            proof {
                assert(v * 10 + d <= u64::MAX) by (nonlinear_arith)
                    requires v <= (u64::MAX - d) / 10, d < 10;
            }
            v = v * 10 + d;
        }
        i = i + 1;
    }
    proof {
        assert(s@.take(s@.len() as int) =~= s@);
    }
    if overflow {
        None
    } else {
        Some(v)
    }
}

/// Two character sequences are equal.
pub fn eq_chars(a: &[char], b: &[char]) -> (r: bool)
    ensures
        r == (a@ == b@),
{
    if a.len() != b.len() {
        return false;
    }
    let m = matches_at_exec(a, 0, b);
    proof {
        if m {
            assert(a@.subrange(0, b@.len() as int) =~= a@);
        } else {
            if a@ == b@ {
                assert(a@.subrange(0, b@.len() as int) =~= a@);
            }
        }
    }
    m
}

/// A copy of `s`.
pub fn copy_all(s: &[char]) -> (v: Vec<char>)
    ensures
        v@ == s@,
{
    let v = copy_range(s, 0, s.len());
    proof {
        assert(v@ =~= s@);
    }
    v
}

/// Lowercase hexadecimal digits of `n` without leading zeros (`format!("{n:x}")`).
pub open spec fn hex(n: nat) -> Seq<char>
    decreases n,
{
    if n < 16 {
        seq![hex_digit(n)]
    } else {
        hex(n / 16) + seq![hex_digit(n % 16)]
    }
}

pub open spec fn hex_digit(d: nat) -> char {
    if d < 10 {
        digit_char(d)
    } else if d == 10 {
        'a'
    } else if d == 11 {
        'b'
    } else if d == 12 {
        'c'
    } else if d == 13 {
        'd'
    } else if d == 14 {
        'e'
    } else {
        'f'
    }
}

fn hex_digit_exec(d: u32) -> (c: char)
    requires
        d < 16,
    ensures
        c == hex_digit(d as nat),
{
    if d < 10 {
        digit(d as u64)
    } else if d == 10 {
        'a'
    } else if d == 11 {
        'b'
    } else if d == 12 {
        'c'
    } else if d == 13 {
        'd'
    } else if d == 14 {
        'e'
    } else {
        'f'
    }
}

pub fn hex_exec(n: u32) -> (r: Vec<char>)
    ensures
        r@ == hex(n as nat),
    decreases n,
{
    if n < 16 {
        let mut v = Vec::new();
        v.push(hex_digit_exec(n));
        proof {
            assert(v@ =~= seq![hex_digit(n as nat)]);
        }
        v
    } else {
        let mut v = hex_exec(n / 16);
        v.push(hex_digit_exec(n % 16));
        v
    }
}

} // verus!
