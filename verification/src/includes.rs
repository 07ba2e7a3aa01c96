//! mdBook `{{#include}}` directives: finding them, the candidate paths of
//! their argument, what part of the included file they select, and the
//! checks against recursion.
use vstd::prelude::*;

use crate::book::RenderError;
use crate::config::res_view;
use crate::text::{
    chars_of, copy_range, debug_quoted, debug_str, decimal, decimal_wide, digits_value, eq_chars,
    find_from, find_from_exec, is_ascii_alnum, is_digit, is_whitespace, is_ws, join, join_exec,
    lemma_find_from, lines, lines_exec, parse_digits_u64, push_all, push_str, trim, trimmed,
};

verus! {

/// How deep includes may nest.
pub const MAX_INCLUDE_DEPTH: usize = 16;

/// A directive found in a source: it spans `start` to `resume` and asks to
/// include `argument`.
pub struct Directive {
    pub start: usize,
    pub resume: usize,
    pub argument: Vec<char>,
}

/// Index of the first whitespace character of `s` from `i` on.
pub open spec fn first_ws(s: Seq<char>, i: int) -> Option<int>
    decreases s.len() - i,
{
    if i < 0 || i >= s.len() {
        None
    } else if is_ws(s[i]) {
        Some(i)
    } else {
        first_ws(s, i + 1)
    }
}

/// The next directive at or after `cursor`: `Ok(None)` when there is none,
/// else `(start, resume, argument)`.
pub open spec fn next_directive_spec(s: Seq<char>, cursor: int) -> Result<
    Option<(int, int, Seq<char>)>,
    Seq<char>,
> {
    match find_from(s, cursor, "{{#"@) {
        None => Ok(None),
        Some(start) => match find_from(s, start + 3, "}}"@) {
            None => Err("mdBook include directive is not closed"@),
            Some(end) => {
                let d = trim(s.subrange(start + 3, end));
                match first_ws(d, 0) {
                    None => Err("malformed mdBook directive: "@ + d),
                    Some(k) => {
                        let command = d.subrange(0, k);
                        if command != "include"@ && command != "rustdoc_include"@ {
                            Err("unsupported mdBook directive: "@ + command)
                        } else {
                            Ok(Some((start, end + 2, trim(d.subrange(k + 1, d.len() as int)))))
                        }
                    },
                }
            },
        }
    }
}

proof fn lemma_first_ws(s: Seq<char>, i: int)
    requires
        0 <= i,
    ensures
        first_ws(s, i) matches Some(k) ==> i <= k < s.len() && is_ws(s[k]),
    decreases s.len() - i,
{
    if i < s.len() && !is_ws(s[i]) {
        lemma_first_ws(s, i + 1);
    }
}

/// Finds the next include directive (see [`next_directive_spec`]).
pub fn next_directive(s: &[char], cursor: usize) -> (r: Result<Option<Directive>, RenderError>)
    requires
        cursor <= s@.len(),
    ensures
        match r {
            Ok(None) => next_directive_spec(s@, cursor as int) == Ok::<
                Option<(int, int, Seq<char>)>,
                Seq<char>,
            >(None),
            Ok(Some(d)) => next_directive_spec(s@, cursor as int) == Ok::<
                Option<(int, int, Seq<char>)>,
                Seq<char>,
            >(Some((d.start as int, d.resume as int, d.argument@))) && cursor <= d.start < d.resume
                <= s@.len(),
            Err(e) => next_directive_spec(s@, cursor as int) == Err::<
                Option<(int, int, Seq<char>)>,
                Seq<char>,
            >(e@),
        },
{
    proof {
        reveal_strlit("{{#");
        reveal_strlit("}}");
    }
    let _n = s.len();
    let open = chars_of("{{#");
    let close = chars_of("}}");
    let start = match find_from_exec(s, cursor, open.as_slice()) {
        None => {
            return Ok(None);
        },
        Some(k) => k,
    };
    proof {
        lemma_find_from(s@, cursor as int, "{{#"@);
    }
    let end = match find_from_exec(s, start + 3, close.as_slice()) {
        None => {
            return Err(RenderError::new("mdBook include directive is not closed"));
        },
        Some(k) => k,
    };
    proof {
        lemma_find_from(s@, start + 3, "}}"@);
    }
    let raw = copy_range(s, start + 3, end);
    let d = trimmed(raw.as_slice());
    let mut k: usize = 0;
    while k < d.len() && !is_whitespace(d[k])
        invariant
            k <= d@.len(),
            first_ws(d@, 0) == first_ws(d@, k as int),
        decreases d@.len() - k,
    {
        k = k + 1;
    }
    if k == d.len() {
        return Err(RenderError::with_detail("malformed mdBook directive: ", d.as_slice()));
    }
    let command = copy_range(d.as_slice(), 0, k);
    let inc = chars_of("include");
    let rinc = chars_of("rustdoc_include");
    if !eq_chars(command.as_slice(), inc.as_slice()) && !eq_chars(
        command.as_slice(),
        rinc.as_slice(),
    ) {
        return Err(RenderError::with_detail("unsupported mdBook directive: ", command.as_slice()));
    }
    let rest = copy_range(d.as_slice(), k + 1, d.len());
    let argument = trimmed(rest.as_slice());
    Ok(Some(Directive { start, resume: end + 2, argument }))
}

/// The files an include argument may name, in the order they are tried:
/// the whole argument, then the part before each `:` from the last to the
/// first, with the rest as the selector.
pub open spec fn candidates_from(a: Seq<char>, j: int) -> Seq<(Seq<char>, Option<Seq<char>>)>
    decreases j,
{
    if j <= 0 || j > a.len() {
        seq![]
    } else if a[j - 1] == ':' {
        seq![(a.subrange(0, j - 1), Some(a.subrange(j, a.len() as int)))] + candidates_from(a, j - 1)
    } else {
        candidates_from(a, j - 1)
    }
}

pub open spec fn include_candidates_spec(a: Seq<char>) -> Result<
    Seq<(Seq<char>, Option<Seq<char>>)>,
    Seq<char>,
> {
    if a.len() == 0 {
        Err("mdBook include path is empty"@)
    } else {
        Ok(seq![(a, None)] + candidates_from(a, a.len() as int))
    }
}

pub open spec fn candidates_view(v: Seq<(Vec<char>, Option<Vec<char>>)>) -> Seq<
    (Seq<char>, Option<Seq<char>>),
> {
    Seq::new(
        v.len(),
        |k: int|
            (
                v[k].0@,
                match v[k].1 {
                    Some(x) => Some(x@),
                    None => None,
                },
            ),
    )
}

/// The candidates of an include argument (see [`include_candidates_spec`]).
pub fn include_candidates(a: &[char]) -> (r: Result<Vec<(Vec<char>, Option<Vec<char>>)>, RenderError>)
    ensures
        match r {
            Ok(v) => include_candidates_spec(a@) == Ok::<
                Seq<(Seq<char>, Option<Seq<char>>)>,
                Seq<char>,
            >(candidates_view(v@)),
            Err(e) => include_candidates_spec(a@) == Err::<
                Seq<(Seq<char>, Option<Seq<char>>)>,
                Seq<char>,
            >(e@),
        },
{
    if a.len() == 0 {
        return Err(RenderError::new("mdBook include path is empty"));
    }
    let mut out: Vec<(Vec<char>, Option<Vec<char>>)> = Vec::new();
    out.push((copy_range(a, 0, a.len()), None));
    proof {
        assert(a@.subrange(0, a@.len() as int) =~= a@);
        assert(candidates_view(out@) =~= seq![(a@, None::<Seq<char>>)]);
    }
    let mut j: usize = a.len();
    while j > 0
        invariant
            j <= a@.len(),
            a@.len() > 0,
            seq![(a@, None::<Seq<char>>)] + candidates_from(a@, a@.len() as int) == candidates_view(
                out@,
            ) + candidates_from(a@, j as int),
        decreases j,
    {
        if a[j - 1] == ':' {
            let ghost before = candidates_view(out@);
            let ghost item = (a@.subrange(0, j - 1), Some(a@.subrange(j as int, a@.len() as int)));
            out.push((copy_range(a, 0, j - 1), Some(copy_range(a, j, a.len()))));
            proof {
                assert(candidates_view(out@) =~= before.push(item));
                assert(before + candidates_from(a@, j as int) =~= candidates_view(out@)
                    + candidates_from(a@, j - 1));
            }
        }
        j = j - 1;
    }
    proof {
        assert(candidates_view(out@) + candidates_from(a@, 0) =~= candidates_view(out@));
    }
    Ok(out)
}

/// Refuses an include that is already being expanded or that nests too deep.
pub open spec fn stack_check(stack: Seq<Seq<char>>, canonical: Seq<char>) -> Result<(), Seq<char>> {
    if stack.contains(canonical) {
        Err("recursive include detected: "@ + join(stack.push(canonical), " -> "@))
    } else if stack.len() >= MAX_INCLUDE_DEPTH {
        Err("include depth exceeds "@ + decimal(MAX_INCLUDE_DEPTH as nat))
    } else {
        Ok(())
    }
}

/// A source admitted by the check extends an include chain without a
/// repeated file and within the depth limit: includes never recurse.
pub proof fn law_admitted_include_keeps_chain_acyclic(stack: Seq<Seq<char>>, canonical: Seq<char>)
    requires
        stack.no_duplicates(),
        stack_check(stack, canonical) is Ok,
    ensures
        stack.push(canonical).no_duplicates(),
        stack.push(canonical).len() <= MAX_INCLUDE_DEPTH,
{
    let s = stack.push(canonical);
    assert forall|i: int, j: int| 0 <= i < s.len() && 0 <= j < s.len() && i != j implies s[i] != s[j] by {
        if j == stack.len() {
            assert(s[i] == stack[i]);
        } else if i == stack.len() {
            assert(s[j] == stack[j]);
        } else {
            assert(s[i] == stack[i] && s[j] == stack[j]);
        }
    }
}

/// Checks the include stack before `canonical` is entered.
pub fn check_include_stack(stack: &Vec<Vec<char>>, canonical: &[char]) -> (r: Result<(), RenderError>)
    ensures
        match r {
            Ok(()) => stack_check(stack@.map_values(|p: Vec<char>| p@), canonical@) is Ok,
            Err(e) => stack_check(stack@.map_values(|p: Vec<char>| p@), canonical@) == Err::<
                (),
                Seq<char>,
            >(e@),
        },
{
    let ghost sv = stack@.map_values(|p: Vec<char>| p@);
    let mut k: usize = 0;
    let mut found = false;
    while k < stack.len()
        invariant
            k <= stack@.len(),
            sv == stack@.map_values(|p: Vec<char>| p@),
            found == exists|j: int| 0 <= j < k && sv[j] == canonical@,
        decreases stack@.len() - k,
    {
        proof {
            assert(sv[k as int] == stack@[k as int]@);
        }
        if eq_chars(stack[k].as_slice(), canonical) {
            found = true;
        }
        k = k + 1;
    }
    if found {
        let mut chain: Vec<Vec<char>> = Vec::new();
        let mut j: usize = 0;
        while j < stack.len()
            invariant
                j <= stack@.len(),
                sv == stack@.map_values(|p: Vec<char>| p@),
                chain@.map_values(|p: Vec<char>| p@) == sv.take(j as int),
            decreases stack@.len() - j,
        {
            let ghost before = chain@.map_values(|p: Vec<char>| p@);
            chain.push(copy_range(stack[j].as_slice(), 0, stack[j].len()));
            proof {
                assert(sv[j as int] == stack@[j as int]@);
                assert(stack@[j as int]@.subrange(0, stack@[j as int]@.len() as int) =~= sv[j as int]);
                assert(chain@.map_values(|p: Vec<char>| p@) =~= before.push(sv[j as int]));
                assert(sv.take(j + 1) =~= sv.take(j as int).push(sv[j as int]));
            }
            j = j + 1;
        }
        chain.push(copy_range(canonical, 0, canonical.len()));
        proof {
            assert(canonical@.subrange(0, canonical@.len() as int) =~= canonical@);
            assert(sv.take(stack@.len() as int) =~= sv);
            assert(chain@.map_values(|p: Vec<char>| p@) =~= sv.push(canonical@));
            assert(sv.contains(canonical@));
        }
        let sep = chars_of(" -> ");
        let joined = join_exec(&chain, sep.as_slice());
        return Err(RenderError::with_detail("recursive include detected: ", joined.as_slice()));
    }
    proof {
        assert(!sv.contains(canonical@));
    }
    if stack.len() >= MAX_INCLUDE_DEPTH {
        let d = decimal_wide(MAX_INCLUDE_DEPTH as u128);
        return Err(RenderError::with_detail("include depth exceeds ", d.as_slice()));
    }
    Ok(())
}

pub open spec fn all_digits(v: Seq<char>) -> bool {
    forall|k: int| 0 <= k < v.len() ==> is_digit(#[trigger] v[k])
}

/// A one-based line number written in digits.
pub open spec fn positive_line(v: Seq<char>) -> Result<nat, Seq<char>> {
    if digits_value(v) > usize::MAX {
        Err(
            "invalid include line number "@ + debug_quoted(v)
                + ": number too large to fit in target type"@,
        )
    } else if digits_value(v) == 0 {
        Err("include line numbers are one-based"@)
    } else {
        Ok(digits_value(v))
    }
}

/// Reads a line number of a line-range selector.
pub fn parse_positive_line_number(v: &[char]) -> (r: Result<usize, RenderError>)
    requires
        all_digits(v@),
    ensures
        match r {
            Ok(n) => positive_line(v@) == Ok::<nat, Seq<char>>(n as nat),
            Err(e) => positive_line(v@) == Err::<nat, Seq<char>>(e@),
        },
{
    let too_large = match parse_digits_u64(v) {
        None => true,
        Some(n) => n > usize::MAX as u64,
    };
    if too_large {
        let mut msg: Vec<char> = Vec::new();
        push_str(&mut msg, "invalid include line number ");
        let d = debug_str(v);
        push_all(&mut msg, d.as_slice());
        push_str(&mut msg, ": number too large to fit in target type");
        return Err(RenderError::from_chars(msg.as_slice()));
    }
    let n = match parse_digits_u64(v) {
        None => 0,
        Some(n) => n as usize,
    };
    if n == 0 {
        return Err(RenderError::new("include line numbers are one-based"));
    }
    Ok(n)
}

/// The lines `start..=end` (one-based) of `src`, joined by line feeds.
pub open spec fn line_range(src: Seq<char>, sel: Seq<char>) -> Result<Seq<char>, Seq<char>> {
    let ls = lines(src);
    match find_from(sel, 0, ":"@) {
        None => match positive_line(sel) {
            Err(e) => Err(e),
            Ok(n) => if n - 1 < ls.len() {
                Ok(ls[n - 1])
            } else {
                Err("include line "@ + decimal(n) + " is outside the source"@)
            },
        },
        Some(k) => {
            let a = sel.subrange(0, k);
            let b = sel.subrange(k + 1, sel.len() as int);
            if find_from(b, 0, ":"@) is Some {
                Err("invalid mdBook line-range selector: "@ + sel)
            } else {
                let start: Result<nat, Seq<char>> = if a.len() == 0 {
                    Ok(1)
                } else {
                    positive_line(a)
                };
                match start {
                    Err(e) => Err(e),
                    Ok(st) => {
                        let end: Result<nat, Seq<char>> = if b.len() == 0 {
                            Ok(ls.len())
                        } else {
                            positive_line(b)
                        };
                        match end {
                            Err(e) => Err(e),
                            Ok(en) => if st > en {
                                Ok(seq![])
                            } else {
                                let si = if st - 1 < ls.len() {
                                    st - 1
                                } else {
                                    ls.len() as int
                                };
                                let ei = if en < ls.len() {
                                    en as int
                                } else {
                                    ls.len() as int
                                };
                                Ok(join(ls.subrange(si, ei), "\n"@))
                            },
                        }
                    },
                }
            }
        },
    }
}

fn lines_vec(src: &[char]) -> (r: Vec<Vec<char>>)
    ensures
        r@.map_values(|p: Vec<char>| p@) == lines(src@),
{
    let v = lines_exec(src);
    proof {
        assert(v@.map_values(|p: Vec<char>| p@) =~= lines(src@));
    }
    v
}

fn sub_lines(ls: &Vec<Vec<char>>, a: usize, b: usize) -> (r: Vec<Vec<char>>)
    requires
        a <= b <= ls@.len(),
    ensures
        r@.map_values(|p: Vec<char>| p@) == ls@.map_values(|p: Vec<char>| p@).subrange(
            a as int,
            b as int,
        ),
{
    let ghost lv = ls@.map_values(|p: Vec<char>| p@);
    let mut out: Vec<Vec<char>> = Vec::new();
    let mut k = a;
    while k < b
        invariant
            a <= k <= b <= ls@.len(),
            lv == ls@.map_values(|p: Vec<char>| p@),
            out@.map_values(|p: Vec<char>| p@) == lv.subrange(a as int, k as int),
        decreases b - k,
    {
        let ghost before = out@.map_values(|p: Vec<char>| p@);
        out.push(copy_range(ls[k].as_slice(), 0, ls[k].len()));
        proof {
            assert(ls@[k as int]@.subrange(0, ls@[k as int]@.len() as int) =~= lv[k as int]);
            assert(out@.map_values(|p: Vec<char>| p@) =~= before.push(lv[k as int]));
            assert(lv.subrange(a as int, k + 1) =~= lv.subrange(a as int, k as int).push(lv[k as int]));
        }
        k = k + 1;
    }
    out
}

/// Selects a line range of `src` (see [`line_range`]).
pub fn select_line_range(src: &[char], sel: &[char]) -> (r: Result<Vec<char>, RenderError>)
    requires
        forall|k: int| 0 <= k < sel@.len() ==> is_digit(#[trigger] sel@[k]) || sel@[k] == ':',
    ensures
        res_view(r) == line_range(src@, sel@),
{
    proof {
        reveal_strlit(":");
    }
    let ls = lines_vec(src);
    let ghost lv = lines(src@);
    let colon = chars_of(":");
    let _n = sel.len();
    match find_from_exec(sel, 0, colon.as_slice()) {
        None => {
            proof {
                lemma_find_from(sel@, 0, ":"@);
                assert forall|k: int| 0 <= k < sel@.len() implies is_digit(#[trigger] sel@[k]) by {
                    if sel@[k] == ':' {
                        assert(sel@.subrange(k, k + 1) =~= ":"@);
                        assert(crate::text::matches_at(sel@, k, ":"@));
                    }
                }
            }
            let n = match parse_positive_line_number(sel) {
                Err(e) => {
                    return Err(e);
                },
                Ok(n) => n,
            };
            if n - 1 < ls.len() {
                let line = copy_range(ls[n - 1].as_slice(), 0, ls[n - 1].len());
                proof {
                    assert(ls@[n - 1]@ == lv[n - 1]);
                    assert(line@ =~= lv[n - 1]);
                }
                Ok(line)
            } else {
                let mut msg: Vec<char> = Vec::new();
                push_str(&mut msg, "include line ");
                let d = decimal_wide(n as u128);
                push_all(&mut msg, d.as_slice());
                push_str(&mut msg, " is outside the source");
                Err(RenderError::from_chars(msg.as_slice()))
            }
        },
        Some(k) => {
            proof {
                lemma_find_from(sel@, 0, ":"@);
            }
            let a = copy_range(sel, 0, k);
            let b = copy_range(sel, k + 1, sel.len());
            if find_from_exec(b.as_slice(), 0, colon.as_slice()).is_some() {
                return Err(RenderError::with_detail("invalid mdBook line-range selector: ", sel));
            }
            proof {
                lemma_find_from(b@, 0, ":"@);
                assert forall|j: int| 0 <= j < b@.len() implies is_digit(#[trigger] b@[j]) by {
                    assert(b@[j] == sel@[k + 1 + j]);
                    if b@[j] == ':' {
                        assert(b@.subrange(j, j + 1) =~= ":"@);
                        assert(crate::text::matches_at(b@, j, ":"@));
                    }
                }
                assert forall|j: int| 0 <= j < a@.len() implies is_digit(#[trigger] a@[j]) by {
                    assert(a@[j] == sel@[j]);
                    if a@[j] == ':' {
                        assert(sel@.subrange(j, j + 1) =~= ":"@);
                        assert(crate::text::matches_at(sel@, j, ":"@));
                    }
                }
            }
            let st: usize = if a.len() == 0 {
                1
            } else {
                match parse_positive_line_number(a.as_slice()) {
                    Err(e) => {
                        return Err(e);
                    },
                    Ok(n) => n,
                }
            };
            let en: usize = if b.len() == 0 {
                ls.len()
            } else {
                match parse_positive_line_number(b.as_slice()) {
                    Err(e) => {
                        return Err(e);
                    },
                    Ok(n) => n,
                }
            };
            if st > en {
                return Ok(Vec::new());
            }
            let si = if st - 1 < ls.len() {
                st - 1
            } else {
                ls.len()
            };
            let ei = if en < ls.len() {
                en
            } else {
                ls.len()
            };
            let part = sub_lines(&ls, si, ei);
            let nl = chars_of("\n");
            Ok(join_exec(&part, nl.as_slice()))
        },
    }
}

/// A name an anchor may have: ASCII letters, digits, `_` and `-`.
pub open spec fn valid_anchor(v: Seq<char>) -> bool {
    v.len() > 0 && forall|k: int|
        0 <= k < v.len() ==> is_ascii_alnum(#[trigger] v[k]) || v[k] == '_' || v[k] == '-'
}

/// `ANCHOR: name` opens and `ANCHOR_END: name` closes an anchored region.
pub open spec fn anchor_marker_spec(line: Seq<char>) -> Option<(bool, Seq<char>)> {
    match find_from(line, 0, "ANCHOR_END:"@) {
        Some(k) => {
            let v = trim(line.subrange(k + 11, line.len() as int));
            if valid_anchor(v) {
                Some((true, v))
            } else {
                None
            }
        },
        None => match find_from(line, 0, "ANCHOR:"@) {
            Some(k) => {
                let v = trim(line.subrange(k + 7, line.len() as int));
                if valid_anchor(v) {
                    Some((false, v))
                } else {
                    None
                }
            },
            None => None,
        },
    }
}

fn valid_anchor_name(v: &[char]) -> (b: bool)
    ensures
        b == valid_anchor(v@),
{
    if v.len() == 0 {
        return false;
    }
    let mut i: usize = 0;
    while i < v.len()
        invariant
            i <= v@.len(),
            forall|k: int| 0 <= k < i ==> is_ascii_alnum(#[trigger] v@[k]) || v@[k] == '_' || v@[k] == '-',
        decreases v@.len() - i,
    {
        let c = v[i];
        if !(('0' <= c && c <= '9') || ('a' <= c && c <= 'z') || ('A' <= c && c <= 'Z') || c == '_'
            || c == '-') {
            return false;
        }
        i = i + 1;
    }
    true
}

/// Reads an anchor marker line (see [`anchor_marker_spec`]).
pub fn anchor_marker(line: &[char]) -> (r: Option<(bool, Vec<char>)>)
    ensures
        match r {
            Some((e, v)) => anchor_marker_spec(line@) == Some((e, v@)),
            None => anchor_marker_spec(line@) is None,
        },
{
    proof {
        reveal_strlit("ANCHOR_END:");
        reveal_strlit("ANCHOR:");
    }
    let _n = line.len();
    let end_pat = chars_of("ANCHOR_END:");
    let start_pat = chars_of("ANCHOR:");
    match find_from_exec(line, 0, end_pat.as_slice()) {
        Some(k) => {
            proof {
                lemma_find_from(line@, 0, "ANCHOR_END:"@);
            }
            let raw = copy_range(line, k + 11, line.len());
            let v = trimmed(raw.as_slice());
            if valid_anchor_name(v.as_slice()) {
                Some((true, v))
            } else {
                None
            }
        },
        None => match find_from_exec(line, 0, start_pat.as_slice()) {
            Some(k) => {
                proof {
                    lemma_find_from(line@, 0, "ANCHOR:"@);
                }
                let raw = copy_range(line, k + 7, line.len());
                let v = trimmed(raw.as_slice());
                if valid_anchor_name(v.as_slice()) {
                    Some((false, v))
                } else {
                    None
                }
            },
            None => None,
        },
    }
}

/// The lines between `ANCHOR: sel` and `ANCHOR_END: sel` from line `i` on;
/// marker lines of any anchor are left out.
pub open spec fn anchor_from(
    ls: Seq<Seq<char>>,
    i: int,
    sel: Seq<char>,
    active: bool,
    starts: nat,
    ends: nat,
    out: Seq<Seq<char>>,
) -> Result<Seq<char>, Seq<char>>
    decreases ls.len() - i,
{
    if i < 0 || i >= ls.len() {
        if starts == 0 {
            Err("anchor "@ + debug_quoted(sel) + " was not found"@)
        } else if active || ends != 1 {
            Err("anchor "@ + debug_quoted(sel) + " is not closed"@)
        } else {
            Ok(join(out, "\n"@))
        }
    } else {
        match anchor_marker_spec(ls[i]) {
            Some((is_end, name)) => if name == sel {
                if is_end {
                    if !active {
                        Err("anchor "@ + debug_quoted(sel) + " ends before it starts"@)
                    } else {
                        anchor_from(ls, i + 1, sel, false, starts, ends + 1, out)
                    }
                } else if active || starts > 0 {
                    Err("anchor "@ + debug_quoted(sel) + " is duplicated"@)
                } else {
                    anchor_from(ls, i + 1, sel, true, starts + 1, ends, out)
                }
            } else {
                anchor_from(ls, i + 1, sel, active, starts, ends, out)
            },
            None => if active {
                anchor_from(ls, i + 1, sel, active, starts, ends, out.push(ls[i]))
            } else {
                anchor_from(ls, i + 1, sel, active, starts, ends, out)
            },
        }
    }
}

fn anchor_error(sel: &[char], tail: &str) -> (e: RenderError)
    ensures
        e@ == "anchor "@ + debug_quoted(sel@) + tail@,
{
    let mut msg: Vec<char> = Vec::new();
    push_str(&mut msg, "anchor ");
    let d = debug_str(sel);
    push_all(&mut msg, d.as_slice());
    push_str(&mut msg, tail);
    RenderError::from_chars(msg.as_slice())
}

/// Selects an anchored region of `src` (see [`anchor_from`]).
pub fn select_anchor(src: &[char], sel: &[char]) -> (r: Result<Vec<char>, RenderError>)
    ensures
        res_view(r) == anchor_from(lines(src@), 0, sel@, false, 0, 0, seq![]),
{
    let ls = lines_vec(src);
    let ghost lv = lines(src@);
    let mut out: Vec<Vec<char>> = Vec::new();
    let mut active = false;
    let mut starts: usize = 0;
    let mut ends: usize = 0;
    let mut i: usize = 0;
    proof {
        assert(out@.map_values(|p: Vec<char>| p@) =~= Seq::<Seq<char>>::empty());
    }
    while i < ls.len()
        invariant
            i <= ls@.len(),
            lv == lines(src@),
            ls@.map_values(|p: Vec<char>| p@) == lv,
            starts <= 1,
            ends <= starts,
            active ==> (starts == 1 && ends == 0),
            anchor_from(lv, 0, sel@, false, 0, 0, seq![]) == anchor_from(
                lv,
                i as int,
                sel@,
                active,
                starts as nat,
                ends as nat,
                out@.map_values(|p: Vec<char>| p@),
            ),
        decreases ls@.len() - i,
    {
        proof {
            assert(ls@[i as int]@ == lv[i as int]);
        }
        match anchor_marker(ls[i].as_slice()) {
            Some((is_end, name)) => {
                if eq_chars(name.as_slice(), sel) {
                    if is_end {
                        if !active {
                            return Err(anchor_error(sel, " ends before it starts"));
                        }
                        active = false;
                        ends = ends + 1;
                    } else {
                        if active || starts > 0 {
                            return Err(anchor_error(sel, " is duplicated"));
                        }
                        active = true;
                        starts = starts + 1;
                    }
                }
            },
            None => {
                if active {
                    let ghost before = out@.map_values(|p: Vec<char>| p@);
                    out.push(copy_range(ls[i].as_slice(), 0, ls[i].len()));
                    proof {
                        assert(ls@[i as int]@.subrange(0, ls@[i as int]@.len() as int) =~= lv[i as int]);
                        assert(out@.map_values(|p: Vec<char>| p@) =~= before.push(lv[i as int]));
                    }
                }
            },
        }
        i = i + 1;
    }
    if starts == 0 {
        return Err(anchor_error(sel, " was not found"));
    }
    if active || ends != 1 {
        return Err(anchor_error(sel, " is not closed"));
    }
    let nl = chars_of("\n");
    Ok(join_exec(&out, nl.as_slice()))
}

/// What an include keeps of the included source.
pub open spec fn select_spec(src: Seq<char>, sel: Option<Seq<char>>) -> Result<Seq<char>, Seq<char>> {
    match sel {
        None => Ok(src),
        Some(s) => if s.len() == 0 {
            Ok(src)
        } else if forall|k: int| 0 <= k < s.len() ==> is_digit(#[trigger] s[k]) || s[k] == ':' {
            line_range(src, s)
        } else {
            anchor_from(lines(src), 0, s, false, 0, 0, seq![])
        },
    }
}

/// Applies an include's selector (see [`select_spec`]).
pub fn select_include(src: &[char], sel: Option<&[char]>) -> (r: Result<Vec<char>, RenderError>)
    ensures
        res_view(r) == select_spec(
            src@,
            match sel {
                Some(s) => Some(s@),
                None => None,
            },
        ),
{
    let whole = copy_range(src, 0, src.len());
    proof {
        assert(whole@ =~= src@);
    }
    match sel {
        None => Ok(whole),
        Some(s) => {
            if s.len() == 0 {
                return Ok(whole);
            }
            let mut i: usize = 0;
            while i < s.len() && (('0' <= s[i] && s[i] <= '9') || s[i] == ':')
                invariant
                    i <= s@.len(),
                    forall|k: int| 0 <= k < i ==> is_digit(#[trigger] s@[k]) || s@[k] == ':',
                decreases s@.len() - i,
            {
                i = i + 1;
            }
            if i == s.len() {
                select_line_range(src, s)
            } else {
                select_anchor(src, s)
            }
        },
    }
}

/// The directory of a canonical path (`Path::parent`).
pub open spec fn dir_of(p: Seq<char>) -> Seq<char> {
    match crate::text::rfind(p, "/"@) {
        Some(k) => if k == 0 {
            "/"@
        } else {
            p.subrange(0, k)
        },
        None => seq![],
    }
}

fn dir_of_exec(p: &[char]) -> (r: Vec<char>)
    ensures
        r@ == dir_of(p@),
{
    proof {
        reveal_strlit("/");
        crate::text::lemma_rfind_upto(p@, p@.len() - 1, "/"@);
    }
    let slash = chars_of("/");
    match crate::text::rfind_exec(p, slash.as_slice()) {
        Some(k) => if k == 0 {
            chars_of("/")
        } else {
            copy_range(p, 0, k)
        },
        None => Vec::new(),
    }
}

/// A source being expanded: its text, how far it has been read, the
/// directory its includes are relative to, and what it has produced.
pub struct FrameM {
    pub text: Seq<char>,
    pub cursor: int,
    pub base: Seq<char>,
    pub out: Seq<char>,
}

struct Frame {
    text: Vec<char>,
    cursor: usize,
    base: Vec<char>,
    out: Vec<char>,
}

spec fn frame_view(f: Frame) -> FrameM {
    FrameM { text: f.text@, cursor: f.cursor as int, base: f.base@, out: f.out@ }
}

/// What the expander needs next.
pub enum ExpandStep {
    /// The include directive with this argument, relative to `base`.
    Include { base: Vec<char>, argument: Vec<char> },
    /// The fully expanded source.
    Done(Vec<char>),
}

pub enum StepM {
    Include { base: Seq<char>, argument: Seq<char> },
    Done(Seq<char>),
}

/// Reads on from the innermost source: stops at its next directive, or,
/// when it has none, hands its text to the source that included it (and
/// leaves that include), until the outermost source is done.
pub open spec fn advance(fs: Seq<FrameM>, st: Seq<Seq<char>>) -> Result<
    (Seq<FrameM>, Seq<Seq<char>>, StepM),
    Seq<char>,
>
    decreases fs.len(),
{
    if fs.len() == 0 {
        Ok((fs, st, StepM::Done(seq![])))
    } else {
        let top = fs.last();
        let n = fs.len() - 1;
        if top.cursor < 0 || top.cursor > top.text.len() {
            Ok((fs, st, StepM::Done(seq![])))
        } else {
            match next_directive_spec(top.text, top.cursor) {
                Err(e) => Err(e),
                Ok(Some((start, resume, arg))) => if top.cursor <= start <= top.text.len() {
                    Ok(
                        (
                            fs.update(
                                n,
                                FrameM {
                                    text: top.text,
                                    cursor: resume,
                                    base: top.base,
                                    out: top.out + top.text.subrange(top.cursor, start),
                                },
                            ),
                            st,
                            StepM::Include { base: top.base, argument: arg },
                        ),
                    )
                } else {
                    Ok((fs, st, StepM::Done(seq![])))
                },
                Ok(None) => {
                    let done = top.out + top.text.subrange(top.cursor, top.text.len() as int);
                    if fs.len() == 1 {
                        Ok((seq![], st.drop_last(), StepM::Done(done)))
                    } else {
                        let parent = fs[n - 1];
                        advance(
                            fs.drop_last().update(
                                n - 1,
                                FrameM {
                                    text: parent.text,
                                    cursor: parent.cursor,
                                    base: parent.base,
                                    out: parent.out + done,
                                },
                            ),
                            st.drop_last(),
                        )
                    }
                },
            }
        }
    }
}

/// Expands the include directives of a chapter, one step at a time: the
/// caller finds and reads the files each step asks for.
pub struct Expander {
    root: Vec<char>,
    frames: Vec<Frame>,
    stack: Vec<Vec<char>>,
}

impl Expander {
    pub closed spec fn root_view(self) -> Seq<char> {
        self.root@
    }

    pub closed spec fn frames_view(self) -> Seq<FrameM> {
        Seq::new(self.frames@.len(), |k: int| frame_view(self.frames@[k]))
    }

    pub closed spec fn stack_view(self) -> Seq<Seq<char>> {
        self.stack@.map_values(|p: Vec<char>| p@)
    }

    /// Frames read within their text, one stack entry per frame; the
    /// sources being expanded lie under the root, none twice, at most
    /// [`MAX_INCLUDE_DEPTH`] of them.
    pub closed spec fn well_formed(self) -> bool {
        &&& self.frames@.len() == self.stack@.len()
        &&& forall|k: int|
            0 <= k < self.frames@.len() ==> (#[trigger] self.frames@[k]).cursor
                <= self.frames@[k].text@.len()
        &&& self.stack_view().no_duplicates()
        &&& self.stack_view().len() <= MAX_INCLUDE_DEPTH
        &&& forall|k: int|
            0 <= k < self.stack_view().len() ==> crate::paths::path_within(
                #[trigger] self.stack_view()[k],
                self.root_view(),
            )
    }

    /// An expander for sources under `root`, with nothing open.
    pub fn new(root: &str) -> (r: Self)
        ensures
            r.root_view() == root@,
            r.frames_view() == Seq::<FrameM>::empty(),
            r.stack_view() == Seq::<Seq<char>>::empty(),
            r.well_formed(),
    {
        let r = Expander { root: chars_of(root), frames: Vec::new(), stack: Vec::new() };
        proof {
            assert(r.frames_view() =~= Seq::<FrameM>::empty());
            assert(r.stack_view() =~= Seq::<Seq<char>>::empty());
        }
        r
    }

    /// Whether the source at `canonical` may be opened: it lies under the
    /// root, is not already being expanded, and the nesting is not too deep.
    pub fn may_open(&self, canonical: &str, description: &str) -> (r: Result<(), RenderError>)
        ensures
            match r {
                Ok(()) => crate::paths::path_within(canonical@, self.root_view()) && stack_check(
                    self.stack_view(),
                    canonical@,
                ) is Ok,
                Err(e) => (!crate::paths::path_within(canonical@, self.root_view()) && e@
                    == crate::paths::outside_error(self.root_view(), canonical@, description@)) || (
                crate::paths::path_within(canonical@, self.root_view()) && stack_check(
                    self.stack_view(),
                    canonical@,
                ) == Err::<(), Seq<char>>(e@)),
            },
    {
        let c = chars_of(canonical);
        match crate::paths::ensure_inside(self.root.as_slice(), c.as_slice(), description) {
            Err(e) => {
                return Err(e);
            },
            Ok(()) => {},
        }
        check_include_stack(&self.stack, c.as_slice())
    }

    /// Opens the source read from `canonical`, keeping what `selector`
    /// selects of it (see [`select_spec`]).
    pub fn enter(&mut self, canonical: &str, source: &[char], selector: Option<&[char]>) -> (r: Result<
        (),
        RenderError,
    >)
        requires
            old(self).well_formed(),
            crate::paths::path_within(canonical@, old(self).root_view()),
            stack_check(old(self).stack_view(), canonical@) is Ok,
        ensures
            final(self).well_formed(),
            final(self).root_view() == old(self).root_view(),
            match r {
                Ok(()) => select_spec(
                    source@,
                    match selector {
                        Some(x) => Some(x@),
                        None => None,
                    },
                ) is Ok && final(self).frames_view() == old(self).frames_view().push(
                    FrameM {
                        text: select_spec(
                            source@,
                            match selector {
                                Some(x) => Some(x@),
                                None => None,
                            },
                        )->Ok_0,
                        cursor: 0,
                        base: dir_of(canonical@),
                        out: seq![],
                    },
                ) && final(self).stack_view() == old(self).stack_view().push(canonical@),
                Err(e) => select_spec(
                    source@,
                    match selector {
                        Some(x) => Some(x@),
                        None => None,
                    },
                ) == Err::<Seq<char>, Seq<char>>(e@) && final(self).frames_view() == old(
                    self,
                ).frames_view() && final(self).stack_view() == old(self).stack_view(),
            },
    {
        let selected = match select_include(source, selector) {
            Err(e) => {
                return Err(e);
            },
            Ok(t) => t,
        };
        let c = chars_of(canonical);
        let base = dir_of_exec(c.as_slice());
        let ghost fv = self.frames_view();
        let ghost sv = self.stack_view();
        let ghost item = FrameM { text: selected@, cursor: 0, base: base@, out: seq![] };
        self.frames.push(Frame { text: selected, cursor: 0, base, out: Vec::new() });
        self.stack.push(c);
        proof {
            assert(self.frames_view() =~= fv.push(item));
            assert(self.stack_view() =~= sv.push(canonical@));
            law_admitted_include_keeps_chain_acyclic(sv, canonical@);
            assert forall|k: int| 0 <= k < self.stack_view().len() implies crate::paths::path_within(
                #[trigger] self.stack_view()[k],
                self.root_view(),
            ) by {
                if k < sv.len() {
                    assert(self.stack_view()[k] == sv[k]);
                }
            }
        }
        Ok(())
    }

    /// Reads on (see [`advance`]).
    pub fn next(&mut self) -> (r: Result<ExpandStep, RenderError>)
        requires
            old(self).well_formed(),
            old(self).frames_view().len() > 0,
        ensures
            final(self).well_formed(),
            final(self).root_view() == old(self).root_view(),
            match r {
                Ok(ExpandStep::Include { base, argument }) => advance(
                    old(self).frames_view(),
                    old(self).stack_view(),
                ) == Ok::<(Seq<FrameM>, Seq<Seq<char>>, StepM), Seq<char>>(
                    (
                        final(self).frames_view(),
                        final(self).stack_view(),
                        StepM::Include { base: base@, argument: argument@ },
                    ),
                ) && final(self).frames_view().len() > 0,
                Ok(ExpandStep::Done(v)) => advance(
                    old(self).frames_view(),
                    old(self).stack_view(),
                ) == Ok::<(Seq<FrameM>, Seq<Seq<char>>, StepM), Seq<char>>(
                    (final(self).frames_view(), final(self).stack_view(), StepM::Done(v@)),
                ),
                Err(e) => advance(old(self).frames_view(), old(self).stack_view()) is Err
                    && advance(old(self).frames_view(), old(self).stack_view())->Err_0 == e@,
            },
        decreases old(self).frames_view().len(),
    {
        let ghost fv = self.frames_view();
        let ghost sv = self.stack_view();
        let n = self.frames.len() - 1;
        proof {
            assert(fv.last() == frame_view(self.frames@[n as int]));
        }
        let cursor = self.frames[n].cursor;
        let found = match next_directive(self.frames[n].text.as_slice(), cursor) {
            Err(e) => {
                return Err(e);
            },
            Ok(d) => d,
        };
        match found {
            Some(d) => {
                let mut top = self.frames.pop().unwrap();
                let piece = copy_range(top.text.as_slice(), cursor, d.start);
                push_all(&mut top.out, piece.as_slice());
                top.cursor = d.resume;
                let base = copy_range(top.base.as_slice(), 0, top.base.len());
                let ghost item = frame_view(top);
                self.frames.push(top);
                proof {
                    assert(base@ =~= fv.last().base);
                    assert(self.frames_view() =~= fv.update(n as int, item));
                }
                Ok(ExpandStep::Include { base, argument: d.argument })
            },
            None => {
                let mut top = self.frames.pop().unwrap();
                let rest = copy_range(top.text.as_slice(), cursor, top.text.len());
                push_all(&mut top.out, rest.as_slice());
                let _ = self.stack.pop();
                if self.frames.len() == 0 {
                    proof {
                        assert(self.frames_view() =~= Seq::<FrameM>::empty());
                        assert(self.stack_view() =~= sv.drop_last());
                        lemma_chain_drop_last(sv, self.root_view());
                    }
                    return Ok(ExpandStep::Done(top.out));
                }
                let m = self.frames.len() - 1;
                let mut parent = self.frames.pop().unwrap();
                push_all(&mut parent.out, top.out.as_slice());
                let ghost pitem = frame_view(parent);
                self.frames.push(parent);
                proof {
                    assert(self.frames_view() =~= fv.drop_last().update(m as int, pitem));
                    assert(self.stack_view() =~= sv.drop_last());
                    lemma_chain_drop_last(sv, self.root_view());
                }
                self.next()
            },
        }
    }
}

proof fn lemma_chain_drop_last(stack: Seq<Seq<char>>, root: Seq<char>)
    requires
        stack.len() > 0,
        stack.no_duplicates(),
        forall|k: int| 0 <= k < stack.len() ==> crate::paths::path_within(#[trigger] stack[k], root),
    ensures
        stack.drop_last().no_duplicates(),
        forall|k: int|
            0 <= k < stack.drop_last().len() ==> crate::paths::path_within(
                #[trigger] stack.drop_last()[k],
                root,
            ),
{
    let d = stack.drop_last();
    assert forall|a: int, b: int| 0 <= a < d.len() && 0 <= b < d.len() && a != b implies d[a]
        != d[b] by {
        assert(d[a] == stack[a] && d[b] == stack[b]);
    }
    assert forall|k: int| 0 <= k < d.len() implies crate::paths::path_within(#[trigger] d[k], root) by {
        assert(d[k] == stack[k]);
    }
}

/// Of every well-formed expander: the sources being expanded form a chain
/// without a repeated file, no longer than [`MAX_INCLUDE_DEPTH`], and all
/// under the root. Includes never recurse and never leave the project.
pub proof fn law_expander_chain_is_acyclic(e: Expander)
    requires
        e.well_formed(),
    ensures
        e.stack_view().no_duplicates(),
        e.stack_view().len() <= MAX_INCLUDE_DEPTH,
        forall|k: int|
            0 <= k < e.stack_view().len() ==> crate::paths::path_within(
                #[trigger] e.stack_view()[k],
                e.root_view(),
            ),
{
}

/// The error for an include whose argument names no file.
pub fn missing_include(base: &str, argument: &[char]) -> (e: RenderError)
    ensures
        e@ == "included source does not exist relative to "@ + base@ + ": "@ + argument@,
{
    let mut msg: Vec<char> = Vec::new();
    push_str(&mut msg, "included source does not exist relative to ");
    push_str(&mut msg, base);
    push_str(&mut msg, ": ");
    push_all(&mut msg, argument);
    RenderError::from_chars(msg.as_slice())
}

/// A selection made of lines of the source, none of them an anchor marker,
/// joined by line feeds.
pub open spec fn marker_free_lines_of(r: Seq<char>, ls: Seq<Seq<char>>) -> bool {
    exists|o: Seq<Seq<char>>|
        #[trigger] join(o, "\n"@) == r && forall|k: int|
            0 <= k < o.len() ==> ls.contains(#[trigger] o[k]) && anchor_marker_spec(o[k]) is None
}

proof fn lemma_anchor_from_marker_free(
    ls: Seq<Seq<char>>,
    i: int,
    sel: Seq<char>,
    active: bool,
    starts: nat,
    ends: nat,
    out: Seq<Seq<char>>,
)
    requires
        0 <= i,
        forall|k: int| 0 <= k < out.len() ==> ls.contains(#[trigger] out[k]) && anchor_marker_spec(out[k]) is None,
    ensures
        anchor_from(ls, i, sel, active, starts, ends, out) matches Ok(r) ==> marker_free_lines_of(r, ls),
    decreases ls.len() - i,
{
    if i >= ls.len() {
        if let Ok(r) = anchor_from(ls, i, sel, active, starts, ends, out) {
            assert(join(out, "\n"@) == r);
        }
    } else {
        match anchor_marker_spec(ls[i]) {
            Some((is_end, name)) => {
                if name == sel {
                    if is_end {
                        lemma_anchor_from_marker_free(ls, i + 1, sel, false, starts, ends + 1, out);
                    } else {
                        lemma_anchor_from_marker_free(ls, i + 1, sel, true, starts + 1, ends, out);
                    }
                } else {
                    lemma_anchor_from_marker_free(ls, i + 1, sel, active, starts, ends, out);
                }
            },
            None => if active {
                let o2 = out.push(ls[i]);
                assert forall|k: int| 0 <= k < o2.len() implies ls.contains(#[trigger] o2[k])
                    && anchor_marker_spec(o2[k]) is None by {
                    if k < out.len() {
                        assert(o2[k] == out[k]);
                    } else {
                        assert(o2[k] == ls[i]);
                    }
                }
                lemma_anchor_from_marker_free(ls, i + 1, sel, active, starts, ends, o2);
            } else {
                lemma_anchor_from_marker_free(ls, i + 1, sel, active, starts, ends, out);
            },
        }
    }
}

/// An anchored include keeps only lines of the included source and drops
/// every anchor marker line, those of nested or unrelated anchors too: the
/// selection is source lines that are not markers, joined by line feeds.
pub proof fn law_anchor_selection_has_no_markers(src: Seq<char>, sel: Seq<char>)
    requires
        exists|k: int| 0 <= k < sel.len() && !is_digit(#[trigger] sel[k]) && sel[k] != ':',
    ensures
        select_spec(src, Some(sel)) matches Ok(r) ==> marker_free_lines_of(r, lines(src)),
{
    lemma_anchor_from_marker_free(lines(src), 0, sel, false, 0, 0, seq![]);
}

} // verus!
