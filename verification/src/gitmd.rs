//! Markdown text for the GitBook mirror: escaping, code fences, quoted
//! lines and relative links.
use vstd::prelude::*;

use crate::book::RenderError;
use crate::config::res_view;
use crate::text::{
    chars_of, copy_range, ends_with, eq_chars, join, join_exec, lines, lines_exec, push_all,
    push_str, repeat, repeat_exec, starts_with, starts_with_exec, trim_end,
};

verus! {

/// The characters that Markdown would read as markup.
pub open spec fn md_special(c: char) -> bool {
    c == '\\' || c == '*' || c == '_' || c == '[' || c == ']' || c == '|' || c == '<' || c == '>'
}

/// Text escaped for Markdown: a backslash before each special character.
pub open spec fn escape_md(s: Seq<char>) -> Seq<char>
    decreases s.len(),
{
    if s.len() == 0 {
        seq![]
    } else {
        escape_md(s.drop_last()) + if md_special(s.last()) {
            seq!['\\', s.last()]
        } else {
            seq![s.last()]
        }
    }
}

pub fn escape_markdown_text(s: &[char]) -> (r: Vec<char>)
    ensures
        r@ == escape_md(s@),
{
    let mut out: Vec<char> = Vec::new();
    let mut i: usize = 0;
    while i < s.len()
        invariant
            i <= s@.len(),
            out@ == escape_md(s@.take(i as int)),
        decreases s@.len() - i,
    {
        let c = s[i];
        proof {
            assert(s@.take(i + 1).drop_last() =~= s@.take(i as int));
        }
        let ghost before = out@;
        if c == '\\' || c == '*' || c == '_' || c == '[' || c == ']' || c == '|' || c == '<' || c
            == '>' {
            out.push('\\');
        }
        out.push(c);
        proof {
            assert(out@ =~= escape_md(s@.take(i + 1)));
        }
        i = i + 1;
    }
    proof {
        assert(s@.take(s@.len() as int) =~= s@);
    }
    out
}

/// Length of the longest run of `c` in `s`, scanning from `i` with a
/// current run of `cur` and a best run of `best`.
pub open spec fn longest_run_from(s: Seq<char>, c: char, i: int, cur: nat, best: nat) -> nat
    decreases s.len() - i,
{
    if i < 0 || i >= s.len() {
        best
    } else if s[i] == c {
        let n = cur + 1;
        longest_run_from(s, c, i + 1, n, if n > best {
            n
        } else {
            best
        })
    } else {
        longest_run_from(s, c, i + 1, 0, best)
    }
}

/// Length of the longest run of `c` in `s`.
pub open spec fn longest_run(s: Seq<char>, c: char) -> nat {
    longest_run_from(s, c, 0, 0, 0)
}

/// `n + 1`, saturating at `usize::MAX`.
pub open spec fn sat_inc(n: nat) -> nat {
    if n < usize::MAX {
        n + 1
    } else {
        n
    }
}

proof fn lemma_longest_run_bound(s: Seq<char>, c: char, i: int, cur: nat, best: nat)
    requires
        0 <= i <= s.len(),
        cur <= i,
        best <= i,
    ensures
        longest_run_from(s, c, i, cur, best) <= s.len(),
    decreases s.len() - i,
{
    if i < s.len() {
        if s[i] == c {
            let n = cur + 1;
            lemma_longest_run_bound(s, c, i + 1, n, if n > best {
                n
            } else {
                best
            });
        } else {
            lemma_longest_run_bound(s, c, i + 1, 0, best);
        }
    }
}

fn longest_run_exec(s: &[char], c: char) -> (n: usize)
    ensures
        n == longest_run(s@, c),
        n <= s@.len(),
{
    proof {
        lemma_longest_run_bound(s@, c, 0, 0, 0);
    }
    let mut cur: usize = 0;
    let mut best: usize = 0;
    let mut i: usize = 0;
    while i < s.len()
        invariant
            i <= s@.len(),
            cur <= i,
            best <= i,
            longest_run(s@, c) == longest_run_from(s@, c, i as int, cur as nat, best as nat),
        decreases s@.len() - i,
    {
        if s[i] == c {
            cur = cur + 1;
            if cur > best {
                best = cur;
            }
        } else {
            cur = 0;
        }
        i = i + 1;
    }
    best
}

/// A code fence longer than any run of its marker inside `source` (and at
/// least three long); tildes when the info string holds a backtick.
pub open spec fn fence_for(source: Seq<char>, info: Seq<char>) -> Seq<char> {
    let marker = if info.contains('`') {
        '~'
    } else {
        '`'
    };
    let n = sat_inc(longest_run(source, marker));
    repeat(marker, if n > 3 {
        n
    } else {
        3
    })
}

pub fn markdown_fence(source: &[char], info: &[char]) -> (r: Vec<char>)
    ensures
        r@ == fence_for(source@, info@),
{
    let mut has_tick = false;
    let mut i: usize = 0;
    while i < info.len()
        invariant
            i <= info@.len(),
            has_tick == exists|k: int| 0 <= k < i && info@[k] == '`',
        decreases info@.len() - i,
    {
        if info[i] == '`' {
            has_tick = true;
        }
        i = i + 1;
    }
    proof {
        if has_tick {
            let k = choose|k: int| 0 <= k < info@.len() && info@[k] == '`';
            assert(info@.contains('`'));
        } else {
            assert(!info@.contains('`'));
        }
    }
    let marker = if has_tick {
        '~'
    } else {
        '`'
    };
    let n = longest_run_exec(source, marker).saturating_add(1);
    repeat_exec(marker, if n > 3 {
        n
    } else {
        3
    })
}

/// Inline code delimited by more backticks than any run inside it, padded
/// with spaces when it starts or ends with a backtick.
pub open spec fn inline_code_md(v: Seq<char>) -> Seq<char> {
    let marker = repeat('`', sat_inc(longest_run(v, '`')));
    if starts_with(v, "`"@) || ends_with(v, "`"@) {
        marker + seq![' '] + v + seq![' '] + marker
    } else {
        marker + v + marker
    }
}

pub fn markdown_inline_code(v: &[char]) -> (r: Vec<char>)
    ensures
        r@ == inline_code_md(v@),
{
    let n = longest_run_exec(v, '`');
    let marker = repeat_exec('`', n.saturating_add(1));
    let tick = chars_of("`");
    let mut out: Vec<char> = Vec::new();
    push_all(&mut out, marker.as_slice());
    if starts_with_exec(v, tick.as_slice()) || crate::text::ends_with_exec(v, tick.as_slice()) {
        out.push(' ');
        push_all(&mut out, v);
        out.push(' ');
    } else {
        push_all(&mut out, v);
    }
    push_all(&mut out, marker.as_slice());
    proof {
        assert(out@ =~= inline_code_md(v@));
    }
    out
}

/// Each line of `source` (trailing whitespace of the whole text removed)
/// with `prefix` before it; an empty line gets the prefix without its
/// trailing whitespace.
pub open spec fn prefix_lines(source: Seq<char>, prefix: Seq<char>) -> Seq<char> {
    prefix_each(lines(trim_end(source)), prefix)
}

pub open spec fn prefix_each(ls: Seq<Seq<char>>, prefix: Seq<char>) -> Seq<char>
    decreases ls.len(),
{
    if ls.len() == 0 {
        seq![]
    } else {
        prefix_each(ls.drop_last(), prefix) + if ls.last().len() == 0 {
            trim_end(prefix)
        } else {
            prefix + ls.last()
        } + "\n"@
    }
}

pub fn prefix_markdown_lines(source: &[char], prefix: &str) -> (r: Vec<char>)
    ensures
        r@ == prefix_lines(source@, prefix@),
{
    let t = trim_end_exec(source);
    let ls = lines_exec(t.as_slice());
    let ghost lv = lines(t@);
    let pc = chars_of(prefix);
    let pt = trim_end_exec(pc.as_slice());
    let mut out: Vec<char> = Vec::new();
    let mut i: usize = 0;
    proof {
        assert(lv.take(0) =~= Seq::<Seq<char>>::empty());
    }
    while i < ls.len()
        invariant
            i <= ls@.len(),
            lv == lines(t@),
            ls@.len() == lv.len(),
            forall|k: int| 0 <= k < ls@.len() ==> #[trigger] ls@[k]@ == lv[k],
            pc@ == prefix@,
            pt@ == trim_end(prefix@),
            out@ == prefix_each(lv.take(i as int), prefix@),
        decreases ls@.len() - i,
    {
        proof {
            assert(lv.take(i + 1).drop_last() =~= lv.take(i as int));
            assert(ls@[i as int]@ == lv[i as int]);
        }
        let ghost before = out@;
        if ls[i].len() == 0 {
            push_all(&mut out, pt.as_slice());
        } else {
            push_all(&mut out, pc.as_slice());
            push_all(&mut out, ls[i].as_slice());
        }
        out.push('\n');
        proof {
            reveal_strlit("\n");
            assert(out@ =~= prefix_each(lv.take(i + 1), prefix@));
        }
        i = i + 1;
    }
    proof {
        assert(lv.take(ls@.len() as int) =~= lv);
    }
    out
}

/// `str::trim_end`.
pub fn trim_end_exec(s: &[char]) -> (v: Vec<char>)
    ensures
        v@ == trim_end(s@),
{
    let j = crate::text::back_skip_ws(s, s.len());
    copy_range(s, 0, j)
}

/// The non-empty, non-`.` segments of a `/`-separated path, from index `i`,
/// with the segment begun at `start`.
pub open spec fn segments_from(p: Seq<char>, i: int, start: int) -> Seq<Seq<char>>
    decreases p.len() - i,
{
    if i < 0 || i > p.len() || start < 0 || start > i {
        seq![]
    } else if i == p.len() || p[i] == '/' {
        let seg = p.subrange(start, i);
        let rest = if i == p.len() {
            seq![]
        } else {
            segments_from(p, i + 1, i + 1)
        };
        if seg.len() == 0 || seg == "."@ {
            rest
        } else {
            seq![seg] + rest
        }
    } else {
        segments_from(p, i + 1, start)
    }
}

/// The components of a relative path, as `Path::components` lists them.
pub open spec fn segments(p: Seq<char>) -> Seq<Seq<char>> {
    segments_from(p, 0, 0)
}

/// A relative path written with `/` for Markdown; refused when absolute,
/// when it starts with `.`, or when it is empty.
pub open spec fn path_md(p: Seq<char>) -> Result<Seq<char>, Seq<char>> {
    if starts_with(p, "/"@) || p == "."@ || starts_with(p, "./"@) {
        Err("GitBook path is not safely relative"@)
    } else if segments(p).len() == 0 {
        Err("GitBook path must not be empty"@)
    } else {
        Ok(join(segments(p), "/"@))
    }
}

pub open spec fn seg_view(v: Seq<Vec<char>>) -> Seq<Seq<char>> {
    Seq::new(v.len(), |k: int| v[k]@)
}

pub fn segments_of(p: &[char]) -> (r: Vec<Vec<char>>)
    ensures
        seg_view(r@) == segments(p@),
{
    proof {
        reveal_strlit(".");
    }
    let mut out: Vec<Vec<char>> = Vec::new();
    let mut start: usize = 0;
    let mut i: usize = 0;
    let dot = chars_of(".");
    proof {
        assert(seg_view(out@) =~= Seq::<Seq<char>>::empty());
    }
    loop
        invariant
            start <= i <= p@.len(),
            dot@ == "."@,
            segments(p@) == seg_view(out@) + segments_from(p@, i as int, start as int),
        decreases p@.len() - i,
    {
        if i == p.len() || p[i] == '/' {
            let seg = copy_range(p, start, i);
            let ghost before = seg_view(out@);
            if seg.len() != 0 && !eq_chars(seg.as_slice(), dot.as_slice()) {
                out.push(seg);
                proof {
                    assert(seg_view(out@) =~= before.push(seg@));
                }
            }
            if i == p.len() {
                proof {
                    assert(seg_view(out@) + Seq::<Seq<char>>::empty() =~= seg_view(out@));
                }
                return out;
            }
            proof {
                assert(before + segments_from(p@, i as int, start as int) =~= seg_view(out@)
                    + segments_from(p@, i + 1, i + 1));
            }
            i = i + 1;
            start = i;
        } else {
            i = i + 1;
        }
    }
}

/// Writes a path for Markdown (see [`path_md`]).
pub fn path_to_markdown(p: &[char]) -> (r: Result<Vec<char>, RenderError>)
    ensures
        res_view(r) == path_md(p@),
{
    let slash = chars_of("/");
    let dot = chars_of(".");
    let dot_slash = chars_of("./");
    if starts_with_exec(p, slash.as_slice()) || eq_chars(p, dot.as_slice()) || starts_with_exec(
        p,
        dot_slash.as_slice(),
    ) {
        return Err(RenderError::new("GitBook path is not safely relative"));
    }
    let segs = segments_of(p);
    if segs.len() == 0 {
        return Err(RenderError::new("GitBook path must not be empty"));
    }
    proof {
        assert(segs@.map_values(|v: Vec<char>| v@) =~= seg_view(segs@));
    }
    Ok(join_exec(&segs, slash.as_slice()))
}

/// Number of leading segments two component lists share.
pub open spec fn common_prefix(a: Seq<Seq<char>>, b: Seq<Seq<char>>, k: nat) -> nat
    decreases a.len() - k,
{
    if k < a.len() && k < b.len() && a[k as int] == b[k as int] {
        common_prefix(a, b, k + 1)
    } else {
        k
    }
}

/// The path from directory `from` to `to`: `..` for each component of
/// `from` past the shared ones, then the rest of `to`.
pub open spec fn relative_md(from: Seq<char>, to: Seq<char>) -> Result<Seq<char>, Seq<char>> {
    let f = segments(from);
    let t = segments(to);
    let c = common_prefix(f, t, 0);
    let parts = Seq::new((f.len() - c) as nat, |k: int| ".."@) + t.subrange(c as int, t.len() as int);
    if parts.len() == 0 {
        Err("GitBook path must not be empty"@)
    } else {
        Ok(join(parts, "/"@))
    }
}

proof fn lemma_common_prefix_bound(a: Seq<Seq<char>>, b: Seq<Seq<char>>, k: nat)
    requires
        k <= a.len(),
        k <= b.len(),
    ensures
        k <= common_prefix(a, b, k) <= a.len(),
        common_prefix(a, b, k) <= b.len(),
    decreases a.len() - k,
{
    if k < a.len() && k < b.len() && a[k as int] == b[k as int] {
        lemma_common_prefix_bound(a, b, k + 1);
    }
}

/// Writes the path from directory `from` to `to` (see [`relative_md`]).
pub fn relative_markdown_path(from: &[char], to: &[char]) -> (r: Result<Vec<char>, RenderError>)
    ensures
        res_view(r) == relative_md(from@, to@),
{
    let f = segments_of(from);
    let t = segments_of(to);
    let ghost fv = seg_view(f@);
    let ghost tv = seg_view(t@);
    let mut c: usize = 0;
    while c < f.len() && c < t.len() && eq_chars(f[c].as_slice(), t[c].as_slice())
        invariant
            c <= f@.len(),
            c <= t@.len(),
            fv == seg_view(f@),
            tv == seg_view(t@),
            common_prefix(fv, tv, 0) == common_prefix(fv, tv, c as nat),
        decreases f@.len() - c,
    {
        c = c + 1;
    }
    let mut parts: Vec<Vec<char>> = Vec::new();
    let mut k: usize = c;
    while k < f.len()
        invariant
            c <= k <= f@.len(),
            seg_view(parts@) == Seq::new((k - c) as nat, |j: int| ".."@),
        decreases f@.len() - k,
    {
        let ghost before = seg_view(parts@);
        parts.push(chars_of(".."));
        proof {
            assert(seg_view(parts@) =~= before.push(".."@));
            assert(seg_view(parts@) =~= Seq::new((k + 1 - c) as nat, |j: int| ".."@));
        }
        k = k + 1;
    }
    let ghost ups = seg_view(parts@);
    let mut k: usize = c;
    while k < t.len()
        invariant
            c <= k <= t@.len(),
            tv == seg_view(t@),
            seg_view(parts@) == ups + tv.subrange(c as int, k as int),
        decreases t@.len() - k,
    {
        let ghost before = seg_view(parts@);
        parts.push(copy_range(t[k].as_slice(), 0, t[k].len()));
        proof {
            assert(t@[k as int]@.subrange(0, t@[k as int]@.len() as int) =~= tv[k as int]);
            assert(seg_view(parts@) =~= before.push(tv[k as int]));
            assert(seg_view(parts@) =~= ups + tv.subrange(c as int, k + 1));
        }
        k = k + 1;
    }
    proof {
        assert(c == common_prefix(fv, tv, 0));
        assert(fv.len() == f@.len());
        assert(seg_view(parts@) =~= Seq::new((fv.len() - c) as nat, |j: int| ".."@) + tv.subrange(
            c as int,
            tv.len() as int,
        ));
    }
    if parts.len() == 0 {
        return Err(RenderError::new("GitBook path must not be empty"));
    }
    let slash = chars_of("/");
    proof {
        assert(parts@.map_values(|v: Vec<char>| v@) =~= seg_view(parts@));
    }
    Ok(join_exec(&parts, slash.as_slice()))
}

/// A generated code fence can never be closed by the code it wraps: it is
/// made of one marker character, at least three long, and longer than every
/// run of that marker inside the code.
pub proof fn law_fence_outlasts_code(source: Seq<char>, info: Seq<char>)
    requires
        longest_run(source, '~') < usize::MAX,
        longest_run(source, '`') < usize::MAX,
    ensures
        ({
            let marker = if info.contains('`') {
                '~'
            } else {
                '`'
            };
            &&& fence_for(source, info).len() > longest_run(source, marker)
            &&& fence_for(source, info).len() >= 3
            &&& forall|k: int|
                0 <= k < fence_for(source, info).len() ==> #[trigger] fence_for(source, info)[k]
                    == marker
        }),
{
}

/// Inline code is wrapped in more backticks than any run of backticks it
/// holds, so it cannot end early.
pub proof fn law_inline_code_delimiter_outlasts_code(v: Seq<char>)
    requires
        longest_run(v, '`') < usize::MAX,
    ensures
        repeat('`', sat_inc(longest_run(v, '`'))).len() > longest_run(v, '`'),
        starts_with(inline_code_md(v), repeat('`', sat_inc(longest_run(v, '`')))),
{
    let m = repeat('`', sat_inc(longest_run(v, '`')));
    if starts_with(v, "`"@) || ends_with(v, "`"@) {
        assert((m + seq![' '] + v + seq![' '] + m).subrange(0, m.len() as int) =~= m);
    } else {
        assert((m + v + m).subrange(0, m.len() as int) =~= m);
    }
}

} // verus!
