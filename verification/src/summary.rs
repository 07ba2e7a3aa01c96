//! `SUMMARY.md`: the book's parts, separators and chapters, in reading order.
use vstd::prelude::*;

use crate::book::RenderError;
use crate::parser::{trim_char, trim_char_exec};
use crate::text::matches_at;
use crate::paths::{ensure_inside, outside_error, path_within};
use crate::text::{
    chars_of, copy_range, decimal, decimal_wide, eq_chars, find_from, find_from_exec,
    lemma_find_from, lemma_run_of, lines, lines_exec, push_all, push_str, rfind, rfind_exec,
    run_count, run_of, skip_ws, starts_with, starts_with_exec, string_of, trim, trim_start,
    trimmed, zero_padded, zero_padded_exec, digits_value, digit_char,
};
use crate::typst::{Resolution, is_remote_target, lookup, lookup_resolution, remote, resolutions_model};

verus! {

/// A chapter listed in `SUMMARY.md`.
pub struct SummaryChapter {
    pub title: String,
    /// The chapter's canonical path.
    pub source: String,
    /// Nesting depth under the current part (0 before the first part).
    pub depth: usize,
    /// The Typst label of the chapter, `chapter-NNN`.
    pub label: String,
}

/// One entry of `SUMMARY.md`.
pub enum SummaryEntry {
    Part(String),
    Separator,
    Chapter(SummaryChapter),
}

/// The model of a [`SummaryEntry`].
pub enum EntryM {
    Part(Seq<char>),
    Separator,
    Chapter { title: Seq<char>, source: Seq<char>, depth: nat, label: Seq<char> },
}

pub open spec fn entry_model(e: SummaryEntry) -> EntryM {
    match e {
        SummaryEntry::Part(t) => EntryM::Part(t@),
        SummaryEntry::Separator => EntryM::Separator,
        SummaryEntry::Chapter(c) => EntryM::Chapter {
            title: c.title@,
            source: c.source@,
            depth: c.depth as nat,
            label: c.label@,
        },
    }
}

pub open spec fn entries_model(v: Seq<SummaryEntry>) -> Seq<EntryM> {
    Seq::new(v.len(), |k: int| entry_model(v[k]))
}

/// A list item `- [title](target)` (or `* `): its title, target and depth
/// (two spaces of indentation per level).
pub open spec fn summary_link(line: Seq<char>) -> Option<(Seq<char>, Seq<char>, nat)> {
    let indent = run_of(line, 0, ' ');
    let t = trim_start(line);
    if !(starts_with(t, "- "@) || starts_with(t, "* "@)) {
        None
    } else {
        let body = t.subrange(2, t.len() as int);
        if !starts_with(body, "["@) {
            None
        } else {
            match find_from(body, 0, "]("@) {
                None => None,
                Some(le) => match rfind(body, ")"@) {
                    None => None,
                    Some(close) => if close + 1 != body.len() || le < 1 || close < le + 2 {
                        None
                    } else {
                        let label = trim(body.subrange(1, le));
                        let target = trim_char(
                            trim_char(trim(body.subrange(le + 2, close)), '<'),
                            '>',
                        );
                        if label.len() == 0 || target.len() == 0 {
                            None
                        } else {
                            Some((label, target, (indent / 2) as nat))
                        }
                    },
                },
            }
        }
    }
}

fn trim_start_exec(s: &[char]) -> (v: Vec<char>)
    ensures
        v@ == trim_start(s@),
{
    let a = skip_ws(s, 0);
    copy_range(s, a, s.len())
}

/// Reads a `SUMMARY.md` list item (see [`summary_link`]).
pub fn parse_summary_link(line: &[char]) -> (r: Option<(Vec<char>, Vec<char>, usize)>)
    ensures
        match r {
            Some((a, b, d)) => summary_link(line@) == Some((a@, b@, d as nat)),
            None => summary_link(line@) is None,
        },
{
    proof {
        reveal_strlit("- ");
        reveal_strlit("* ");
        reveal_strlit("](");
        reveal_strlit(")");
        lemma_run_of(line@, 0, ' ');
    }
    let indent = run_count(line, 0, ' ');
    let t = trim_start_exec(line);
    let dash = chars_of("- ");
    let star = chars_of("* ");
    if !(starts_with_exec(t.as_slice(), dash.as_slice()) || starts_with_exec(
        t.as_slice(),
        star.as_slice(),
    )) {
        return None;
    }
    let body = copy_range(t.as_slice(), 2, t.len());
    let open = chars_of("[");
    if !starts_with_exec(body.as_slice(), open.as_slice()) {
        return None;
    }
    let sep = chars_of("](");
    let le = match find_from_exec(body.as_slice(), 0, sep.as_slice()) {
        None => {
            return None;
        },
        Some(k) => k,
    };
    let paren = chars_of(")");
    let close = match rfind_exec(body.as_slice(), paren.as_slice()) {
        None => {
            return None;
        },
        Some(k) => k,
    };
    proof {
        lemma_find_from(body@, 0, "]("@);
    }
    if close >= body.len() || close + 1 != body.len() || le < 1 || close < le + 2 {
        return None;
    }
    let lraw = copy_range(body.as_slice(), 1, le);
    let label = trimmed(lraw.as_slice());
    let traw = copy_range(body.as_slice(), le + 2, close);
    let t1 = trimmed(traw.as_slice());
    let t2 = trim_char_exec(t1.as_slice(), '<');
    let target = trim_char_exec(t2.as_slice(), '>');
    if label.len() == 0 || target.len() == 0 {
        return None;
    }
    Some((label, target, indent / 2))
}

/// The part of a target before its first `#`.
pub open spec fn before_hash(s: Seq<char>) -> Seq<char> {
    match find_from(s, 0, "#"@) {
        Some(k) => s.subrange(0, k),
        None => s,
    }
}

/// The path part of a link target, before its first `#`.
pub fn target_path(s: &[char]) -> (v: Vec<char>)
    ensures
        v@ == before_hash(s@),
{
    proof {
        reveal_strlit("#");
    }
    let hash = chars_of("#");
    match find_from_exec(s, 0, hash.as_slice()) {
        Some(k) => {
            proof {
                lemma_find_from(s@, 0, "#"@);
            }
            copy_range(s, 0, k)
        },
        None => copy_range(s, 0, s.len()),
    }
}

/// Whether any entry is a chapter.
pub open spec fn has_chapter(acc: Seq<EntryM>) -> bool {
    exists|k: int| 0 <= k < acc.len() && #[trigger] acc[k] is Chapter
}

/// The inputs that `SUMMARY.md` is read against: the canonical source
/// directory and project root, and the canonical path (or the failure to
/// find it) of each chapter target, keyed by the target without its fragment.
pub struct SummaryContext {
    pub source_dir: Seq<char>,
    pub project_root: Seq<char>,
    pub resolved: Seq<(Seq<char>, Result<Seq<char>, Seq<char>>)>,
}

/// The entries of `SUMMARY.md` from line `i` on, appended to `acc`.
pub open spec fn summary_from(
    ls: Seq<Seq<char>>,
    i: int,
    seen_part: bool,
    seen: Seq<Seq<char>>,
    acc: Seq<EntryM>,
    cx: SummaryContext,
) -> Result<Seq<EntryM>, Seq<char>>
    decreases ls.len() - i,
{
    if i < 0 || i >= ls.len() {
        if has_chapter(acc) {
            Ok(acc)
        } else {
            Err("SUMMARY.md contains no chapters"@)
        }
    } else {
        let raw = ls[i];
        let t = trim(raw);
        if t.len() == 0 || t == "# Summary"@ {
            summary_from(ls, i + 1, seen_part, seen, acc, cx)
        } else if t == "---"@ {
            summary_from(ls, i + 1, seen_part, seen, acc.push(EntryM::Separator), cx)
        } else if starts_with(t, "# "@) {
            let title = trim(t.subrange(2, t.len() as int));
            if title.len() == 0 {
                Err("empty part title in SUMMARY.md line "@ + decimal((i + 1) as nat))
            } else {
                summary_from(ls, i + 1, true, seen, acc.push(EntryM::Part(title)), cx)
            }
        } else {
            match summary_link(raw) {
                None => Err(
                    "unsupported SUMMARY.md structure at line "@ + decimal((i + 1) as nat) + ": "@
                        + raw,
                ),
                Some((title, target, depth)) => if remote(target) {
                    Err("SUMMARY.md chapter target must be local: "@ + target)
                } else {
                    match lookup(cx.resolved, before_hash(target)) {
                        None => Err("SUMMARY.md chapter was not resolved: "@ + before_hash(target)),
                        Some(Err(e)) => Err(e),
                        Some(Ok(path)) => if !path_within(path, cx.project_root) {
                            Err(outside_error(cx.project_root, path, "SUMMARY.md chapter"@))
                        } else if !path_within(path, cx.source_dir) {
                            Err(outside_error(cx.source_dir, path, "SUMMARY.md chapter"@))
                        } else if seen.contains(path) {
                            Err("SUMMARY.md contains a duplicate chapter target: "@ + path)
                        } else {
                            summary_from(
                                ls,
                                i + 1,
                                seen_part,
                                seen.push(path),
                                acc.push(
                                    EntryM::Chapter {
                                        title,
                                        source: path,
                                        depth: if seen_part {
                                            depth
                                        } else {
                                            0
                                        },
                                        label: seq![],
                                    },
                                ),
                                cx,
                            )
                        },
                    }
                },
            }
        }
    }
}

/// The entries of `SUMMARY.md`, labels not yet assigned.
pub open spec fn summary_spec(src: Seq<char>, cx: SummaryContext) -> Result<Seq<EntryM>, Seq<char>> {
    summary_from(lines(src), 0, false, seq![], seq![], cx)
}

fn contains_path(seen: &Vec<Vec<char>>, p: &[char]) -> (b: bool)
    ensures
        b == Seq::new(seen@.len(), |k: int| seen@[k]@).contains(p@),
{
    let ghost sv = Seq::new(seen@.len(), |k: int| seen@[k]@);
    let mut k: usize = 0;
    while k < seen.len()
        invariant
            k <= seen@.len(),
            sv == Seq::new(seen@.len(), |k: int| seen@[k]@),
            forall|j: int| 0 <= j < k ==> sv[j] != p@,
        decreases seen@.len() - k,
    {
        if eq_chars(seen[k].as_slice(), p) {
            proof {
                assert(sv[k as int] == p@);
            }
            return true;
        }
        k = k + 1;
    }
    false
}

proof fn lemma_has_chapter_push(acc: Seq<EntryM>, x: EntryM)
    ensures
        has_chapter(acc.push(x)) == (has_chapter(acc) || x is Chapter),
{
    if has_chapter(acc) {
        let k = choose|k: int| 0 <= k < acc.len() && #[trigger] acc[k] is Chapter;
        assert(acc.push(x)[k] is Chapter);
    }
    if x is Chapter {
        assert(acc.push(x)[acc.len() as int] is Chapter);
    }
    if has_chapter(acc.push(x)) {
        let k = choose|k: int| 0 <= k < acc.push(x).len() && #[trigger] acc.push(x)[k] is Chapter;
        if k < acc.len() {
            assert(acc[k] is Chapter);
        }
    }
}

pub open spec fn paths_view(v: Seq<Vec<char>>) -> Seq<Seq<char>> {
    Seq::new(v.len(), |k: int| v[k]@)
}

/// Reads `SUMMARY.md` (see [`summary_spec`]); chapters get empty labels.
pub fn parse_summary(
    source: &str,
    source_dir: &str,
    project_root: &str,
    resolved: &Vec<Resolution>,
) -> (r: Result<Vec<SummaryEntry>, RenderError>)
    ensures
        match r {
            Ok(v) => summary_spec(
                source@,
                SummaryContext {
                    source_dir: source_dir@,
                    project_root: project_root@,
                    resolved: resolutions_model(resolved@),
                },
            ) == Ok::<Seq<EntryM>, Seq<char>>(entries_model(v@)),
            Err(e) => summary_spec(
                source@,
                SummaryContext {
                    source_dir: source_dir@,
                    project_root: project_root@,
                    resolved: resolutions_model(resolved@),
                },
            ) == Err::<Seq<EntryM>, Seq<char>>(e@),
        },
{
    let ghost cx = SummaryContext {
        source_dir: source_dir@,
        project_root: project_root@,
        resolved: resolutions_model(resolved@),
    };
    let src = chars_of(source);
    let sdir = chars_of(source_dir);
    let root = chars_of(project_root);
    let ls = lines_exec(src.as_slice());
    let ghost lsv = lines(src@);
    let mut out: Vec<SummaryEntry> = Vec::new();
    let mut seen: Vec<Vec<char>> = Vec::new();
    let mut seen_part = false;
    let mut any_chapter = false;
    let mut i: usize = 0;
    proof {
        assert(entries_model(out@) =~= Seq::<EntryM>::empty());
        assert(paths_view(seen@) =~= Seq::<Seq<char>>::empty());
    }
    while i < ls.len()
        invariant
            i <= ls@.len(),
            lsv == lines(src@),
            src@ == source@,
            sdir@ == source_dir@,
            root@ == project_root@,
            cx == (SummaryContext {
                source_dir: source_dir@,
                project_root: project_root@,
                resolved: resolutions_model(resolved@),
            }),
            ls@.len() == lsv.len(),
            forall|k: int| 0 <= k < ls@.len() ==> #[trigger] ls@[k]@ == lsv[k],
            any_chapter == has_chapter(entries_model(out@)),
            summary_spec(source@, cx) == summary_from(
                lsv,
                i as int,
                seen_part,
                paths_view(seen@),
                entries_model(out@),
                cx,
            ),
        decreases ls@.len() - i,
    {
        proof {
            reveal_strlit("# Summary");
            reveal_strlit("---");
            reveal_strlit("# ");
        }
        let raw = ls[i].as_slice();
        proof {
            assert(raw@ == lsv[i as int]);
        }
        let t = trimmed(raw);
        let summary_title = chars_of("# Summary");
        let rule = chars_of("---");
        let hash = chars_of("# ");
        if t.len() == 0 || eq_chars(t.as_slice(), summary_title.as_slice()) {
        } else if eq_chars(t.as_slice(), rule.as_slice()) {
            let ghost before = entries_model(out@);
            out.push(SummaryEntry::Separator);
            proof {
                assert(entries_model(out@) =~= before.push(EntryM::Separator));
                lemma_has_chapter_push(before, EntryM::Separator);
            }
        } else if starts_with_exec(t.as_slice(), hash.as_slice()) {
            let traw = copy_range(t.as_slice(), 2, t.len());
            let title = trimmed(traw.as_slice());
            if title.len() == 0 {
                let mut msg: Vec<char> = Vec::new();
                push_str(&mut msg, "empty part title in SUMMARY.md line ");
                let n = decimal_wide((i as u128) + 1);
                push_all(&mut msg, n.as_slice());
                return Err(RenderError::from_chars(msg.as_slice()));
            }
            let ghost before = entries_model(out@);
            let ts = string_of(title.as_slice());
            out.push(SummaryEntry::Part(ts));
            proof {
                assert(entries_model(out@) =~= before.push(EntryM::Part(title@)));
                lemma_has_chapter_push(before, EntryM::Part(title@));
            }
            seen_part = true;
        } else {
            match parse_summary_link(raw) {
                None => {
                    let mut msg: Vec<char> = Vec::new();
                    push_str(&mut msg, "unsupported SUMMARY.md structure at line ");
                    let n = decimal_wide((i as u128) + 1);
                    push_all(&mut msg, n.as_slice());
                    push_str(&mut msg, ": ");
                    push_all(&mut msg, raw);
                    return Err(RenderError::from_chars(msg.as_slice()));
                },
                Some((title, target, depth)) => {
                    if is_remote_target(target.as_slice()) {
                        return Err(RenderError::with_detail(
                            "SUMMARY.md chapter target must be local: ",
                            target.as_slice(),
                        ));
                    }
                    let key = target_path(target.as_slice());
                    let path = match lookup_resolution(resolved, key.as_slice()) {
                        None => {
                            return Err(RenderError::with_detail(
                                "SUMMARY.md chapter was not resolved: ",
                                key.as_slice(),
                            ));
                        },
                        Some(Err(e)) => {
                            return Err(e);
                        },
                        Some(Ok(p)) => chars_of(p.as_str()),
                    };
                    match ensure_inside(root.as_slice(), path.as_slice(), "SUMMARY.md chapter") {
                        Err(e) => {
                            return Err(e);
                        },
                        Ok(()) => {},
                    }
                    match ensure_inside(sdir.as_slice(), path.as_slice(), "SUMMARY.md chapter") {
                        Err(e) => {
                            return Err(e);
                        },
                        Ok(()) => {},
                    }
                    if contains_path(&seen, path.as_slice()) {
                        return Err(RenderError::with_detail(
                            "SUMMARY.md contains a duplicate chapter target: ",
                            path.as_slice(),
                        ));
                    }
                    let d: usize = if seen_part {
                        depth
                    } else {
                        0
                    };
                    let ghost before = entries_model(out@);
                    let ghost seen_before = paths_view(seen@);
                    let ghost entry = EntryM::Chapter {
                        title: title@,
                        source: path@,
                        depth: d as nat,
                        label: seq![],
                    };
                    let chapter = SummaryChapter {
                        title: string_of(title.as_slice()),
                        source: string_of(path.as_slice()),
                        depth: d,
                        label: String::new(),
                    };
                    out.push(SummaryEntry::Chapter(chapter));
                    let kept = copy_range(path.as_slice(), 0, path.len());
                    proof {
                        assert(kept@ =~= path@);
                    }
                    seen.push(kept);
                    proof {
                        assert(entries_model(out@) =~= before.push(entry));
                        assert(paths_view(seen@) =~= seen_before.push(path@));
                        lemma_has_chapter_push(before, entry);
                    }
                    any_chapter = true;
                },
            }
        }
        i = i + 1;
    }
    if !any_chapter {
        return Err(RenderError::new("SUMMARY.md contains no chapters"));
    }
    Ok(out)
}

/// Number of chapters among the first `j` entries.
pub open spec fn chapters_before(es: Seq<EntryM>, j: int) -> nat
    decreases j,
{
    if j <= 0 || j > es.len() {
        0
    } else {
        chapters_before(es, j - 1) + if es[j - 1] is Chapter {
            1nat
        } else {
            0nat
        }
    }
}

/// The Typst label of the `k`-th chapter (`chapter-{k:03}`).
pub open spec fn chapter_label(k: nat) -> Seq<char> {
    "chapter-"@ + zero_padded(k, 3)
}

/// The entries with each chapter labelled by its position among the chapters.
pub open spec fn labelled(es: Seq<EntryM>) -> Seq<EntryM> {
    Seq::new(
        es.len(),
        |j: int|
            match es[j] {
                EntryM::Chapter { title, source, depth, label } => EntryM::Chapter {
                    title,
                    source,
                    depth,
                    label: chapter_label(chapters_before(es, j)),
                },
                other => other,
            },
    )
}

fn copy_string(s: &String) -> (r: String)
    ensures
        r@ == s@,
{
    s.clone()
}

/// Gives each chapter its label, `chapter-000` for the first chapter on.
pub fn assign_chapter_labels(entries: &mut Vec<SummaryEntry>)
    ensures
        entries_model(final(entries)@) == labelled(entries_model(old(entries)@)),
{
    let ghost es = entries_model(entries@);
    let mut out: Vec<SummaryEntry> = Vec::new();
    let mut index: u64 = 0;
    let mut j: usize = 0;
    while j < entries.len()
        invariant
            j <= entries@.len(),
            es == entries_model(entries@),
            index == chapters_before(es, j as int),
            index <= j,
            out@.len() == j,
            forall|k: int| 0 <= k < j ==> #[trigger] entry_model(out@[k]) == labelled(es)[k],
        decreases entries@.len() - j,
    {
        let next = match &entries[j] {
            SummaryEntry::Part(t) => SummaryEntry::Part(copy_string(t)),
            SummaryEntry::Separator => SummaryEntry::Separator,
            SummaryEntry::Chapter(c) => {
                let mut label: Vec<char> = Vec::new();
                push_str(&mut label, "chapter-");
                let n = zero_padded_exec(index, 3);
                push_all(&mut label, n.as_slice());
                SummaryEntry::Chapter(
                    SummaryChapter {
                        title: copy_string(&c.title),
                        source: copy_string(&c.source),
                        depth: c.depth,
                        label: string_of(label.as_slice()),
                    },
                )
            },
        };
        let is_chapter = match &entries[j] {
            SummaryEntry::Chapter(_) => true,
            _ => false,
        };
        out.push(next);
        if is_chapter {
            index = index + 1;
        }
        j = j + 1;
    }
    proof {
        assert(entries_model(out@) =~= labelled(es));
    }
    *entries = out;
}

proof fn lemma_chapters_before_mono(es: Seq<EntryM>, a: int, b: int)
    requires
        0 <= a < b <= es.len(),
        es[a] is Chapter,
    ensures
        chapters_before(es, a) < chapters_before(es, b),
    decreases b - a,
{
    if b > a + 1 {
        lemma_chapters_before_mono(es, a, b - 1);
    }
}

proof fn lemma_digits_value_zeros(n: nat)
    ensures
        digits_value(Seq::new(n, |i: int| '0')) == 0,
    decreases n,
{
    if n > 0 {
        assert(Seq::new(n, |i: int| '0').drop_last() =~= Seq::new((n - 1) as nat, |i: int| '0'));
        lemma_digits_value_zeros((n - 1) as nat);
    }
}

proof fn lemma_digits_value_padded(z: nat, d: Seq<char>)
    ensures
        digits_value(Seq::new(z, |i: int| '0') + d) == digits_value(d),
    decreases d.len(),
{
    let zs = Seq::new(z, |i: int| '0');
    if d.len() == 0 {
        assert(zs + d =~= zs);
        lemma_digits_value_zeros(z);
    } else {
        assert((zs + d).drop_last() =~= zs + d.drop_last());
        lemma_digits_value_padded(z, d.drop_last());
    }
}

proof fn lemma_digit_char_value(d: nat)
    requires
        d < 10,
    ensures
        digit_char(d) as nat - '0' as nat == d,
{
}

proof fn lemma_digits_value_decimal(n: nat)
    ensures
        digits_value(decimal(n)) == n,
    decreases n,
{
    if n >= 10 {
        lemma_digits_value_decimal(n / 10);
        assert(decimal(n).drop_last() =~= decimal(n / 10));
        lemma_digit_char_value(n % 10);
        assert(decimal(n).last() == digit_char(n % 10));
        assert((n / 10) * 10 + n % 10 == n);
        assert(digits_value(decimal(n)) == digits_value(decimal(n).drop_last()) * 10 + (
        decimal(n).last() as nat - '0' as nat) as nat);
        assert(digits_value(decimal(n)) == digits_value(decimal(n / 10)) * 10 + n % 10);
    } else {
        lemma_digit_char_value(n);
        assert(decimal(n) == seq![digit_char(n)]);
        assert(decimal(n).drop_last() =~= Seq::<char>::empty());
        assert(digits_value(decimal(n).drop_last()) == 0);
        assert(digits_value(decimal(n)) == digits_value(decimal(n).drop_last()) * 10 + (
        decimal(n).last() as nat - '0' as nat) as nat);
    }
}

proof fn lemma_digits_value_zero_padded(n: nat, w: nat)
    ensures
        digits_value(zero_padded(n, w)) == n,
{
    lemma_digits_value_decimal(n);
    let d = decimal(n);
    if d.len() < w {
        lemma_digits_value_padded((w - d.len()) as nat, d);
    }
}

/// Chapter labels are unique: two different chapters of `SUMMARY.md` never
/// share a Typst label, so every cross-reference names exactly one chapter.
pub proof fn law_chapter_labels_unique(es: Seq<EntryM>, a: int, b: int)
    requires
        0 <= a < b < es.len(),
        es[a] is Chapter,
        es[b] is Chapter,
    ensures
        labelled(es)[a]->label != labelled(es)[b]->label,
{
    lemma_chapters_before_mono(es, a, b);
    let ka = chapters_before(es, a);
    let kb = chapters_before(es, b);
    lemma_digits_value_zero_padded(ka, 3);
    lemma_digits_value_zero_padded(kb, 3);
    let la = chapter_label(ka);
    let lb = chapter_label(kb);
    if la == lb {
        reveal_strlit("chapter-");
        assert(la.subrange(8, la.len() as int) =~= zero_padded(ka, 3));
        assert(lb.subrange(8, lb.len() as int) =~= zero_padded(kb, 3));
    }
}

/// Number of entries from `i` on that are chapters, and that are parts.
pub open spec fn kind_counts(es: Seq<EntryM>) -> (nat, nat)
    decreases es.len(),
{
    if es.len() == 0 {
        (0, 0)
    } else {
        let (c, p) = kind_counts(es.drop_last());
        (c + if es.last() is Chapter {
            1nat
        } else {
            0nat
        }, p + if es.last() is Part {
            1nat
        } else {
            0nat
        })
    }
}

/// Counts the chapters and the parts of the entries.
pub fn count_entries(entries: &Vec<SummaryEntry>) -> (r: (usize, usize))
    ensures
        (r.0 as nat, r.1 as nat) == kind_counts(entries_model(entries@)),
{
    let ghost es = entries_model(entries@);
    let mut c: usize = 0;
    let mut p: usize = 0;
    let mut i: usize = 0;
    proof {
        assert(es.take(0) =~= Seq::<EntryM>::empty());
    }
    while i < entries.len()
        invariant
            i <= entries@.len(),
            es == entries_model(entries@),
            c <= i,
            p <= i,
            (c as nat, p as nat) == kind_counts(es.take(i as int)),
        decreases entries@.len() - i,
    {
        proof {
            assert(es.take(i + 1).drop_last() =~= es.take(i as int));
            assert(es.take(i + 1).last() == entry_model(entries@[i as int]));
        }
        match &entries[i] {
            SummaryEntry::Chapter(_) => {
                c = c + 1;
            },
            SummaryEntry::Part(_) => {
                p = p + 1;
            },
            SummaryEntry::Separator => {},
        }
        i = i + 1;
    }
    proof {
        assert(es.take(entries@.len() as int) =~= es);
    }
    (c, p)
}

/// The label of the chapter whose canonical path is `source` (the last one
/// listed, as a map built from the entries would keep).
pub open spec fn label_of(es: Seq<EntryM>, source: Seq<char>) -> Option<Seq<char>>
    decreases es.len(),
{
    if es.len() == 0 {
        None
    } else {
        match es.last() {
            EntryM::Chapter { title, source: s, depth, label } => if s == source {
                Some(label)
            } else {
                label_of(es.drop_last(), source)
            },
            _ => label_of(es.drop_last(), source),
        }
    }
}

/// Finds the label of the chapter at `source` (see [`label_of`]).
pub fn chapter_label_for(entries: &Vec<SummaryEntry>, source: &str) -> (r: Option<String>)
    ensures
        match r {
            Some(l) => label_of(entries_model(entries@), source@) == Some(l@),
            None => label_of(entries_model(entries@), source@) is None,
        },
{
    let ghost es = entries_model(entries@);
    let sc = chars_of(source);
    let mut j: usize = entries.len();
    proof {
        assert(es.take(j as int) =~= es);
    }
    while j > 0
        invariant
            j <= entries@.len(),
            es == entries_model(entries@),
            sc@ == source@,
            label_of(es, source@) == label_of(es.take(j as int), source@),
        decreases j,
    {
        proof {
            assert(es.take(j as int).drop_last() =~= es.take(j - 1));
            assert(es.take(j as int).last() == entry_model(entries@[j - 1]));
        }
        match &entries[j - 1] {
            SummaryEntry::Chapter(c) => {
                let cs = chars_of(c.source.as_str());
                if eq_chars(cs.as_slice(), sc.as_slice()) {
                    return Some(c.label.clone());
                }
            },
            _ => {},
        }
        j = j - 1;
    }
    None
}

/// The canonical paths of the chapters among the entries, in order.
pub open spec fn chapter_sources(es: Seq<EntryM>) -> Seq<Seq<char>>
    decreases es.len(),
{
    if es.len() == 0 {
        seq![]
    } else {
        match es.last() {
            EntryM::Chapter { title, source, depth, label } => chapter_sources(es.drop_last()).push(
                source,
            ),
            _ => chapter_sources(es.drop_last()),
        }
    }
}

proof fn lemma_chapter_sources_push(es: Seq<EntryM>, x: EntryM)
    ensures
        chapter_sources(es.push(x)) == match x {
            EntryM::Chapter { title, source, depth, label } => chapter_sources(es).push(source),
            _ => chapter_sources(es),
        },
{
    assert(es.push(x).drop_last() =~= es);
}

proof fn lemma_summary_from_distinct(
    ls: Seq<Seq<char>>,
    i: int,
    seen_part: bool,
    seen: Seq<Seq<char>>,
    acc: Seq<EntryM>,
    cx: SummaryContext,
)
    requires
        summary_from(ls, i, seen_part, seen, acc, cx) is Ok,
        seen == chapter_sources(acc),
        seen.no_duplicates(),
    ensures
        chapter_sources(summary_from(ls, i, seen_part, seen, acc, cx)->Ok_0).no_duplicates(),
    decreases ls.len() - i,
{
    if i < 0 || i >= ls.len() {
    } else {
        let raw = ls[i];
        let t = trim(raw);
        if t.len() == 0 || t == "# Summary"@ {
            lemma_summary_from_distinct(ls, i + 1, seen_part, seen, acc, cx);
        } else if t == "---"@ {
            lemma_chapter_sources_push(acc, EntryM::Separator);
            lemma_summary_from_distinct(ls, i + 1, seen_part, seen, acc.push(EntryM::Separator), cx);
        } else if starts_with(t, "# "@) {
            let title = trim(t.subrange(2, t.len() as int));
            if title.len() != 0 {
                lemma_chapter_sources_push(acc, EntryM::Part(title));
                lemma_summary_from_distinct(ls, i + 1, true, seen, acc.push(EntryM::Part(title)), cx);
            }
        } else {
            match summary_link(raw) {
                None => {},
                Some((title, target, depth)) => if !remote(target) {
                    match lookup(cx.resolved, before_hash(target)) {
                        Some(Ok(path)) => if path_within(path, cx.project_root) && path_within(
                            path,
                            cx.source_dir,
                        ) && !seen.contains(path) {
                            let entry = EntryM::Chapter {
                                title,
                                source: path,
                                depth: if seen_part {
                                    depth
                                } else {
                                    0
                                },
                                label: seq![],
                            };
                            lemma_chapter_sources_push(acc, entry);
                            assert(seen.push(path).no_duplicates()) by {
                                assert forall|a: int, b: int|
                                    0 <= a < b < seen.push(path).len() implies seen.push(path)[a]
                                    != seen.push(path)[b] by {
                                    if b == seen.len() {
                                        assert(seen.push(path)[a] == seen[a]);
                                        assert(seen.contains(seen[a]));
                                    } else {
                                        assert(seen.push(path)[a] == seen[a]);
                                        assert(seen.push(path)[b] == seen[b]);
                                    }
                                }
                            }
                            lemma_summary_from_distinct(
                                ls,
                                i + 1,
                                seen_part,
                                seen.push(path),
                                acc.push(entry),
                                cx,
                            );
                        },
                        _ => {},
                    }
                },
            }
        }
    }
}

/// Every chapter of `SUMMARY.md` is a different file: the canonical paths
/// of the chapters that parsing accepts are pairwise distinct.
pub proof fn law_summary_chapters_are_distinct(src: Seq<char>, cx: SummaryContext)
    requires
        summary_spec(src, cx) is Ok,
    ensures
        chapter_sources(summary_spec(src, cx)->Ok_0).no_duplicates(),
{
    assert(chapter_sources(Seq::<EntryM>::empty()) == Seq::<Seq<char>>::empty());
    lemma_summary_from_distinct(lines(src), 0, false, seq![], seq![], cx);
}

/// A chapter entry lies under both the project root and the source
/// directory and has no label yet; other entries are not constrained.
pub open spec fn placed(e: EntryM, cx: SummaryContext) -> bool {
    e matches EntryM::Chapter { title, source, depth, label } ==> path_within(source, cx.project_root)
        && path_within(source, cx.source_dir) && label.len() == 0 && title.len() > 0
}

proof fn lemma_summary_from_placed(
    ls: Seq<Seq<char>>,
    i: int,
    seen_part: bool,
    seen: Seq<Seq<char>>,
    acc: Seq<EntryM>,
    cx: SummaryContext,
)
    requires
        summary_from(ls, i, seen_part, seen, acc, cx) is Ok,
        forall|k: int| 0 <= k < acc.len() ==> placed(#[trigger] acc[k], cx),
    ensures
        has_chapter(summary_from(ls, i, seen_part, seen, acc, cx)->Ok_0),
        forall|k: int|
            0 <= k < summary_from(ls, i, seen_part, seen, acc, cx)->Ok_0.len() ==> placed(
                #[trigger] summary_from(ls, i, seen_part, seen, acc, cx)->Ok_0[k],
                cx,
            ),
    decreases ls.len() - i,
{
    if i < 0 || i >= ls.len() {
    } else {
        let raw = ls[i];
        let t = trim(raw);
        if t.len() == 0 || t == "# Summary"@ {
            lemma_summary_from_placed(ls, i + 1, seen_part, seen, acc, cx);
        } else if t == "---"@ {
            let a2 = acc.push(EntryM::Separator);
            assert forall|k: int| 0 <= k < a2.len() implies placed(#[trigger] a2[k], cx) by {
                if k < acc.len() {
                    assert(a2[k] == acc[k]);
                }
            }
            lemma_summary_from_placed(ls, i + 1, seen_part, seen, a2, cx);
        } else if starts_with(t, "# "@) {
            let title = trim(t.subrange(2, t.len() as int));
            if title.len() != 0 {
                let a2 = acc.push(EntryM::Part(title));
                assert forall|k: int| 0 <= k < a2.len() implies placed(#[trigger] a2[k], cx) by {
                    if k < acc.len() {
                        assert(a2[k] == acc[k]);
                    }
                }
                lemma_summary_from_placed(ls, i + 1, true, seen, a2, cx);
            }
        } else {
            match summary_link(raw) {
                None => {},
                Some((title, target, depth)) => if !remote(target) {
                    match lookup(cx.resolved, before_hash(target)) {
                        Some(Ok(path)) => if path_within(path, cx.project_root) && path_within(
                            path,
                            cx.source_dir,
                        ) && !seen.contains(path) {
                            let entry = EntryM::Chapter {
                                title,
                                source: path,
                                depth: if seen_part {
                                    depth
                                } else {
                                    0
                                },
                                label: seq![],
                            };
                            let a2 = acc.push(entry);
                            assert forall|k: int| 0 <= k < a2.len() implies placed(#[trigger] a2[k], cx) by {
                                if k < acc.len() {
                                    assert(a2[k] == acc[k]);
                                }
                            }
                            lemma_summary_from_placed(ls, i + 1, seen_part, seen.push(path), a2, cx);
                        },
                        _ => {},
                    }
                },
            }
        }
    }
}

/// An accepted `SUMMARY.md` lists at least one chapter, and every chapter
/// has a title, lies under the project root and the source directory, and
/// is not yet labelled.
pub proof fn law_summary_chapters_are_placed(src: Seq<char>, cx: SummaryContext)
    requires
        summary_spec(src, cx) is Ok,
    ensures
        has_chapter(summary_spec(src, cx)->Ok_0),
        forall|k: int|
            0 <= k < summary_spec(src, cx)->Ok_0.len() ==> placed(
                #[trigger] summary_spec(src, cx)->Ok_0[k],
                cx,
            ),
{
    lemma_summary_from_placed(lines(src), 0, false, seq![], seq![], cx);
}

proof fn lemma_indent_runs(line: Seq<char>, n: int, i: int)
    requires
        0 <= i <= n < line.len(),
        forall|k: int| 0 <= k < n ==> line[k] == ' ',
        line[n] == '*' || line[n] == '-',
    ensures
        run_of(line, i, ' ') == n - i,
        crate::text::ws_run_end(line, i) == n,
    decreases n - i,
{
    if i < n {
        lemma_indent_runs(line, n, i + 1);
    }
}

/// A list item may use `* ` as well as `- `: with any indentation and any
/// text after the marker, a `* ` line reads exactly as the same line with
/// `- `, and in particular is a chapter link whenever the `- ` line is.
pub proof fn law_star_marker_reads_as_dash(indent: nat, rest: Seq<char>)
    ensures
        summary_link(Seq::new(indent, |k: int| ' ') + "* "@ + rest) == summary_link(
            Seq::new(indent, |k: int| ' ') + "- "@ + rest,
        ),
{
    reveal_strlit("* ");
    reveal_strlit("- ");
    let sp = Seq::new(indent, |k: int| ' ');
    let a = sp + "* "@ + rest;
    let b = sp + "- "@ + rest;
    let n = indent as int;
    assert(a[n] == '*');
    assert(b[n] == '-');
    lemma_indent_runs(a, n, 0);
    lemma_indent_runs(b, n, 0);
    let ta = trim_start(a);
    let tb = trim_start(b);
    assert(ta =~= "* "@ + rest);
    assert(tb =~= "- "@ + rest);
    assert(ta.subrange(0, 2) =~= "* "@);
    assert(tb.subrange(0, 2) =~= "- "@);
    assert(!starts_with(ta, "- "@)) by {
        assert(ta.subrange(0, 2)[0] == '*');
    }
    assert(ta.subrange(2, ta.len() as int) =~= rest);
    assert(tb.subrange(2, tb.len() as int) =~= rest);
}

proof fn lemma_find_first(s: Seq<char>, from: int, k: int, pat: Seq<char>)
    requires
        0 <= from <= k,
        matches_at(s, k, pat),
        forall|m: int| from <= m < k ==> !#[trigger] matches_at(s, m, pat),
    ensures
        find_from(s, from, pat) == Some(k),
    decreases k - from,
{
    if from < k {
        lemma_find_first(s, from + 1, k, pat);
    }
}

/// A chapter line `- [title](target)` (or with `* `), indented by any
/// number of spaces, is read as that title and target at depth half the
/// indentation, where title and target carry no surrounding whitespace, the
/// title holds no `]`, and the target does not start or end with `<` or `>`.
pub proof fn law_chapter_line_is_read(indent: nat, title: Seq<char>, target: Seq<char>)
    requires
        title.len() > 0,
        trim(title) == title,
        !title.contains(']'),
        target.len() > 0,
        trim(target) == target,
        target[0] != '<' && target[0] != '>',
        target.last() != '<' && target.last() != '>',
    ensures
        summary_link(Seq::new(indent, |k: int| ' ') + "- "@ + ("["@ + title + "]("@ + target + ")"@))
            == Some((title, target, indent / 2)),
        summary_link(Seq::new(indent, |k: int| ' ') + "* "@ + ("["@ + title + "]("@ + target + ")"@))
            == Some((title, target, indent / 2)),
{
    reveal_strlit("- ");
    reveal_strlit("[");
    reveal_strlit("](");
    reveal_strlit(")");
    let sp = Seq::new(indent, |k: int| ' ');
    let body = "["@ + title + "]("@ + target + ")"@;
    let line = sp + "- "@ + body;
    let n = indent as int;
    assert(line[n] == '-');
    lemma_indent_runs(line, n, 0);
    let t = trim_start(line);
    assert(t =~= "- "@ + body);
    assert(t.subrange(0, 2) =~= "- "@);
    assert(t.subrange(2, t.len() as int) =~= body);
    assert(body.subrange(0, 1) =~= "["@);
    let le: int = title.len() as int + 1;
    assert(body.subrange(le, le + 2) =~= "]("@);
    assert forall|m: int| 0 <= m < le implies !#[trigger] matches_at(body, m, "]("@) by {
        if matches_at(body, m, "]("@) {
            assert(body.subrange(m, m + 2)[0] == body[m]);
            if m == 0 {
                assert(body[0] == '[');
            } else {
                assert(body[m] == title[m - 1]);
                assert(title.contains(title[m - 1]));
            }
        }
    }
    lemma_find_first(body, 0, le, "]("@);
    let close: int = body.len() - 1;
    assert(body.subrange(close, close + 1) =~= ")"@);
    assert(rfind(body, ")"@) == Some(close));
    assert(body.subrange(1, le) =~= title);
    assert(body.subrange(le + 2, close) =~= target);
    assert(run_of(target, 0, '<') == 0);
    assert(crate::blocks::back_run(target, target.len() as int, '<') == 0);
    assert(crate::blocks::trim_start_char(target, '<') =~= target);
    assert(crate::blocks::trim_end_char(target, '<') =~= target);
    assert(run_of(target, 0, '>') == 0);
    assert(crate::blocks::back_run(target, target.len() as int, '>') == 0);
    assert(crate::blocks::trim_start_char(target, '>') =~= target);
    assert(crate::blocks::trim_end_char(target, '>') =~= target);
    law_star_marker_reads_as_dash(indent, body);
}

} // verus!
