//! The generated `book.typ`: the preamble from `book.toml`, then each entry
//! of `SUMMARY.md` in order, chapters with their rendered bodies.
use vstd::prelude::*;

use crate::book::RenderError;
use crate::config::{BookConfig, BookConfigM, config_model};
use crate::document::{language_parts, split_language_region};
use crate::summary::{EntryM, SummaryEntry, entries_model, entry_model};
use crate::text::{chars_of, decimal, decimal_wide, join, join_exec, push_all, push_str, string_of};
use crate::typst::{escape_typst, escape_typst_string};

verus! {

/// The text before the first entry: the template import and the book's
/// metadata.
pub open spec fn preamble(c: BookConfigM) -> Result<Seq<char>, Seq<char>> {
    match language_parts(c.language) {
        Err(e) => Err(e),
        Ok((lang, region)) => Ok(
            "#import \"template.typ\": *\n\n#show: book.with(\n  title: [#text(\""@
                + escape_typst(c.title) + "\")],\n  subtitle: [#text(\""@ + escape_typst(
                c.description,
            ) + "\")],\n  authors: [#text(\""@ + escape_typst(join(c.authors, ", "@))
                + "\")],\n  language: \""@ + escape_typst(lang) + "\",\n"@ + match region {
                Some(r) => "  region: \""@ + escape_typst(r) + "\",\n"@,
                None => "  region: none,\n"@,
            } + ")\n\n"@,
        ),
    }
}

/// The text of one entry; `body` is the rendered chapter.
pub open spec fn entry_text(e: EntryM, body: Seq<char>) -> Seq<char> {
    match e {
        EntryM::Part(t) => "#part([#text(\""@ + escape_typst(t) + "\")])\n\n"@,
        EntryM::Separator => "#thematic-break()\n\n"@,
        EntryM::Chapter { title, source, depth, label } => "#chapter([#text(\""@ + escape_typst(
            title,
        ) + "\")], level: "@ + decimal(depth + 2) + ") <"@ + label + ">\n"@ + body + "\n"@,
    }
}

/// The entries' text in order, entry `k` with `bodies[k]`.
pub open spec fn entries_text(es: Seq<EntryM>, bodies: Seq<Seq<char>>) -> Seq<char>
    decreases es.len(),
{
    if es.len() == 0 {
        seq![]
    } else {
        entries_text(es.drop_last(), bodies) + entry_text(es.last(), bodies[es.len() - 1])
    }
}

/// The whole generated `book.typ`.
pub open spec fn book_text(c: BookConfigM, es: Seq<EntryM>, bodies: Seq<Seq<char>>) -> Result<
    Seq<char>,
    Seq<char>,
> {
    match preamble(c) {
        Err(e) => Err(e),
        Ok(p) => Ok(p + entries_text(es, bodies)),
    }
}

fn push_escaped(out: &mut Vec<char>, s: &str)
    ensures
        final(out)@ == old(out)@ + escape_typst(s@),
{
    let c = chars_of(s);
    let e = escape_typst_string(c.as_slice());
    push_all(out, e.as_slice());
}

/// Writes the preamble (see [`preamble`]).
pub fn render_preamble(config: &BookConfig) -> (r: Result<Vec<char>, RenderError>)
    ensures
        match r {
            Ok(v) => preamble(config_model(*config)) == Ok::<Seq<char>, Seq<char>>(v@),
            Err(e) => preamble(config_model(*config)) == Err::<Seq<char>, Seq<char>>(e@),
        },
{
    let lc = chars_of(config.language.as_str());
    let (lang, region) = match split_language_region(lc.as_slice()) {
        Err(e) => {
            return Err(e);
        },
        Ok(x) => x,
    };
    let mut names: Vec<Vec<char>> = Vec::new();
    let mut k: usize = 0;
    while k < config.authors.len()
        invariant
            k <= config.authors@.len(),
            names@.len() == k,
            forall|j: int| 0 <= j < k ==> #[trigger] names@[j]@ == config.authors@[j]@,
        decreases config.authors@.len() - k,
    {
        names.push(chars_of(config.authors[k].as_str()));
        k = k + 1;
    }
    proof {
        assert(names@.map_values(|p: Vec<char>| p@) =~= config_model(*config).authors);
    }
    let sep = chars_of(", ");
    let joined = join_exec(&names, sep.as_slice());
    let mut out: Vec<char> = Vec::new();
    push_str(&mut out, "#import \"template.typ\": *\n\n#show: book.with(\n  title: [#text(\"");
    push_escaped(&mut out, config.title.as_str());
    push_str(&mut out, "\")],\n  subtitle: [#text(\"");
    push_escaped(&mut out, config.description.as_str());
    push_str(&mut out, "\")],\n  authors: [#text(\"");
    let ej = escape_typst_string(joined.as_slice());
    push_all(&mut out, ej.as_slice());
    push_str(&mut out, "\")],\n  language: \"");
    let el = escape_typst_string(lang.as_slice());
    push_all(&mut out, el.as_slice());
    push_str(&mut out, "\",\n");
    match region {
        Some(g) => {
            push_str(&mut out, "  region: \"");
            let eg = escape_typst_string(g.as_slice());
            push_all(&mut out, eg.as_slice());
            push_str(&mut out, "\",\n");
        },
        None => {
            push_str(&mut out, "  region: none,\n");
        },
    }
    push_str(&mut out, ")\n\n");
    proof {
        let c = config_model(*config);
        assert(out@ =~= preamble(c)->Ok_0);
    }
    Ok(out)
}

/// Writes one entry (see [`entry_text`]).
pub fn render_entry(entry: &SummaryEntry, body: &[char]) -> (r: Vec<char>)
    ensures
        r@ == entry_text(entry_model(*entry), body@),
{
    let mut out: Vec<char> = Vec::new();
    match entry {
        SummaryEntry::Part(t) => {
            push_str(&mut out, "#part([#text(\"");
            push_escaped(&mut out, t.as_str());
            push_str(&mut out, "\")])\n\n");
        },
        SummaryEntry::Separator => {
            push_str(&mut out, "#thematic-break()\n\n");
        },
        SummaryEntry::Chapter(c) => {
            push_str(&mut out, "#chapter([#text(\"");
            push_escaped(&mut out, c.title.as_str());
            push_str(&mut out, "\")], level: ");
            let d = decimal_wide((c.depth as u128) + 2);
            push_all(&mut out, d.as_slice());
            push_str(&mut out, ") <");
            push_str(&mut out, c.label.as_str());
            push_str(&mut out, ">\n");
            push_all(&mut out, body);
            push_str(&mut out, "\n");
        },
    }
    proof {
        assert(out@ =~= entry_text(entry_model(*entry), body@));
    }
    out
}

/// Writes the whole `book.typ` (see [`book_text`]); `bodies[k]` is the
/// rendered body of entry `k` (empty for parts and separators).
pub fn assemble_book(config: &BookConfig, entries: &Vec<SummaryEntry>, bodies: &Vec<Vec<char>>) -> (r:
    Result<String, RenderError>)
    requires
        bodies@.len() == entries@.len(),
    ensures
        match r {
            Ok(v) => book_text(
                config_model(*config),
                entries_model(entries@),
                Seq::new(bodies@.len(), |k: int| bodies@[k]@),
            ) == Ok::<Seq<char>, Seq<char>>(v@),
            Err(e) => book_text(
                config_model(*config),
                entries_model(entries@),
                Seq::new(bodies@.len(), |k: int| bodies@[k]@),
            ) == Err::<Seq<char>, Seq<char>>(e@),
        },
{
    let ghost es = entries_model(entries@);
    let ghost bs = Seq::new(bodies@.len(), |k: int| bodies@[k]@);
    let mut out = match render_preamble(config) {
        Err(e) => {
            return Err(e);
        },
        Ok(p) => p,
    };
    let ghost pre = out@;
    let mut i: usize = 0;
    proof {
        assert(es.take(0) =~= Seq::<EntryM>::empty());
    }
    while i < entries.len()
        invariant
            i <= entries@.len(),
            bodies@.len() == entries@.len(),
            es == entries_model(entries@),
            bs == Seq::new(bodies@.len(), |k: int| bodies@[k]@),
            out@ == pre + entries_text(es.take(i as int), bs),
        decreases entries@.len() - i,
    {
        let piece = render_entry(&entries[i], bodies[i].as_slice());
        proof {
            assert(es.take(i + 1).drop_last() =~= es.take(i as int));
            assert(es.take(i + 1).last() == entry_model(entries@[i as int]));
            assert(bs[i as int] == bodies@[i as int]@);
        }
        push_all(&mut out, piece.as_slice());
        proof {
            assert(out@ =~= pre + entries_text(es.take(i + 1), bs));
        }
        i = i + 1;
    }
    proof {
        assert(es.take(entries@.len() as int) =~= es);
    }
    Ok(string_of(out.as_slice()))
}

} // verus!
