//! Command-line flags of the renderer and the pack builder: each flag takes
//! one path, at most once; `-h` or `--help` asks for help.
use vstd::prelude::*;

use crate::book::{RenderError, RenderRequest};
use crate::pack::PackError;
use crate::text::{
    chars_of, debug_quoted, debug_str, eq_chars, push_all, push_str, starts_with,
    starts_with_exec, string_of,
};

verus! {

/// Index of `a` in `flags`.
pub open spec fn flag_index(flags: Seq<Seq<char>>, a: Seq<char>, k: int) -> Option<int>
    decreases flags.len() - k,
{
    if k < 0 || k >= flags.len() {
        None
    } else if flags[k] == a {
        Some(k)
    } else {
        flag_index(flags, a, k + 1)
    }
}

/// The flags' values after reading `args` from `i` on: `Ok(None)` when help
/// was asked for.
pub open spec fn flags_from(
    args: Seq<Seq<char>>,
    i: int,
    flags: Seq<Seq<char>>,
    vals: Seq<Option<Seq<char>>>,
) -> Result<Option<Seq<Option<Seq<char>>>>, Seq<char>>
    decreases args.len() - i,
{
    if i < 0 || i >= args.len() {
        Ok(Some(vals))
    } else {
        let a = args[i];
        if a == "-h"@ || a == "--help"@ {
            Ok(None)
        } else {
            match flag_index(flags, a, 0) {
                None => Err("unknown argument "@ + debug_quoted(a) + "; use --help"@),
                Some(f) => if i + 1 >= args.len() {
                    Err(a + " requires a path"@)
                } else if starts_with(args[i + 1], "-"@) {
                    Err(a + " requires a path, found "@ + debug_quoted(args[i + 1]))
                } else if 0 <= f < vals.len() && vals[f] is Some {
                    Err(a + " may only be supplied once"@)
                } else {
                    flags_from(args, i + 2, flags, vals.update(f, Some(args[i + 1])))
                },
            }
        }
    }
}

pub open spec fn args_view(v: Seq<String>) -> Seq<Seq<char>> {
    Seq::new(v.len(), |k: int| v[k]@)
}

pub open spec fn vals_view(v: Seq<Option<Vec<char>>>) -> Seq<Option<Seq<char>>> {
    Seq::new(
        v.len(),
        |k: int|
            match v[k] {
                Some(x) => Some(x@),
                None => None,
            },
    )
}

fn flag_index_exec(flags: &Vec<Vec<char>>, a: &[char]) -> (r: Option<usize>)
    ensures
        match r {
            Some(f) => flag_index(flags@.map_values(|p: Vec<char>| p@), a@, 0) == Some(f as int)
                && f < flags@.len(),
            None => flag_index(flags@.map_values(|p: Vec<char>| p@), a@, 0) is None,
        },
{
    let ghost fv = flags@.map_values(|p: Vec<char>| p@);
    let mut k: usize = 0;
    while k < flags.len()
        invariant
            k <= flags@.len(),
            fv == flags@.map_values(|p: Vec<char>| p@),
            flag_index(fv, a@, 0) == flag_index(fv, a@, k as int),
        decreases flags@.len() - k,
    {
        proof {
            assert(fv[k as int] == flags@[k as int]@);
        }
        if eq_chars(flags[k].as_slice(), a) {
            return Some(k);
        }
        k = k + 1;
    }
    None
}

fn message(parts_a: &[char], b: &str) -> (r: Vec<char>)
    ensures
        r@ == parts_a@ + b@,
{
    let mut out: Vec<char> = Vec::new();
    push_all(&mut out, parts_a);
    push_str(&mut out, b);
    out
}

/// Reads flags that each take one path (see [`flags_from`]).
pub fn parse_flags(args: &Vec<String>, flags: &Vec<Vec<char>>) -> (r: Result<
    Option<Vec<Option<Vec<char>>>>,
    Vec<char>,
>)
    ensures
        match r {
            Ok(Some(v)) => flags_from(
                args_view(args@),
                0,
                flags@.map_values(|p: Vec<char>| p@),
                Seq::new(flags@.len(), |k: int| None),
            ) == Ok::<Option<Seq<Option<Seq<char>>>>, Seq<char>>(Some(vals_view(v@))),
            Ok(None) => flags_from(
                args_view(args@),
                0,
                flags@.map_values(|p: Vec<char>| p@),
                Seq::new(flags@.len(), |k: int| None),
            ) == Ok::<Option<Seq<Option<Seq<char>>>>, Seq<char>>(None),
            Err(e) => flags_from(
                args_view(args@),
                0,
                flags@.map_values(|p: Vec<char>| p@),
                Seq::new(flags@.len(), |k: int| None),
            ) == Err::<Option<Seq<Option<Seq<char>>>>, Seq<char>>(e@),
        },
        r matches Ok(Some(v)) ==> v@.len() == flags@.len(),
{
    let ghost av = args_view(args@);
    let ghost fv = flags@.map_values(|p: Vec<char>| p@);
    let mut vals: Vec<Option<Vec<char>>> = Vec::new();
    let mut k: usize = 0;
    while k < flags.len()
        invariant
            k <= flags@.len(),
            vals@.len() == k,
            forall|j: int| 0 <= j < k ==> (#[trigger] vals@[j]) is None,
        decreases flags@.len() - k,
    {
        vals.push(None);
        k = k + 1;
    }
    proof {
        assert(vals_view(vals@) =~= Seq::new(flags@.len(), |k: int| None::<Seq<char>>));
    }
    let h = chars_of("-h");
    let help = chars_of("--help");
    let dash = chars_of("-");
    let mut i: usize = 0;
    while i < args.len()
        invariant
            i <= args@.len(),
            av == args_view(args@),
            fv == flags@.map_values(|p: Vec<char>| p@),
            vals@.len() == flags@.len(),
            h@ == "-h"@,
            help@ == "--help"@,
            dash@ == "-"@,
            flags_from(av, 0, fv, Seq::new(flags@.len(), |k: int| None)) == flags_from(
                av,
                i as int,
                fv,
                vals_view(vals@),
            ),
        decreases args@.len() - i,
    {
        let a = chars_of(args[i].as_str());
        proof {
            assert(av[i as int] == args@[i as int]@);
        }
        if eq_chars(a.as_slice(), h.as_slice()) || eq_chars(a.as_slice(), help.as_slice()) {
            return Ok(None);
        }
        let f = match flag_index_exec(flags, a.as_slice()) {
            None => {
                let mut msg: Vec<char> = Vec::new();
                push_str(&mut msg, "unknown argument ");
                let d = debug_str(a.as_slice());
                push_all(&mut msg, d.as_slice());
                push_str(&mut msg, "; use --help");
                return Err(msg);
            },
            Some(f) => f,
        };
        if i + 1 >= args.len() {
            return Err(message(a.as_slice(), " requires a path"));
        }
        let v = chars_of(args[i + 1].as_str());
        proof {
            assert(av[i + 1] == args@[i + 1]@);
        }
        if starts_with_exec(v.as_slice(), dash.as_slice()) {
            let mut msg = message(a.as_slice(), " requires a path, found ");
            let d = debug_str(v.as_slice());
            push_all(&mut msg, d.as_slice());
            return Err(msg);
        }
        if vals[f].is_some() {
            return Err(message(a.as_slice(), " may only be supplied once"));
        }
        let ghost before = vals_view(vals@);
        vals.set(f, Some(v));
        proof {
            assert(vals_view(vals@) =~= before.update(f as int, Some(av[i + 1])));
        }
        i = i + 2;
    }
    Ok(Some(vals))
}

fn flag_list(names: &[&str]) -> (r: Vec<Vec<char>>)
    ensures
        r@.len() == names@.len(),
        forall|k: int| 0 <= k < names@.len() ==> #[trigger] r@[k]@ == names@[k]@,
{
    let mut out: Vec<Vec<char>> = Vec::new();
    let mut k: usize = 0;
    while k < names.len()
        invariant
            k <= names@.len(),
            out@.len() == k,
            forall|j: int| 0 <= j < k ==> #[trigger] out@[j]@ == names@[j]@,
        decreases names@.len() - k,
    {
        out.push(chars_of(names[k]));
        k = k + 1;
    }
    out
}

/// The renderer's flags.
pub open spec fn render_flags() -> Seq<Seq<char>> {
    seq!["--book"@, "--template"@, "--output-dir"@]
}

/// What the renderer's command line asks for: help (`None`), or the book,
/// template and output directory, each required.
pub open spec fn render_args_spec(args: Seq<Seq<char>>) -> Result<
    Option<(Seq<char>, Seq<char>, Seq<char>)>,
    Seq<char>,
> {
    match flags_from(args, 0, render_flags(), seq![None, None, None]) {
        Err(e) => Err(e),
        Ok(None) => Ok(None),
        Ok(Some(v)) => if v[0] is None {
            Err("missing required --book"@)
        } else if v[1] is None {
            Err("missing required --template"@)
        } else if v[2] is None {
            Err("missing required --output-dir"@)
        } else {
            Ok(Some((v[0]->Some_0, v[1]->Some_0, v[2]->Some_0)))
        },
    }
}

/// Reads the renderer's command line (see [`render_args_spec`]).
pub fn parse_render_arguments(args: &Vec<String>) -> (r: Result<Option<RenderRequest>, RenderError>)
    ensures
        match r {
            Ok(None) => render_args_spec(args_view(args@)) == Ok::<
                Option<(Seq<char>, Seq<char>, Seq<char>)>,
                Seq<char>,
            >(None),
            Ok(Some(q)) => render_args_spec(args_view(args@)) == Ok::<
                Option<(Seq<char>, Seq<char>, Seq<char>)>,
                Seq<char>,
            >(Some((q.book_dir_view(), q.template_path_view(), q.output_dir_view()))),
            Err(e) => render_args_spec(args_view(args@)) == Err::<
                Option<(Seq<char>, Seq<char>, Seq<char>)>,
                Seq<char>,
            >(e@),
        },
{
    let names = ["--book", "--template", "--output-dir"];
    let flags = flag_list(&names);
    proof {
        assert(flags@.map_values(|p: Vec<char>| p@) =~= render_flags());
        assert(Seq::new(flags@.len(), |k: int| None::<Seq<char>>) =~= seq![None::<Seq<char>>, None, None]);
    }
    match parse_flags(args, &flags) {
        Err(e) => Err(RenderError::from_chars(e.as_slice())),
        Ok(None) => Ok(None),
        Ok(Some(v)) => {
            proof {
                assert(vals_view(v@).len() == 3);
            }
            let book = match &v[0] {
                None => {
                    return Err(RenderError::new("missing required --book"));
                },
                Some(b) => string_of(b.as_slice()),
            };
            let template = match &v[1] {
                None => {
                    return Err(RenderError::new("missing required --template"));
                },
                Some(b) => string_of(b.as_slice()),
            };
            let output = match &v[2] {
                None => {
                    return Err(RenderError::new("missing required --output-dir"));
                },
                Some(b) => string_of(b.as_slice()),
            };
            Ok(Some(RenderRequest::new(book.as_str(), template.as_str(), output.as_str())))
        },
    }
}

/// The pack builder's flags.
pub open spec fn pack_flags() -> Seq<Seq<char>> {
    seq!["--manifest"@, "--output-dir"@]
}

/// What the pack builder's command line asks for: help (`None`), or the
/// manifest and output directory, each required.
pub open spec fn pack_args_spec(args: Seq<Seq<char>>) -> Result<Option<(Seq<char>, Seq<char>)>, Seq<char>> {
    match flags_from(args, 0, pack_flags(), seq![None, None]) {
        Err(e) => Err(e),
        Ok(None) => Ok(None),
        Ok(Some(v)) => if v[0] is None {
            Err("missing required --manifest"@)
        } else if v[1] is None {
            Err("missing required --output-dir"@)
        } else {
            Ok(Some((v[0]->Some_0, v[1]->Some_0)))
        },
    }
}

/// Reads the pack builder's command line (see [`pack_args_spec`]).
pub fn parse_pack_arguments(args: &Vec<String>) -> (r: Result<Option<(String, String)>, PackError>)
    ensures
        match r {
            Ok(None) => pack_args_spec(args_view(args@)) == Ok::<
                Option<(Seq<char>, Seq<char>)>,
                Seq<char>,
            >(None),
            Ok(Some((m, o))) => pack_args_spec(args_view(args@)) == Ok::<
                Option<(Seq<char>, Seq<char>)>,
                Seq<char>,
            >(Some((m@, o@))),
            Err(e) => pack_args_spec(args_view(args@)) == Err::<
                Option<(Seq<char>, Seq<char>)>,
                Seq<char>,
            >(e@),
        },
{
    let names = ["--manifest", "--output-dir"];
    let flags = flag_list(&names);
    proof {
        assert(flags@.map_values(|p: Vec<char>| p@) =~= pack_flags());
        assert(Seq::new(flags@.len(), |k: int| None::<Seq<char>>) =~= seq![None::<Seq<char>>, None]);
    }
    match parse_flags(args, &flags) {
        Err(e) => Err(PackError::from_chars(e.as_slice())),
        Ok(None) => Ok(None),
        Ok(Some(v)) => {
            proof {
                assert(vals_view(v@).len() == 2);
            }
            let manifest = match &v[0] {
                None => {
                    return Err(PackError::new("missing required --manifest"));
                },
                Some(b) => string_of(b.as_slice()),
            };
            let output = match &v[1] {
                None => {
                    return Err(PackError::new("missing required --output-dir"));
                },
                Some(b) => string_of(b.as_slice()),
            };
            Ok(Some((manifest, output)))
        },
    }
}

} // verus!
