//! The pack manifest (`chapter-packs/*.toml`) read from its TOML document.
use vstd::prelude::*;

use crate::pack::{
    PackError, commit_id_ok, file_name_check, identifier_ok, is_commit_id, offline_form, pres,
    relative_path_check, strings_of, validate_command_arguments, validate_file_name,
    validate_identifier, validate_relative_path,
};
use crate::text::{
    chars_of, copy_range, debug_quoted, debug_str, decimal, decimal_wide, ends_with, ends_with_exec, eq_chars,
    push_all, push_str, string_of,
};

verus! {

/// A TOML value as the manifest reader sees it. Floats and dates, which no
/// manifest field may hold, are `Other`.
pub enum TomlValue {
    Str(String),
    Integer(i64),
    Boolean(bool),
    Array(Vec<TomlValue>),
    /// A table's keys and values, in the order of `toml`'s map (by key).
    Table(Vec<(String, TomlValue)>),
    Other,
}

/// A file produced by the build and copied into the pack.
pub struct GeneratedFile {
    pub source: String,
    pub destination: String,
}

/// A command run inside the unpacked archive, and the file its output must match.
pub struct VerificationCommand {
    pub argv: Vec<String>,
    pub expected_stdout: Option<String>,
}

/// A validated pack manifest.
pub struct Manifest {
    pub source_commit: String,
    pub archive_name: String,
    pub root_directory: String,
    pub source_paths: Vec<String>,
    pub generated_files: Vec<GeneratedFile>,
    pub commands: Vec<VerificationCommand>,
}

/// The model of a [`Manifest`].
pub struct ManifestM {
    pub source_commit: Seq<char>,
    pub archive_name: Seq<char>,
    pub root_directory: Seq<char>,
    pub source_paths: Seq<Seq<char>>,
    pub generated_files: Seq<(Seq<char>, Seq<char>)>,
    pub commands: Seq<(Seq<Seq<char>>, Option<Seq<char>>)>,
}

pub open spec fn command_model(c: VerificationCommand) -> (Seq<Seq<char>>, Option<Seq<char>>) {
    (
        strings_of(c.argv@),
        match c.expected_stdout {
            Some(p) => Some(p@),
            None => None,
        },
    )
}

pub open spec fn manifest_model(m: Manifest) -> ManifestM {
    ManifestM {
        source_commit: m.source_commit@,
        archive_name: m.archive_name@,
        root_directory: m.root_directory@,
        source_paths: strings_of(m.source_paths@),
        generated_files: Seq::new(
            m.generated_files@.len(),
            |k: int| (m.generated_files@[k].source@, m.generated_files@[k].destination@),
        ),
        commands: Seq::new(m.commands@.len(), |k: int| command_model(m.commands@[k])),
    }
}

/// The value of `key` in a table.
pub open spec fn table_get(t: Seq<(String, TomlValue)>, key: Seq<char>) -> Option<TomlValue>
    decreases t.len(),
{
    if t.len() == 0 {
        None
    } else if t[0].0@ == key {
        Some(t[0].1)
    } else {
        table_get(t.drop_first(), key)
    }
}

/// Refuses the first key of `t` that `allowed` does not list.
pub open spec fn keys_check(t: Seq<(String, TomlValue)>, allowed: Seq<Seq<char>>, context: Seq<char>) -> Result<
    (),
    Seq<char>,
>
    decreases t.len(),
{
    if t.len() == 0 {
        Ok(())
    } else if !allowed.contains(t[0].0@) {
        Err("unsupported key "@ + debug_quoted(t[0].0@) + " in "@ + context)
    } else {
        keys_check(t.drop_first(), allowed, context)
    }
}

pub open spec fn req_string(t: Seq<(String, TomlValue)>, key: Seq<char>) -> Result<Seq<char>, Seq<char>> {
    match table_get(t, key) {
        Some(TomlValue::Str(s)) => Ok(s@),
        _ => Err(key + " must be a string"@),
    }
}

pub open spec fn req_integer(t: Seq<(String, TomlValue)>, key: Seq<char>) -> Result<i64, Seq<char>> {
    match table_get(t, key) {
        Some(TomlValue::Integer(i)) => Ok(i),
        _ => Err(key + " must be an integer"@),
    }
}

pub open spec fn req_array(t: Seq<(String, TomlValue)>, key: Seq<char>) -> Result<Seq<TomlValue>, Seq<char>> {
    match table_get(t, key) {
        Some(TomlValue::Array(v)) => Ok(v@),
        _ => Err(key + " must be an array"@),
    }
}

pub open spec fn all_strings(v: Seq<TomlValue>) -> bool {
    forall|k: int| 0 <= k < v.len() ==> (#[trigger] v[k]) is Str
}

pub open spec fn string_values(v: Seq<TomlValue>) -> Seq<Seq<char>> {
    Seq::new(v.len(), |k: int| v[k]->Str_0@)
}

pub open spec fn req_string_array(t: Seq<(String, TomlValue)>, key: Seq<char>) -> Result<
    Seq<Seq<char>>,
    Seq<char>,
> {
    match req_array(t, key) {
        Err(e) => Err(e),
        Ok(v) => if all_strings(v) {
            Ok(string_values(v))
        } else {
            Err(key + " entries must be strings"@)
        },
    }
}

/// Refuses the first path that repeats an earlier one.
pub open spec fn unique_check(paths: Seq<Seq<char>>, context: Seq<char>) -> Result<(), Seq<char>>
    decreases paths.len(),
{
    if paths.len() == 0 {
        Ok(())
    } else {
        match unique_check(paths.drop_last(), context) {
            Err(e) => Err(e),
            Ok(()) => if paths.drop_last().contains(paths.last()) {
                Err("duplicate path in "@ + context + ": "@ + paths.last())
            } else {
                Ok(())
            },
        }
    }
}

/// Checks paths one by one in order.
pub open spec fn paths_check(paths: Seq<Seq<char>>, field: Seq<char>) -> Result<(), Seq<char>>
    decreases paths.len(),
{
    if paths.len() == 0 {
        Ok(())
    } else {
        match paths_check(paths.drop_last(), field) {
            Err(e) => Err(e),
            Ok(()) => relative_path_check(paths.last(), field),
        }
    }
}

pub open spec fn index_label(name: Seq<char>, index: nat) -> Seq<char> {
    name + "["@ + decimal(index) + "]"@
}

/// One entry of `generated_files`.
pub open spec fn generated_entry(v: TomlValue, index: nat) -> Result<(Seq<char>, Seq<char>), Seq<char>> {
    match v {
        TomlValue::Table(t) => match keys_check(
            t@,
            seq!["source"@, "destination"@],
            index_label("generated_files"@, index),
        ) {
            Err(e) => Err(e),
            Ok(()) => match req_string(t@, "source"@) {
                Err(e) => Err(e),
                Ok(source) => match req_string(t@, "destination"@) {
                    Err(e) => Err(e),
                    Ok(destination) => match relative_path_check(source, "generated file source"@) {
                        Err(e) => Err(e),
                        Ok(()) => match relative_path_check(
                            destination,
                            "generated file destination"@,
                        ) {
                            Err(e) => Err(e),
                            Ok(()) => Ok((source, destination)),
                        },
                    },
                },
            },
        },
        _ => Err(index_label("generated_files"@, index) + " must be a table"@),
    }
}

pub open spec fn generated_entries(v: Seq<TomlValue>) -> Result<Seq<(Seq<char>, Seq<char>)>, Seq<char>>
    decreases v.len(),
{
    if v.len() == 0 {
        Ok(seq![])
    } else {
        match generated_entries(v.drop_last()) {
            Err(e) => Err(e),
            Ok(a) => match generated_entry(v.last(), (v.len() - 1) as nat) {
                Err(e) => Err(e),
                Ok(x) => Ok(a.push(x)),
            },
        }
    }
}

/// One entry of `commands`.
pub open spec fn command_entry(v: TomlValue, index: nat) -> Result<
    (Seq<Seq<char>>, Option<Seq<char>>),
    Seq<char>,
> {
    match v {
        TomlValue::Table(t) => match keys_check(
            t@,
            seq!["argv"@, "expected_stdout"@],
            index_label("commands"@, index),
        ) {
            Err(e) => Err(e),
            Ok(()) => match req_string_array(t@, "argv"@) {
                Err(e) => Err(e),
                Ok(argv) => if argv.len() == 0 || argv[0] != "cargo"@ {
                    Err(index_label("commands"@, index) + " must invoke cargo directly"@)
                } else if exists|k: int| 0 <= k < argv.len() && (#[trigger] argv[k]).len() == 0 {
                    Err(index_label("commands"@, index) + " arguments must not be empty"@)
                } else if !offline_form(argv) {
                    Err(index_label("commands"@, index) + " is not a supported offline form"@)
                } else {
                    match table_get(t@, "expected_stdout"@) {
                        None => Ok((argv, None)),
                        Some(TomlValue::Str(p)) => match relative_path_check(p@, "expected_stdout"@) {
                            Err(e) => Err(e),
                            Ok(()) => Ok((argv, Some(p@))),
                        },
                        Some(_) => Err("expected_stdout must be a string"@),
                    }
                },
            },
        },
        _ => Err(index_label("commands"@, index) + " must be a table"@),
    }
}

pub open spec fn command_entries(v: Seq<TomlValue>) -> Result<
    Seq<(Seq<Seq<char>>, Option<Seq<char>>)>,
    Seq<char>,
>
    decreases v.len(),
{
    if v.len() == 0 {
        Ok(seq![])
    } else {
        match command_entries(v.drop_last()) {
            Err(e) => Err(e),
            Ok(a) => match command_entry(v.last(), (v.len() - 1) as nat) {
                Err(e) => Err(e),
                Ok(x) => Ok(a.push(x)),
            },
        }
    }
}

/// The keys a manifest may have.
pub open spec fn manifest_keys() -> Seq<Seq<char>> {
    seq![
        "schema"@,
        "chapter"@,
        "source_commit"@,
        "archive_name"@,
        "root_directory"@,
        "source_paths"@,
        "generated_files"@,
        "commands"@,
    ]
}

pub open spec fn generated_part(t: Seq<(String, TomlValue)>) -> Result<
    Seq<(Seq<char>, Seq<char>)>,
    Seq<char>,
> {
    match req_array(t, "generated_files"@) {
        Err(e) => Err(e),
        Ok(v) => match generated_entries(v) {
            Err(e) => Err(e),
            Ok(g) => if g.len() == 0 {
                Err("generated_files must not be empty"@)
            } else {
                match unique_check(
                    Seq::new(g.len(), |k: int| g[k].1),
                    "generated file destinations"@,
                ) {
                    Err(e) => Err(e),
                    Ok(()) => Ok(g),
                }
            },
        },
    }
}

pub open spec fn commands_part(t: Seq<(String, TomlValue)>) -> Result<
    Seq<(Seq<Seq<char>>, Option<Seq<char>>)>,
    Seq<char>,
> {
    match req_array(t, "commands"@) {
        Err(e) => Err(e),
        Ok(v) => match command_entries(v) {
            Err(e) => Err(e),
            Ok(c) => if c.len() == 0 {
                Err("commands must not be empty"@)
            } else {
                Ok(c)
            },
        },
    }
}

/// The manifest a TOML document describes, or why it is refused.
pub open spec fn manifest_spec(doc: TomlValue) -> Result<ManifestM, Seq<char>> {
    match doc {
        TomlValue::Table(t) => {
            let t = t@;
            match keys_check(t, manifest_keys(), "pack manifest"@) {
                Err(e) => Err(e),
                Ok(()) => match req_integer(t, "schema"@) {
                    Err(e) => Err(e),
                    Ok(schema) => if schema != 1 {
                        Err("pack manifest schema must be 1"@)
                    } else {
                        match req_string(t, "chapter"@) {
                            Err(e) => Err(e),
                            Ok(chapter) => if !identifier_ok(chapter) {
                                Err(
                                    "chapter must contain only lowercase ASCII letters and digits"@,
                                )
                            } else {
                                match req_string(t, "source_commit"@) {
                                    Err(e) => Err(e),
                                    Ok(commit) => if !commit_id_ok(commit) {
                                        Err(
                                            "source_commit must be a full lowercase hexadecimal Git object ID"@,
                                        )
                                    } else {
                                        manifest_rest(t, commit)
                                    },
                                }
                            },
                        }
                    },
                },
            }
        },
        _ => Err("pack manifest must be a TOML table"@),
    }
}

pub open spec fn manifest_rest(t: Seq<(String, TomlValue)>, commit: Seq<char>) -> Result<
    ManifestM,
    Seq<char>,
> {
    match req_string(t, "archive_name"@) {
        Err(e) => Err(e),
        Ok(archive) => match file_name_check(archive, "archive_name"@) {
            Err(e) => Err(e),
            Ok(()) => if !ends_with(archive, ".zip"@) {
                Err("archive_name must end in .zip"@)
            } else {
                match req_string(t, "root_directory"@) {
                    Err(e) => Err(e),
                    Ok(root) => match file_name_check(root, "root_directory"@) {
                        Err(e) => Err(e),
                        Ok(()) => match req_string_array(t, "source_paths"@) {
                            Err(e) => Err(e),
                            Ok(paths) => if paths.len() == 0 {
                                Err("source_paths must not be empty"@)
                            } else {
                                match unique_check(paths, "source_paths"@) {
                                    Err(e) => Err(e),
                                    Ok(()) => match paths_check(paths, "source path"@) {
                                        Err(e) => Err(e),
                                        Ok(()) => match generated_part(t) {
                                            Err(e) => Err(e),
                                            Ok(g) => match commands_part(t) {
                                                Err(e) => Err(e),
                                                Ok(c) => Ok(
                                                    ManifestM {
                                                        source_commit: commit,
                                                        archive_name: archive,
                                                        root_directory: root,
                                                        source_paths: paths,
                                                        generated_files: g,
                                                        commands: c,
                                                    },
                                                ),
                                            },
                                        },
                                    },
                                }
                            },
                        },
                    },
                }
            },
        },
    }
}

fn table_lookup<'a>(t: &'a Vec<(String, TomlValue)>, key: &str) -> (r: Option<&'a TomlValue>)
    ensures
        match r {
            Some(v) => table_get(t@, key@) == Some(*v),
            None => table_get(t@, key@) is None,
        },
{
    let kc = chars_of(key);
    let mut k: usize = 0;
    proof {
        assert(t@.skip(0) =~= t@);
    }
    while k < t.len()
        invariant
            k <= t@.len(),
            kc@ == key@,
            table_get(t@, key@) == table_get(t@.skip(k as int), key@),
        decreases t@.len() - k,
    {
        proof {
            assert(t@.skip(k as int)[0] == t@[k as int]);
            assert(t@.skip(k as int).drop_first() =~= t@.skip(k + 1));
        }
        let name = chars_of(t[k].0.as_str());
        if eq_chars(name.as_slice(), kc.as_slice()) {
            return Some(&t[k].1);
        }
        k = k + 1;
    }
    None
}

pub open spec fn keys_view(v: Seq<Vec<char>>) -> Seq<Seq<char>> {
    v.map_values(|p: Vec<char>| p@)
}

fn contains_key(allowed: &Vec<Vec<char>>, key: &[char]) -> (b: bool)
    ensures
        b == keys_view(allowed@).contains(key@),
{
    let ghost av = keys_view(allowed@);
    let mut k: usize = 0;
    while k < allowed.len()
        invariant
            k <= allowed@.len(),
            av == keys_view(allowed@),
            forall|j: int| 0 <= j < k ==> av[j] != key@,
        decreases allowed@.len() - k,
    {
        if eq_chars(allowed[k].as_slice(), key) {
            proof {
                assert(av[k as int] == key@);
            }
            return true;
        }
        k = k + 1;
    }
    false
}

fn require_only_keys(t: &Vec<(String, TomlValue)>, allowed: &Vec<Vec<char>>, context: &[char]) -> (r:
    Result<(), PackError>)
    ensures
        pres(r) == keys_check(t@, keys_view(allowed@), context@),
{
    let mut k: usize = 0;
    proof {
        assert(t@.skip(0) =~= t@);
    }
    while k < t.len()
        invariant
            k <= t@.len(),
            keys_check(t@, keys_view(allowed@), context@) == keys_check(
                t@.skip(k as int),
                keys_view(allowed@),
                context@,
            ),
        decreases t@.len() - k,
    {
        proof {
            assert(t@.skip(k as int)[0] == t@[k as int]);
            assert(t@.skip(k as int).drop_first() =~= t@.skip(k + 1));
        }
        let name = chars_of(t[k].0.as_str());
        if !contains_key(allowed, name.as_slice()) {
            let mut msg: Vec<char> = Vec::new();
            push_str(&mut msg, "unsupported key ");
            let d = debug_str(name.as_slice());
            push_all(&mut msg, d.as_slice());
            push_str(&mut msg, " in ");
            push_all(&mut msg, context);
            return Err(PackError::from_chars(msg.as_slice()));
        }
        k = k + 1;
    }
    Ok(())
}

fn key_error(key: &str, tail: &str) -> (e: PackError)
    ensures
        e@ == key@ + tail@,
{
    let mut msg: Vec<char> = Vec::new();
    push_str(&mut msg, key);
    push_str(&mut msg, tail);
    PackError::from_chars(msg.as_slice())
}

fn required_string(t: &Vec<(String, TomlValue)>, key: &str) -> (r: Result<String, PackError>)
    ensures
        match r {
            Ok(v) => req_string(t@, key@) == Ok::<Seq<char>, Seq<char>>(v@),
            Err(e) => req_string(t@, key@) == Err::<Seq<char>, Seq<char>>(e@),
        },
{
    match table_lookup(t, key) {
        Some(TomlValue::Str(s)) => Ok(s.clone()),
        _ => Err(key_error(key, " must be a string")),
    }
}

fn required_integer(t: &Vec<(String, TomlValue)>, key: &str) -> (r: Result<i64, PackError>)
    ensures
        match r {
            Ok(v) => req_integer(t@, key@) == Ok::<i64, Seq<char>>(v),
            Err(e) => req_integer(t@, key@) == Err::<i64, Seq<char>>(e@),
        },
{
    match table_lookup(t, key) {
        Some(TomlValue::Integer(i)) => Ok(*i),
        _ => Err(key_error(key, " must be an integer")),
    }
}

fn required_array<'a>(t: &'a Vec<(String, TomlValue)>, key: &str) -> (r: Result<&'a Vec<TomlValue>, PackError>)
    ensures
        match r {
            Ok(v) => req_array(t@, key@) == Ok::<Seq<TomlValue>, Seq<char>>(v@),
            Err(e) => req_array(t@, key@) == Err::<Seq<TomlValue>, Seq<char>>(e@),
        },
{
    match table_lookup(t, key) {
        Some(TomlValue::Array(v)) => Ok(v),
        _ => Err(key_error(key, " must be an array")),
    }
}

fn required_string_array(t: &Vec<(String, TomlValue)>, key: &str) -> (r: Result<Vec<String>, PackError>)
    ensures
        match r {
            Ok(v) => req_string_array(t@, key@) == Ok::<Seq<Seq<char>>, Seq<char>>(strings_of(v@)),
            Err(e) => req_string_array(t@, key@) == Err::<Seq<Seq<char>>, Seq<char>>(e@),
        },
{
    let arr = match required_array(t, key) {
        Err(e) => {
            return Err(e);
        },
        Ok(a) => a,
    };
    let mut out: Vec<String> = Vec::new();
    let mut k: usize = 0;
    while k < arr.len()
        invariant
            k <= arr@.len(),
            req_array(t@, key@) == Ok::<Seq<TomlValue>, Seq<char>>(arr@),
            out@.len() == k,
            forall|j: int| 0 <= j < k ==> (#[trigger] arr@[j]) is Str && out@[j]@ == arr@[j]->Str_0@,
        decreases arr@.len() - k,
    {
        match &arr[k] {
            TomlValue::Str(s) => {
                out.push(s.clone());
            },
            _ => {
                proof {
                    assert(!(arr@[k as int] is Str));
                    assert(!all_strings(arr@));
                }
                return Err(key_error(key, " entries must be strings"));
            },
        }
        k = k + 1;
    }
    proof {
        assert(strings_of(out@) =~= string_values(arr@));
    }
    Ok(out)
}

proof fn lemma_unique_prefix(paths: Seq<Seq<char>>, k: int, context: Seq<char>)
    requires
        0 <= k <= paths.len(),
        unique_check(paths.take(k), context) is Err,
    ensures
        unique_check(paths, context) == unique_check(paths.take(k), context),
    decreases paths.len() - k,
{
    if k < paths.len() {
        assert(paths.take(k + 1).drop_last() =~= paths.take(k));
        lemma_unique_prefix(paths, k + 1, context);
    } else {
        assert(paths.take(k) =~= paths);
    }
}

/// Refuses a path that repeats an earlier one (see [`unique_check`]).
pub fn require_unique_paths(paths: &Vec<String>, context: &str) -> (r: Result<(), PackError>)
    ensures
        pres(r) == unique_check(strings_of(paths@), context@),
{
    let ghost pv = strings_of(paths@);
    let mut i: usize = 0;
    proof {
        assert(pv.take(0) =~= Seq::<Seq<char>>::empty());
    }
    while i < paths.len()
        invariant
            i <= paths@.len(),
            pv == strings_of(paths@),
            unique_check(pv.take(i as int), context@) == Ok::<(), Seq<char>>(()),
        decreases paths@.len() - i,
    {
        let pi = chars_of(paths[i].as_str());
        let mut seen = false;
        let mut j: usize = 0;
        while j < i
            invariant
                j <= i < paths@.len(),
                pv == strings_of(paths@),
                pi@ == pv[i as int],
                seen == exists|m: int| 0 <= m < j && pv[m] == pv[i as int],
            decreases i - j,
        {
            let pj = chars_of(paths[j].as_str());
            proof {
                assert(pv[j as int] == paths@[j as int]@);
            }
            if eq_chars(pj.as_slice(), pi.as_slice()) {
                seen = true;
            }
            j = j + 1;
        }
        proof {
            assert(pv.take(i + 1).drop_last() =~= pv.take(i as int));
            assert(pv.take(i + 1).last() == pv[i as int]);
            if seen {
                let m = choose|m: int| 0 <= m < i && pv[m] == pv[i as int];
                assert(pv.take(i as int)[m] == pv[i as int]);
                assert(pv.take(i as int).contains(pv[i as int]));
            } else {
                assert(!pv.take(i as int).contains(pv[i as int]));
            }
        }
        if seen {
            let mut msg: Vec<char> = Vec::new();
            push_str(&mut msg, "duplicate path in ");
            push_str(&mut msg, context);
            push_str(&mut msg, ": ");
            push_all(&mut msg, pi.as_slice());
            proof {
                lemma_unique_prefix(pv, i + 1, context@);
            }
            return Err(PackError::from_chars(msg.as_slice()));
        }
        i = i + 1;
    }
    proof {
        assert(pv.take(paths@.len() as int) =~= pv);
    }
    Ok(())
}

proof fn lemma_paths_prefix(paths: Seq<Seq<char>>, k: int, field: Seq<char>)
    requires
        0 <= k <= paths.len(),
        paths_check(paths.take(k), field) is Err,
    ensures
        paths_check(paths, field) == paths_check(paths.take(k), field),
    decreases paths.len() - k,
{
    if k < paths.len() {
        assert(paths.take(k + 1).drop_last() =~= paths.take(k));
        lemma_paths_prefix(paths, k + 1, field);
    } else {
        assert(paths.take(k) =~= paths);
    }
}

fn check_paths(paths: &Vec<String>, field: &str) -> (r: Result<(), PackError>)
    ensures
        pres(r) == paths_check(strings_of(paths@), field@),
{
    let ghost pv = strings_of(paths@);
    let mut i: usize = 0;
    proof {
        assert(pv.take(0) =~= Seq::<Seq<char>>::empty());
    }
    while i < paths.len()
        invariant
            i <= paths@.len(),
            pv == strings_of(paths@),
            paths_check(pv.take(i as int), field@) == Ok::<(), Seq<char>>(()),
        decreases paths@.len() - i,
    {
        proof {
            assert(pv.take(i + 1).drop_last() =~= pv.take(i as int));
            assert(pv.take(i + 1).last() == pv[i as int]);
        }
        let pi = chars_of(paths[i].as_str());
        match validate_relative_path(pi.as_slice(), field) {
            Err(e) => {
                proof {
                    lemma_paths_prefix(pv, i + 1, field@);
                }
                return Err(e);
            },
            Ok(()) => {},
        }
        i = i + 1;
    }
    proof {
        assert(pv.take(paths@.len() as int) =~= pv);
    }
    Ok(())
}

fn index_label_exec(name: &str, index: usize) -> (r: Vec<char>)
    ensures
        r@ == index_label(name@, index as nat),
{
    let mut out: Vec<char> = Vec::new();
    push_str(&mut out, name);
    push_str(&mut out, "[");
    let d = decimal_wide(index as u128);
    push_all(&mut out, d.as_slice());
    push_str(&mut out, "]");
    out
}

fn keys_list(a: &str, b: &str) -> (r: Vec<Vec<char>>)
    ensures
        keys_view(r@) == seq![a@, b@],
{
    let mut v: Vec<Vec<char>> = Vec::new();
    v.push(chars_of(a));
    v.push(chars_of(b));
    proof {
        assert(keys_view(v@) =~= seq![a@, b@]);
    }
    v
}

fn parse_generated_entry(v: &TomlValue, index: usize) -> (r: Result<GeneratedFile, PackError>)
    ensures
        match r {
            Ok(g) => generated_entry(*v, index as nat) == Ok::<(Seq<char>, Seq<char>), Seq<char>>(
                (g.source@, g.destination@),
            ),
            Err(e) => generated_entry(*v, index as nat) == Err::<
                (Seq<char>, Seq<char>),
                Seq<char>,
            >(e@),
        },
{
    let label = index_label_exec("generated_files", index);
    match v {
        TomlValue::Table(t) => {
            let allowed = keys_list("source", "destination");
            match require_only_keys(t, &allowed, label.as_slice()) {
                Err(e) => {
                    return Err(e);
                },
                Ok(()) => {},
            }
            let source = match required_string(t, "source") {
                Err(e) => {
                    return Err(e);
                },
                Ok(s) => s,
            };
            let destination = match required_string(t, "destination") {
                Err(e) => {
                    return Err(e);
                },
                Ok(s) => s,
            };
            let sc = chars_of(source.as_str());
            match validate_relative_path(sc.as_slice(), "generated file source") {
                Err(e) => {
                    return Err(e);
                },
                Ok(()) => {},
            }
            let dc = chars_of(destination.as_str());
            match validate_relative_path(dc.as_slice(), "generated file destination") {
                Err(e) => {
                    return Err(e);
                },
                Ok(()) => {},
            }
            Ok(GeneratedFile { source, destination })
        },
        _ => {
            let mut msg = label;
            push_str(&mut msg, " must be a table");
            Err(PackError::from_chars(msg.as_slice()))
        },
    }
}

pub open spec fn generated_view(v: Seq<GeneratedFile>) -> Seq<(Seq<char>, Seq<char>)> {
    Seq::new(v.len(), |k: int| (v[k].source@, v[k].destination@))
}

proof fn lemma_generated_prefix(v: Seq<TomlValue>, k: int)
    requires
        0 <= k <= v.len(),
        generated_entries(v.take(k)) is Err,
    ensures
        generated_entries(v) == generated_entries(v.take(k)),
    decreases v.len() - k,
{
    if k < v.len() {
        assert(v.take(k + 1).drop_last() =~= v.take(k));
        lemma_generated_prefix(v, k + 1);
    } else {
        assert(v.take(k) =~= v);
    }
}

fn parse_generated_files(t: &Vec<(String, TomlValue)>) -> (r: Result<Vec<GeneratedFile>, PackError>)
    ensures
        match r {
            Ok(g) => req_array(t@, "generated_files"@) is Ok && generated_entries(
                req_array(t@, "generated_files"@)->Ok_0,
            ) == Ok::<Seq<(Seq<char>, Seq<char>)>, Seq<char>>(generated_view(g@)),
            Err(e) => match req_array(t@, "generated_files"@) {
                Err(x) => x == e@,
                Ok(a) => generated_entries(a) == Err::<Seq<(Seq<char>, Seq<char>)>, Seq<char>>(
                    e@,
                ),
            },
        },
{
    let arr = match required_array(t, "generated_files") {
        Err(e) => {
            return Err(e);
        },
        Ok(a) => a,
    };
    let mut out: Vec<GeneratedFile> = Vec::new();
    let mut i: usize = 0;
    proof {
        assert(arr@.take(0) =~= Seq::<TomlValue>::empty());
        assert(generated_view(out@) =~= Seq::<(Seq<char>, Seq<char>)>::empty());
    }
    while i < arr.len()
        invariant
            i <= arr@.len(),
            req_array(t@, "generated_files"@) == Ok::<Seq<TomlValue>, Seq<char>>(arr@),
            generated_entries(arr@.take(i as int)) == Ok::<Seq<(Seq<char>, Seq<char>)>, Seq<char>>(
                generated_view(out@),
            ),
        decreases arr@.len() - i,
    {
        proof {
            assert(arr@.take(i + 1).drop_last() =~= arr@.take(i as int));
            assert(arr@.take(i + 1).last() == arr@[i as int]);
        }
        match parse_generated_entry(&arr[i], i) {
            Err(e) => {
                proof {
                    assert(generated_entries(arr@.take(i + 1)) == Err::<
                        Seq<(Seq<char>, Seq<char>)>,
                        Seq<char>,
                    >(e@));
                    lemma_generated_prefix(arr@, i + 1);
                }
                return Err(e);
            },
            Ok(g) => {
                let ghost before = generated_view(out@);
                let ghost item = (g.source@, g.destination@);
                out.push(g);
                proof {
                    assert(generated_view(out@) =~= before.push(item));
                }
            },
        }
        i = i + 1;
    }
    proof {
        assert(arr@.take(arr@.len() as int) =~= arr@);
    }
    Ok(out)
}

fn parse_command_entry(v: &TomlValue, index: usize) -> (r: Result<VerificationCommand, PackError>)
    ensures
        match r {
            Ok(c) => command_entry(*v, index as nat) == Ok::<
                (Seq<Seq<char>>, Option<Seq<char>>),
                Seq<char>,
            >(command_model(c)),
            Err(e) => command_entry(*v, index as nat) == Err::<
                (Seq<Seq<char>>, Option<Seq<char>>),
                Seq<char>,
            >(e@),
        },
{
    let label = index_label_exec("commands", index);
    match v {
        TomlValue::Table(t) => {
            let allowed = keys_list("argv", "expected_stdout");
            match require_only_keys(t, &allowed, label.as_slice()) {
                Err(e) => {
                    return Err(e);
                },
                Ok(()) => {},
            }
            let argv = match required_string_array(t, "argv") {
                Err(e) => {
                    return Err(e);
                },
                Ok(a) => a,
            };
            let ghost av = strings_of(argv@);
            let cargo = chars_of("cargo");
            let first_ok = argv.len() > 0 && {
                let a0 = chars_of(argv[0].as_str());
                eq_chars(a0.as_slice(), cargo.as_slice())
            };
            if !first_ok {
                let mut msg = copy_label(&label);
                push_str(&mut msg, " must invoke cargo directly");
                return Err(PackError::from_chars(msg.as_slice()));
            }
            let mut k: usize = 0;
            let mut any_empty = false;
            while k < argv.len()
                invariant
                    k <= argv@.len(),
                    av == strings_of(argv@),
                    any_empty == exists|j: int| 0 <= j < k && (#[trigger] av[j]).len() == 0,
                decreases argv@.len() - k,
            {
                let ak = chars_of(argv[k].as_str());
                if ak.len() == 0 {
                    proof {
                        assert(av[k as int].len() == 0);
                    }
                    any_empty = true;
                }
                k = k + 1;
            }
            if any_empty {
                let mut msg = copy_label(&label);
                push_str(&mut msg, " arguments must not be empty");
                return Err(PackError::from_chars(msg.as_slice()));
            }
            match validate_command_arguments(&argv, index) {
                Err(e) => {
                    proof {
                        reveal_strlit("commands[");
                        reveal_strlit("commands");
                        reveal_strlit("[");
                        reveal_strlit("]");
                        reveal_strlit("] is not a supported offline form");
                        reveal_strlit(" is not a supported offline form");
                        assert(e@ =~= index_label("commands"@, index as nat)
                            + " is not a supported offline form"@);
                    }
                    return Err(e);
                },
                Ok(()) => {},
            }
            let expected = match table_lookup(t, "expected_stdout") {
                None => None,
                Some(TomlValue::Str(p)) => {
                    let pc = chars_of(p.as_str());
                    match validate_relative_path(pc.as_slice(), "expected_stdout") {
                        Err(e) => {
                            return Err(e);
                        },
                        Ok(()) => {},
                    }
                    Some(p.clone())
                },
                Some(_) => {
                    return Err(PackError::new("expected_stdout must be a string"));
                },
            };
            Ok(VerificationCommand { argv, expected_stdout: expected })
        },
        _ => {
            let mut msg = label;
            push_str(&mut msg, " must be a table");
            Err(PackError::from_chars(msg.as_slice()))
        },
    }
}

fn copy_label(v: &Vec<char>) -> (r: Vec<char>)
    ensures
        r@ == v@,
{
    let mut r: Vec<char> = Vec::new();
    push_all(&mut r, v.as_slice());
    r
}

pub open spec fn commands_view(v: Seq<VerificationCommand>) -> Seq<(Seq<Seq<char>>, Option<Seq<char>>)> {
    Seq::new(v.len(), |k: int| command_model(v[k]))
}

proof fn lemma_commands_prefix(v: Seq<TomlValue>, k: int)
    requires
        0 <= k <= v.len(),
        command_entries(v.take(k)) is Err,
    ensures
        command_entries(v) == command_entries(v.take(k)),
    decreases v.len() - k,
{
    if k < v.len() {
        assert(v.take(k + 1).drop_last() =~= v.take(k));
        lemma_commands_prefix(v, k + 1);
    } else {
        assert(v.take(k) =~= v);
    }
}

fn parse_commands(t: &Vec<(String, TomlValue)>) -> (r: Result<Vec<VerificationCommand>, PackError>)
    ensures
        match r {
            Ok(c) => req_array(t@, "commands"@) is Ok && command_entries(
                req_array(t@, "commands"@)->Ok_0,
            ) == Ok::<Seq<(Seq<Seq<char>>, Option<Seq<char>>)>, Seq<char>>(commands_view(c@)),
            Err(e) => match req_array(t@, "commands"@) {
                Err(x) => x == e@,
                Ok(a) => command_entries(a) == Err::<
                    Seq<(Seq<Seq<char>>, Option<Seq<char>>)>,
                    Seq<char>,
                >(e@),
            },
        },
{
    let arr = match required_array(t, "commands") {
        Err(e) => {
            return Err(e);
        },
        Ok(a) => a,
    };
    let mut out: Vec<VerificationCommand> = Vec::new();
    let mut i: usize = 0;
    proof {
        assert(arr@.take(0) =~= Seq::<TomlValue>::empty());
        assert(commands_view(out@) =~= Seq::<(Seq<Seq<char>>, Option<Seq<char>>)>::empty());
    }
    while i < arr.len()
        invariant
            i <= arr@.len(),
            req_array(t@, "commands"@) == Ok::<Seq<TomlValue>, Seq<char>>(arr@),
            command_entries(arr@.take(i as int)) == Ok::<
                Seq<(Seq<Seq<char>>, Option<Seq<char>>)>,
                Seq<char>,
            >(commands_view(out@)),
        decreases arr@.len() - i,
    {
        proof {
            assert(arr@.take(i + 1).drop_last() =~= arr@.take(i as int));
            assert(arr@.take(i + 1).last() == arr@[i as int]);
        }
        match parse_command_entry(&arr[i], i) {
            Err(e) => {
                proof {
                    assert(command_entries(arr@.take(i + 1)) == Err::<
                        Seq<(Seq<Seq<char>>, Option<Seq<char>>)>,
                        Seq<char>,
                    >(e@));
                    lemma_commands_prefix(arr@, i + 1);
                }
                return Err(e);
            },
            Ok(c) => {
                let ghost before = commands_view(out@);
                let ghost item = command_model(c);
                out.push(c);
                proof {
                    assert(commands_view(out@) =~= before.push(item));
                }
            },
        }
        i = i + 1;
    }
    proof {
        assert(arr@.take(arr@.len() as int) =~= arr@);
    }
    Ok(out)
}

fn manifest_key_list() -> (r: Vec<Vec<char>>)
    ensures
        keys_view(r@) == manifest_keys(),
{
    let mut v: Vec<Vec<char>> = Vec::new();
    v.push(chars_of("schema"));
    v.push(chars_of("chapter"));
    v.push(chars_of("source_commit"));
    v.push(chars_of("archive_name"));
    v.push(chars_of("root_directory"));
    v.push(chars_of("source_paths"));
    v.push(chars_of("generated_files"));
    v.push(chars_of("commands"));
    proof {
        assert(keys_view(v@) =~= manifest_keys());
    }
    v
}

fn destinations_of(g: &Vec<GeneratedFile>) -> (r: Vec<String>)
    ensures
        strings_of(r@) == Seq::new(g@.len(), |k: int| generated_view(g@)[k].1),
{
    let mut out: Vec<String> = Vec::new();
    let mut k: usize = 0;
    while k < g.len()
        invariant
            k <= g@.len(),
            out@.len() == k,
            forall|j: int| 0 <= j < k ==> #[trigger] out@[j]@ == g@[j].destination@,
        decreases g@.len() - k,
    {
        out.push(g[k].destination.clone());
        k = k + 1;
    }
    proof {
        assert(strings_of(out@) =~= Seq::new(g@.len(), |k: int| generated_view(g@)[k].1));
    }
    out
}

#[verifier::external_type_specification]
#[verifier::external_body]
pub struct ExTomlValue(toml::Value);

/// What `toml::from_str::<toml::Value>` reads from a text: the document as a
/// [`TomlValue`], or the text of the parse error.
pub uninterp spec fn toml_document_of(text: Seq<char>) -> Result<TomlValue, Seq<char>>;

/// The library's form of a `toml::Value`, variant by variant: floats and
/// dates become `Other`, tables keep the order of `toml`'s map.
#[verifier::external_body]
fn document_of_value(value: &toml::Value) -> TomlValue {
    match value {
        toml::Value::String(s) => TomlValue::Str(s.clone()),
        toml::Value::Integer(i) => TomlValue::Integer(*i),
        toml::Value::Boolean(b) => TomlValue::Boolean(*b),
        toml::Value::Array(items) => TomlValue::Array(items.iter().map(document_of_value).collect()),
        toml::Value::Table(table) => TomlValue::Table(
            table.iter().map(|(k, v)| (k.clone(), document_of_value(v))).collect(),
        ),
        toml::Value::Float(_) => TomlValue::Other,
        toml::Value::Datetime(_) => TomlValue::Other,
    }
}

/// Parses a text with `toml::from_str::<toml::Value>`. The document, or the
/// error's `Display` text, is named by [`toml_document_of`]; what TOML the
/// crate accepts is not restated here.
#[verifier::external_body]
fn parse_toml_document(text: &str) -> (r: Result<TomlValue, Vec<char>>)
    ensures
        match r {
            Ok(d) => toml_document_of(text@) == Ok::<TomlValue, Seq<char>>(d),
            Err(m) => toml_document_of(text@) == Err::<TomlValue, Seq<char>>(m@),
        },
{
    match toml::from_str::<toml::Value>(text) {
        Ok(value) => Ok(document_of_value(&value)),
        Err(error) => Err(error.to_string().chars().collect()),
    }
}

impl Manifest {
    /// Reads a manifest from its TOML text: a text that is not TOML is
    /// refused with the parser's message, a document as [`manifest_spec`] says.
    pub fn parse(source: &str) -> (r: Result<Manifest, PackError>)
        ensures
            match toml_document_of(source@) {
                Err(m) => r matches Err(e) && e@ == "invalid pack manifest TOML: "@ + m,
                Ok(doc) => match r {
                    Ok(man) => manifest_spec(doc) == Ok::<ManifestM, Seq<char>>(manifest_model(man)),
                    Err(e) => manifest_spec(doc) == Err::<ManifestM, Seq<char>>(e@),
                },
            },
    {
        match parse_toml_document(source) {
            Err(m) => {
                proof {
                    reveal_strlit("invalid pack manifest TOML");
                    reveal_strlit(": ");
                    reveal_strlit("invalid pack manifest TOML: ");
                    assert("invalid pack manifest TOML"@ + ": "@ =~= "invalid pack manifest TOML: "@);
                }
                Err(PackError::with_context("invalid pack manifest TOML", m.as_slice()))
            },
            Ok(doc) => Manifest::from_document(&doc),
        }
    }

    /// Reads a manifest from its TOML document (see [`manifest_spec`]).
    pub fn from_document(doc: &TomlValue) -> (r: Result<Manifest, PackError>)
        ensures
            match r {
                Ok(m) => manifest_spec(*doc) == Ok::<ManifestM, Seq<char>>(manifest_model(m)),
                Err(e) => manifest_spec(*doc) == Err::<ManifestM, Seq<char>>(e@),
            },
    {
        let t = match doc {
            TomlValue::Table(t) => t,
            _ => {
                return Err(PackError::new("pack manifest must be a TOML table"));
            },
        };
        let allowed = manifest_key_list();
        let context = chars_of("pack manifest");
        match require_only_keys(t, &allowed, context.as_slice()) {
            Err(e) => {
                return Err(e);
            },
            Ok(()) => {},
        }
        let schema = match required_integer(t, "schema") {
            Err(e) => {
                return Err(e);
            },
            Ok(v) => v,
        };
        if schema != 1 {
            return Err(PackError::new("pack manifest schema must be 1"));
        }
        let chapter = match required_string(t, "chapter") {
            Err(e) => {
                return Err(e);
            },
            Ok(v) => v,
        };
        let cc = chars_of(chapter.as_str());
        match validate_identifier(cc.as_slice(), "chapter") {
            Err(e) => {
                proof {
                    reveal_strlit("chapter");
                    reveal_strlit(" must contain only lowercase ASCII letters and digits");
                    reveal_strlit("chapter must contain only lowercase ASCII letters and digits");
                    assert(e@ =~= "chapter must contain only lowercase ASCII letters and digits"@);
                }
                return Err(e);
            },
            Ok(()) => {},
        }
        let commit = match required_string(t, "source_commit") {
            Err(e) => {
                return Err(e);
            },
            Ok(v) => v,
        };
        let commit_c = chars_of(commit.as_str());
        if !is_commit_id(commit_c.as_slice()) {
            return Err(PackError::new(
                "source_commit must be a full lowercase hexadecimal Git object ID",
            ));
        }
        let archive = match required_string(t, "archive_name") {
            Err(e) => {
                return Err(e);
            },
            Ok(v) => v,
        };
        let ac = chars_of(archive.as_str());
        match validate_file_name(ac.as_slice(), "archive_name") {
            Err(e) => {
                return Err(e);
            },
            Ok(()) => {},
        }
        let zip = chars_of(".zip");
        if !ends_with_exec(ac.as_slice(), zip.as_slice()) {
            return Err(PackError::new("archive_name must end in .zip"));
        }
        let root = match required_string(t, "root_directory") {
            Err(e) => {
                return Err(e);
            },
            Ok(v) => v,
        };
        let rc = chars_of(root.as_str());
        match validate_file_name(rc.as_slice(), "root_directory") {
            Err(e) => {
                return Err(e);
            },
            Ok(()) => {},
        }
        let paths = match required_string_array(t, "source_paths") {
            Err(e) => {
                return Err(e);
            },
            Ok(v) => v,
        };
        if paths.len() == 0 {
            return Err(PackError::new("source_paths must not be empty"));
        }
        match require_unique_paths(&paths, "source_paths") {
            Err(e) => {
                return Err(e);
            },
            Ok(()) => {},
        }
        match check_paths(&paths, "source path") {
            Err(e) => {
                return Err(e);
            },
            Ok(()) => {},
        }
        let generated = match parse_generated_files(t) {
            Err(e) => {
                return Err(e);
            },
            Ok(g) => g,
        };
        if generated.len() == 0 {
            return Err(PackError::new("generated_files must not be empty"));
        }
        let dests = destinations_of(&generated);
        match require_unique_paths(&dests, "generated file destinations") {
            Err(e) => {
                return Err(e);
            },
            Ok(()) => {},
        }
        let commands = match parse_commands(t) {
            Err(e) => {
                return Err(e);
            },
            Ok(c) => c,
        };
        if commands.len() == 0 {
            return Err(PackError::new("commands must not be empty"));
        }
        let m = Manifest {
            source_commit: commit,
            archive_name: archive,
            root_directory: root,
            source_paths: paths,
            generated_files: generated,
            commands,
        };
        proof {
            assert(manifest_model(m).generated_files =~= generated_view(m.generated_files@));
            assert(manifest_model(m).commands =~= commands_view(m.commands@));
        }
        Ok(m)
    }
}

proof fn lemma_command_entries_offline(v: Seq<TomlValue>)
    requires
        command_entries(v) is Ok,
    ensures
        forall|k: int|
            0 <= k < command_entries(v)->Ok_0.len() ==> offline_form(
                (#[trigger] command_entries(v)->Ok_0[k]).0,
            ),
    decreases v.len(),
{
    if v.len() > 0 {
        lemma_command_entries_offline(v.drop_last());
    }
}

proof fn lemma_paths_check_all(paths: Seq<Seq<char>>, field: Seq<char>)
    requires
        paths_check(paths, field) is Ok,
    ensures
        forall|k: int| 0 <= k < paths.len() ==> relative_path_check(#[trigger] paths[k], field) is Ok,
    decreases paths.len(),
{
    if paths.len() > 0 {
        lemma_paths_check_all(paths.drop_last(), field);
        assert forall|k: int| 0 <= k < paths.len() implies relative_path_check(
            #[trigger] paths[k],
            field,
        ) is Ok by {
            if k < paths.len() - 1 {
                assert(paths[k] == paths.drop_last()[k]);
            }
        }
    }
}

/// A manifest that is accepted only ever runs Cargo in one of the supported
/// offline forms, and every source path stays inside the unpacked workspace.
pub proof fn law_accepted_manifest_is_confined(doc: TomlValue)
    requires
        manifest_spec(doc) is Ok,
    ensures
        forall|k: int|
            0 <= k < manifest_spec(doc)->Ok_0.commands.len() ==> offline_form(
                (#[trigger] manifest_spec(doc)->Ok_0.commands[k]).0,
            ),
        forall|k: int|
            0 <= k < manifest_spec(doc)->Ok_0.source_paths.len() ==> relative_path_check(
                #[trigger] manifest_spec(doc)->Ok_0.source_paths[k],
                "source path"@,
            ) is Ok,
{
    match doc {
        TomlValue::Table(t) => {
            let t = t@;
            let v = req_array(t, "commands"@)->Ok_0;
            lemma_command_entries_offline(v);
            let paths = req_string_array(t, "source_paths"@)->Ok_0;
            lemma_paths_check_all(paths, "source path"@);
        },
        _ => {},
    }
}

proof fn lemma_keys_check_all(t: Seq<(String, TomlValue)>, allowed: Seq<Seq<char>>, context: Seq<char>)
    requires
        keys_check(t, allowed, context) is Ok,
    ensures
        forall|k: int| 0 <= k < t.len() ==> allowed.contains((#[trigger] t[k]).0@),
    decreases t.len(),
{
    if t.len() > 0 {
        lemma_keys_check_all(t.drop_first(), allowed, context);
        assert forall|k: int| 0 <= k < t.len() implies allowed.contains((#[trigger] t[k]).0@) by {
            if k > 0 {
                assert(t[k] == t.drop_first()[k - 1]);
            }
        }
    }
}

proof fn lemma_unique_check_distinct(paths: Seq<Seq<char>>, context: Seq<char>)
    requires
        unique_check(paths, context) is Ok,
    ensures
        paths.no_duplicates(),
    decreases paths.len(),
{
    if paths.len() > 0 {
        let init = paths.drop_last();
        lemma_unique_check_distinct(init, context);
        assert forall|a: int, b: int| 0 <= a < paths.len() && 0 <= b < paths.len() && a != b implies paths[a]
            != paths[b] by {
            if a == paths.len() - 1 {
                assert(paths[b] == init[b]);
                assert(init.contains(init[b]));
            } else if b == paths.len() - 1 {
                assert(paths[a] == init[a]);
                assert(init.contains(init[a]));
            } else {
                assert(paths[a] == init[a] && paths[b] == init[b]);
            }
        }
    }
}

proof fn lemma_generated_entries_safe(v: Seq<TomlValue>)
    requires
        generated_entries(v) is Ok,
    ensures
        forall|k: int|
            0 <= k < generated_entries(v)->Ok_0.len() ==> relative_path_check(
                (#[trigger] generated_entries(v)->Ok_0[k]).0,
                "generated file source"@,
            ) is Ok && relative_path_check(
                generated_entries(v)->Ok_0[k].1,
                "generated file destination"@,
            ) is Ok,
    decreases v.len(),
{
    if v.len() > 0 {
        lemma_generated_entries_safe(v.drop_last());
    }
}

proof fn lemma_command_entries_stdout(v: Seq<TomlValue>)
    requires
        command_entries(v) is Ok,
    ensures
        forall|k: int|
            0 <= k < command_entries(v)->Ok_0.len() ==> ((#[trigger] command_entries(v)->Ok_0[k]).1 matches Some(
                p,
            ) ==> relative_path_check(p, "expected_stdout"@) is Ok),
    decreases v.len(),
{
    if v.len() > 0 {
        lemma_command_entries_stdout(v.drop_last());
    }
}

/// What an accepted manifest is: a table with only the known keys and
/// schema 1, a lowercase identifier as chapter, a full commit id, an archive
/// name that is one safe component ending in `.zip`, a root directory that
/// is one safe component, source paths that are present, distinct and safe,
/// generated files that are present, with safe paths and distinct
/// destinations, and commands that are present, in a supported offline form,
/// with safe expected-output paths.
pub open spec fn accepted_manifest(t: Seq<(String, TomlValue)>, m: ManifestM) -> bool {
    &&& forall|k: int| 0 <= k < t.len() ==> manifest_keys().contains((#[trigger] t[k]).0@)
    &&& req_integer(t, "schema"@) == Ok::<i64, Seq<char>>(1)
    &&& req_string(t, "chapter"@) matches Ok(c) && identifier_ok(c)
    &&& commit_id_ok(m.source_commit)
    &&& file_name_check(m.archive_name, "archive_name"@) is Ok
    &&& ends_with(m.archive_name, ".zip"@)
    &&& file_name_check(m.root_directory, "root_directory"@) is Ok
    &&& m.source_paths.len() > 0
    &&& m.source_paths.no_duplicates()
    &&& forall|k: int|
        0 <= k < m.source_paths.len() ==> relative_path_check(
            #[trigger] m.source_paths[k],
            "source path"@,
        ) is Ok
    &&& m.generated_files.len() > 0
    &&& Seq::new(m.generated_files.len(), |k: int| m.generated_files[k].1).no_duplicates()
    &&& forall|k: int|
        0 <= k < m.generated_files.len() ==> relative_path_check(
            (#[trigger] m.generated_files[k]).0,
            "generated file source"@,
        ) is Ok && relative_path_check(
            m.generated_files[k].1,
            "generated file destination"@,
        ) is Ok
    &&& m.commands.len() > 0
    &&& forall|k: int|
        0 <= k < m.commands.len() ==> offline_form((#[trigger] m.commands[k]).0) && (
        m.commands[k].1 matches Some(p) ==> relative_path_check(p, "expected_stdout"@) is Ok)
}

/// Every manifest that is accepted has all the properties of
/// [`accepted_manifest`].
pub proof fn law_accepted_manifest_is_well_formed(doc: TomlValue)
    requires
        manifest_spec(doc) is Ok,
    ensures
        doc matches TomlValue::Table(t) && accepted_manifest(t@, manifest_spec(doc)->Ok_0),
{
    match doc {
        TomlValue::Table(t) => {
            let t = t@;
            lemma_keys_check_all(t, manifest_keys(), "pack manifest"@);
            let paths = req_string_array(t, "source_paths"@)->Ok_0;
            lemma_paths_check_all(paths, "source path"@);
            lemma_unique_check_distinct(paths, "source_paths"@);
            let g = generated_entries(req_array(t, "generated_files"@)->Ok_0)->Ok_0;
            lemma_generated_entries_safe(req_array(t, "generated_files"@)->Ok_0);
            lemma_unique_check_distinct(
                Seq::new(g.len(), |k: int| g[k].1),
                "generated file destinations"@,
            );
            let cv = req_array(t, "commands"@)->Ok_0;
            lemma_command_entries_offline(cv);
            lemma_command_entries_stdout(cv);
        },
        _ => {},
    }
}

} // verus!
