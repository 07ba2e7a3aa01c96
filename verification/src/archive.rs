//! The files of a chapter pack, kept in ascending path order with each path
//! once, and the checks made on the archive written from them.
use vstd::prelude::*;

use crate::pack::{PackError, pres};
use crate::text::{chars_of, eq_chars, push_all, push_str, string_of};

verus! {

/// `a` sorts before `b` (the order of `str`: character by character, a
/// proper prefix first).
pub open spec fn lex_lt(a: Seq<char>, b: Seq<char>) -> bool
    decreases a.len(),
{
    if b.len() == 0 {
        false
    } else if a.len() == 0 {
        true
    } else if a[0] != b[0] {
        a[0] < b[0]
    } else {
        lex_lt(a.drop_first(), b.drop_first())
    }
}

pub proof fn lemma_lex_trichotomy(a: Seq<char>, b: Seq<char>)
    ensures
        a == b || lex_lt(a, b) || lex_lt(b, a),
        !(lex_lt(a, b) && lex_lt(b, a)),
        !lex_lt(a, a),
    decreases a.len(),
{
    if a.len() > 0 && b.len() > 0 && a[0] == b[0] {
        lemma_lex_trichotomy(a.drop_first(), b.drop_first());
        if a.drop_first() == b.drop_first() {
            assert(a =~= seq![a[0]] + a.drop_first());
            assert(b =~= seq![b[0]] + b.drop_first());
        }
    } else if a.len() == 0 && b.len() == 0 {
        assert(a =~= b);
    }
    if a.len() > 0 {
        lemma_lex_trichotomy(a.drop_first(), a.drop_first());
    }
}

pub proof fn lemma_lex_trans(a: Seq<char>, b: Seq<char>, c: Seq<char>)
    requires
        lex_lt(a, b),
        lex_lt(b, c),
    ensures
        lex_lt(a, c),
    decreases a.len(),
{
    if a.len() > 0 && b.len() > 0 && c.len() > 0 && a[0] == b[0] && b[0] == c[0] {
        lemma_lex_trans(a.drop_first(), b.drop_first(), c.drop_first());
    }
}

/// Compares two texts in `str` order.
pub fn lex_less(a: &[char], b: &[char]) -> (r: bool)
    ensures
        r == lex_lt(a@, b@),
{
    let mut i: usize = 0;
    proof {
        assert(a@.skip(0) =~= a@);
        assert(b@.skip(0) =~= b@);
    }
    while i < a.len() && i < b.len() && a[i] == b[i]
        invariant
            i <= a@.len(),
            i <= b@.len(),
            lex_lt(a@, b@) == lex_lt(a@.skip(i as int), b@.skip(i as int)),
        decreases a@.len() - i,
    {
        proof {
            assert(a@.skip(i as int).drop_first() =~= a@.skip(i + 1));
            assert(b@.skip(i as int).drop_first() =~= b@.skip(i + 1));
        }
        i = i + 1;
    }
    if i == b.len() {
        return false;
    }
    if i == a.len() {
        return true;
    }
    a[i] < b[i]
}

fn key_before(key: &String, path: &[char]) -> (r: bool)
    ensures
        r == lex_lt(key@, path@),
{
    let kc = chars_of(key.as_str());
    lex_less(kc.as_slice(), path)
}

/// Paths in strictly ascending order (so each path once).
pub open spec fn sorted_keys(v: Seq<(Seq<char>, Seq<u8>)>) -> bool {
    forall|i: int, j: int| 0 <= i < j < v.len() ==> lex_lt(#[trigger] v[i].0, #[trigger] v[j].0)
}

/// Whether some entry has path `p`.
pub open spec fn has_path(v: Seq<(Seq<char>, Seq<u8>)>, p: Seq<char>) -> bool {
    exists|i: int| 0 <= i < v.len() && #[trigger] v[i].0 == p
}

/// The files of a pack by path in archive order.
pub struct ArchiveFiles {
    entries: Vec<(String, Vec<u8>)>,
}

impl View for ArchiveFiles {
    type V = Seq<(Seq<char>, Seq<u8>)>;

    closed spec fn view(&self) -> Seq<(Seq<char>, Seq<u8>)> {
        Seq::new(self.entries@.len(), |k: int| (self.entries@[k].0@, self.entries@[k].1@))
    }
}

impl ArchiveFiles {
    #[verifier::type_invariant]
    closed spec fn ordered(self) -> bool {
        sorted_keys(self@)
    }

    pub fn new() -> (r: Self)
        ensures
            r@ == Seq::<(Seq<char>, Seq<u8>)>::empty(),
    {
        let r = ArchiveFiles { entries: Vec::new() };
        proof {
            assert(r@ =~= Seq::<(Seq<char>, Seq<u8>)>::empty());
        }
        r
    }

    /// Number of files.
    pub fn len(&self) -> (n: usize)
        ensures
            n == self@.len(),
    {
        self.entries.len()
    }

    /// The path and bytes of file `k`.
    pub fn entry(&self, k: usize) -> (r: (&str, &[u8]))
        requires
            k < self@.len(),
        ensures
            r.0@ == self@[k as int].0,
            r.1@ == self@[k as int].1,
    {
        (self.entries[k].0.as_str(), self.entries[k].1.as_slice())
    }

    /// Adds a file; a path may be added only once.
    pub fn insert(&mut self, path: &str, bytes: Vec<u8>) -> (r: Result<(), PackError>)
        ensures
            r is Ok <==> !has_path(old(self)@, path@),
            r matches Err(e) ==> e@ == "duplicate archive destination: "@ + path@ && final(self)@
                == old(self)@,
            r is Ok ==> final(self)@.len() == old(self)@.len() + 1 && has_path(
                final(self)@,
                path@,
            ) && (forall|i: int|
                0 <= i < old(self)@.len() ==> #[trigger] final(self)@.contains(old(self)@[i]))
                && final(self)@.contains((path@, bytes@)),
            sorted_keys(final(self)@),
    {
        proof {
            use_type_invariant(&*self);
        }
        let ghost v = self@;
        let pc = chars_of(path);
        let mut p: usize = 0;
        while p < self.entries.len() && key_before(&self.entries[p].0, pc.as_slice())
            invariant
                p <= v.len(),
                v == self@,
                pc@ == path@,
                sorted_keys(v),
                forall|i: int| 0 <= i < p ==> lex_lt(#[trigger] v[i].0, path@),
            decreases v.len() - p,
        {
            p = p + 1;
        }
        if p < self.entries.len() {
            let kc = chars_of(self.entries[p].0.as_str());
            if eq_chars(kc.as_slice(), pc.as_slice()) {
                proof {
                    assert(v[p as int].0 == path@);
                }
                let mut msg: Vec<char> = Vec::new();
                push_str(&mut msg, "duplicate archive destination: ");
                push_all(&mut msg, pc.as_slice());
                return Err(PackError::from_chars(msg.as_slice()));
            }
        }
        proof {
            if p < v.len() {
                lemma_lex_trichotomy(v[p as int].0, path@);
                assert(lex_lt(path@, v[p as int].0));
            }
            assert forall|i: int| 0 <= i < v.len() implies #[trigger] v[i].0 != path@ by {
                lemma_lex_trichotomy(v[i].0, path@);
                if i > p {
                    lemma_lex_trans(path@, v[p as int].0, v[i].0);
                    lemma_lex_trichotomy(path@, v[i].0);
                }
            }
        }
        let ghost item = (path@, bytes@);
        let mut entries: Vec<(String, Vec<u8>)> = Vec::new();
        std::mem::swap(&mut entries, &mut self.entries);
        entries.insert(p, (String::from_str(path), bytes));
        let ghost w = Seq::new(entries@.len(), |k: int| (entries@[k].0@, entries@[k].1@));
        proof {
            assert(w =~= v.insert(p as int, item));
            assert forall|i: int, j: int| 0 <= i < j < w.len() implies lex_lt(
                #[trigger] w[i].0,
                #[trigger] w[j].0,
            ) by {
                if j < p {
                } else if j == p {
                } else if i < p {
                    if j - 1 > p {
                        lemma_lex_trans(path@, v[p as int].0, v[j - 1].0);
                    }
                    lemma_lex_trans(w[i].0, path@, w[j].0);
                } else if i == p {
                    if j - 1 > p {
                        lemma_lex_trans(path@, v[p as int].0, v[j - 1].0);
                    }
                } else {
                    assert(w[i] == v[i - 1]);
                    assert(w[j] == v[j - 1]);
                }
            }
            assert(w[p as int] == item);
            assert(w.contains(item));
            assert(w[p as int].0 == path@);
            assert(has_path(w, path@));
            assert forall|i: int| 0 <= i < v.len() implies #[trigger] w.contains(v[i]) by {
                if i < p {
                    assert(w[i] == v[i]);
                } else {
                    assert(w[i + 1] == v[i]);
                }
            }
        }
        self.entries = entries;
        proof {
            assert(self@ =~= w);
        }
        Ok(())
    }

    /// The archive entry names: `root/path` for each file, in order.
    pub fn entry_names(&self, root: &str) -> (r: Vec<String>)
        ensures
            r@.len() == self@.len(),
            forall|k: int| 0 <= k < self@.len() ==> #[trigger] r@[k]@ == root@ + "/"@ + self@[k].0,
    {
        let mut out: Vec<String> = Vec::new();
        let mut k: usize = 0;
        while k < self.entries.len()
            invariant
                k <= self@.len(),
                out@.len() == k,
                forall|j: int| 0 <= j < k ==> #[trigger] out@[j]@ == root@ + "/"@ + self@[j].0,
            decreases self@.len() - k,
        {
            let mut name: Vec<char> = Vec::new();
            push_str(&mut name, root);
            push_str(&mut name, "/");
            push_str(&mut name, self.entries[k].0.as_str());
            out.push(string_of(name.as_slice()));
            k = k + 1;
        }
        out
    }
}

pub open spec fn names_of(v: Seq<String>) -> Seq<Seq<char>> {
    Seq::new(v.len(), |k: int| v[k]@)
}

/// The mode of a regular, read-only data file in the archive (`0o100644`).
pub open spec fn data_file_mode() -> u32 {
    0o100644u32
}

/// Whether an entry read back from the archive is acceptable: an expected
/// name not met before, a path that stays inside the extraction directory,
/// and a regular read-only data file.
pub open spec fn entry_check(
    expected: Seq<Seq<char>>,
    seen: Seq<Seq<char>>,
    name: Seq<char>,
    enclosed: bool,
    is_dir: bool,
    mode: Option<u32>,
) -> Result<(), Seq<char>> {
    if !expected.contains(name) || seen.contains(name) {
        Err("archive contains an unexpected or duplicate entry: "@ + name)
    } else if !enclosed {
        Err("unsafe archive entry path: "@ + name)
    } else if is_dir || mode != Some(data_file_mode()) {
        Err("archive entry is not a regular read-only data file: "@ + name)
    } else {
        Ok(())
    }
}

fn contains_name(v: &Vec<String>, name: &[char]) -> (b: bool)
    ensures
        b == names_of(v@).contains(name@),
{
    let ghost nv = names_of(v@);
    let mut k: usize = 0;
    while k < v.len()
        invariant
            k <= v@.len(),
            nv == names_of(v@),
            forall|j: int| 0 <= j < k ==> nv[j] != name@,
        decreases v@.len() - k,
    {
        let c = chars_of(v[k].as_str());
        if eq_chars(c.as_slice(), name) {
            proof {
                assert(nv[k as int] == name@);
            }
            return true;
        }
        k = k + 1;
    }
    false
}

fn name_error(prefix: &str, name: &[char]) -> (e: PackError)
    ensures
        e@ == prefix@ + name@,
{
    let mut msg: Vec<char> = Vec::new();
    push_str(&mut msg, prefix);
    push_all(&mut msg, name);
    PackError::from_chars(msg.as_slice())
}

/// Checks one archive entry (see [`entry_check`]) and records its name
/// among those met when it was expected and new.
pub fn check_archive_entry(
    expected: &Vec<String>,
    seen: &mut Vec<String>,
    name: &str,
    enclosed: bool,
    is_dir: bool,
    mode: Option<u32>,
) -> (r: Result<(), PackError>)
    ensures
        pres(r) == entry_check(names_of(expected@), names_of(old(seen)@), name@, enclosed, is_dir, mode),
        names_of(final(seen)@) == if names_of(expected@).contains(name@) && !names_of(
            old(seen)@,
        ).contains(name@) {
            names_of(old(seen)@).push(name@)
        } else {
            names_of(old(seen)@)
        },
{
    let nc = chars_of(name);
    if !contains_name(expected, nc.as_slice()) || contains_name(seen, nc.as_slice()) {
        return Err(name_error("archive contains an unexpected or duplicate entry: ", nc.as_slice()));
    }
    let ghost before = names_of(seen@);
    seen.push(String::from_str(name));
    proof {
        assert(names_of(seen@) =~= before.push(name@));
    }
    if !enclosed {
        return Err(name_error("unsafe archive entry path: ", nc.as_slice()));
    }
    let regular = match mode {
        Some(m) => m == 0o100644u32,
        None => false,
    };
    if is_dir || !regular {
        return Err(name_error("archive entry is not a regular read-only data file: ", nc.as_slice()));
    }
    Ok(())
}

/// The names met are exactly the names expected.
pub open spec fn names_match(seen: Seq<Seq<char>>, expected: Seq<Seq<char>>) -> bool {
    forall|x: Seq<char>| #[trigger] expected.contains(x) <==> seen.contains(x)
}

/// Refuses an archive whose entries differ from the expected names.
pub fn check_entry_set(seen: &Vec<String>, expected: &Vec<String>) -> (r: Result<(), PackError>)
    ensures
        r is Ok <==> names_match(names_of(seen@), names_of(expected@)),
        r matches Err(e) ==> e@ == "archive entries do not match manifest"@,
{
    let ghost ev = names_of(expected@);
    let ghost sv = names_of(seen@);
    let mut k: usize = 0;
    while k < expected.len()
        invariant
            k <= expected@.len(),
            ev == names_of(expected@),
            sv == names_of(seen@),
            forall|j: int| 0 <= j < k ==> sv.contains(#[trigger] ev[j]),
        decreases expected@.len() - k,
    {
        let c = chars_of(expected[k].as_str());
        if !contains_name(seen, c.as_slice()) {
            proof {
                assert(ev.contains(ev[k as int]));
                assert(!names_match(sv, ev));
            }
            return Err(PackError::new("archive entries do not match manifest"));
        }
        k = k + 1;
    }
    let mut j: usize = 0;
    while j < seen.len()
        invariant
            j <= seen@.len(),
            ev == names_of(expected@),
            sv == names_of(seen@),
            forall|i: int| 0 <= i < expected@.len() ==> sv.contains(#[trigger] ev[i]),
            forall|i: int| 0 <= i < j ==> ev.contains(#[trigger] sv[i]),
        decreases seen@.len() - j,
    {
        let c = chars_of(seen[j].as_str());
        if !contains_name(expected, c.as_slice()) {
            proof {
                assert(sv.contains(sv[j as int]));
                assert(!names_match(sv, ev));
            }
            return Err(PackError::new("archive entries do not match manifest"));
        }
        j = j + 1;
    }
    proof {
        assert forall|x: Seq<char>| #[trigger] ev.contains(x) <==> sv.contains(x) by {
            if ev.contains(x) {
                let i = choose|i: int| 0 <= i < ev.len() && ev[i] == x;
                assert(sv.contains(ev[i]));
            }
            if sv.contains(x) {
                let i = choose|i: int| 0 <= i < sv.len() && sv[i] == x;
                assert(ev.contains(sv[i]));
            }
        }
    }
    Ok(())
}

/// Refuses an archive holding a different number of entries than files.
pub fn check_entry_count(entries: usize, files: usize) -> (r: Result<(), PackError>)
    ensures
        r is Ok <==> entries == files,
        r matches Err(e) ==> e@ == "archive entry count does not match manifest"@,
{
    if entries != files {
        return Err(PackError::new("archive entry count does not match manifest"));
    }
    Ok(())
}

fn same_bytes(a: &[u8], b: &[u8]) -> (r: bool)
    ensures
        r == (a@ == b@),
{
    if a.len() != b.len() {
        return false;
    }
    let mut i: usize = 0;
    while i < a.len()
        invariant
            i <= a@.len(),
            a@.len() == b@.len(),
            forall|k: int| 0 <= k < i ==> a@[k] == b@[k],
        decreases a@.len() - i,
    {
        if a[i] != b[i] {
            return false;
        }
        i = i + 1;
    }
    proof {
        assert(a@ =~= b@);
    }
    true
}

/// Refuses an extracted file whose bytes differ from its source.
pub fn check_extracted_file(path: &str, actual: &[u8], expected: &[u8]) -> (r: Result<(), PackError>)
    ensures
        r is Ok <==> actual@ == expected@,
        r matches Err(e) ==> e@ == "extracted file does not match its source: "@ + path@,
{
    if !same_bytes(actual, expected) {
        let pc = chars_of(path);
        return Err(name_error("extracted file does not match its source: ", pc.as_slice()));
    }
    Ok(())
}

/// A command line written out: its arguments joined by spaces.
pub open spec fn command_line(argv: Seq<Seq<char>>) -> Seq<char> {
    crate::text::join(argv, " "@)
}

fn command_line_exec(argv: &Vec<String>) -> (r: Vec<char>)
    ensures
        r@ == command_line(names_of(argv@)),
{
    let mut parts: Vec<Vec<char>> = Vec::new();
    let mut k: usize = 0;
    while k < argv.len()
        invariant
            k <= argv@.len(),
            parts@.len() == k,
            forall|j: int| 0 <= j < k ==> #[trigger] parts@[j]@ == argv@[j]@,
        decreases argv@.len() - k,
    {
        parts.push(chars_of(argv[k].as_str()));
        k = k + 1;
    }
    proof {
        assert(parts@.map_values(|p: Vec<char>| p@) =~= names_of(argv@));
    }
    let sp = chars_of(" ");
    crate::text::join_exec(&parts, sp.as_slice())
}

/// The context of a failed verification command.
pub fn command_failure_context(argv: &Vec<String>) -> (r: Vec<char>)
    ensures
        r@ == "verification command failed: "@ + command_line(names_of(argv@)),
{
    let line = command_line_exec(argv);
    let mut out: Vec<char> = Vec::new();
    push_str(&mut out, "verification command failed: ");
    push_all(&mut out, line.as_slice());
    out
}

/// Refuses a verification command whose output differs from the expected file.
pub fn check_command_output(argv: &Vec<String>, expected_path: &str, stdout: &[u8], expected: &[u8]) -> (r:
    Result<(), PackError>)
    ensures
        r is Ok <==> stdout@ == expected@,
        r matches Err(e) ==> e@ == "verification command stdout did not match "@ + expected_path@
            + ": "@ + command_line(names_of(argv@)),
{
    if !same_bytes(stdout, expected) {
        let line = command_line_exec(argv);
        let mut msg: Vec<char> = Vec::new();
        push_str(&mut msg, "verification command stdout did not match ");
        push_str(&mut msg, expected_path);
        push_str(&mut msg, ": ");
        push_all(&mut msg, line.as_slice());
        return Err(PackError::from_chars(msg.as_slice()));
    }
    Ok(())
}

} // verus!
