//! Chapter packs: the rules a pack manifest's names, paths and commands
//! must follow, the checks on what Git and the archive report, and the
//! archive's checksum.
use vstd::prelude::*;

use crate::gitmd::{segments, seg_view};
use crate::text::{
    chars_of, contains, contains_exec, copy_range, debug_quoted, debug_str, decimal, decimal_wide,
    ends_with, ends_with_exec, eq_chars, push_all, push_str, starts_with, starts_with_exec,
    string_of,
};

verus! {

/// Why a chapter pack could not be built or verified.
pub struct PackError {
    message: String,
}

impl View for PackError {
    type V = Seq<char>;

    closed spec fn view(&self) -> Seq<char> {
        self.message@
    }
}

impl PackError {
    pub fn new(message: &str) -> (r: Self)
        ensures
            r@ == message@,
    {
        PackError { message: String::from_str(message) }
    }

    pub fn from_chars(message: &[char]) -> (r: Self)
        ensures
            r@ == message@,
    {
        PackError { message: string_of(message) }
    }

    /// `context`, a colon, and the detail.
    pub fn with_context(context: &str, detail: &[char]) -> (r: Self)
        ensures
            r@ == context@ + ": "@ + detail@,
    {
        let mut out: Vec<char> = Vec::new();
        push_str(&mut out, context);
        push_str(&mut out, ": ");
        push_all(&mut out, detail);
        PackError { message: string_of(out.as_slice()) }
    }

    /// The sentence shown to people.
    pub fn message(&self) -> (r: String)
        ensures
            r@ == self@,
    {
        self.message.clone()
    }
}

pub open spec fn pres(r: Result<(), PackError>) -> Result<(), Seq<char>> {
    match r {
        Ok(()) => Ok(()),
        Err(e) => Err(e@),
    }
}

/// A path is safe inside the unpacked workspace: relative, made of plain
/// components only (no `.`, `..` or root), and not under `.git`.
pub open spec fn safe_components(value: Seq<char>) -> bool {
    &&& !starts_with(value, "/"@)
    &&& value != "."@
    &&& !starts_with(value, "./"@)
    &&& !segments(value).contains(".."@)
    &&& !(segments(value).len() > 0 && segments(value)[0] == ".git"@)
}

/// Why a manifest path is refused, if it is.
pub open spec fn relative_path_check(value: Seq<char>, field: Seq<char>) -> Result<(), Seq<char>> {
    if value.len() == 0 || value.contains('\\') || value.contains('\0') {
        Err(field + " is not a safe relative path"@)
    } else if !safe_components(value) {
        Err(field + " is not a safe relative path: "@ + value)
    } else {
        Ok(())
    }
}

fn has_char(s: &[char], c: char) -> (b: bool)
    ensures
        b == s@.contains(c),
{
    let mut i: usize = 0;
    while i < s.len()
        invariant
            i <= s@.len(),
            forall|k: int| 0 <= k < i ==> s@[k] != c,
        decreases s@.len() - i,
    {
        if s[i] == c {
            proof {
                assert(s@[i as int] == c);
            }
            return true;
        }
        i = i + 1;
    }
    false
}

fn has_segment(segs: &Vec<Vec<char>>, name: &str) -> (b: bool)
    ensures
        b == seg_view(segs@).contains(name@),
{
    let nc = chars_of(name);
    let ghost sv = seg_view(segs@);
    let mut k: usize = 0;
    while k < segs.len()
        invariant
            k <= segs@.len(),
            nc@ == name@,
            sv == seg_view(segs@),
            forall|j: int| 0 <= j < k ==> sv[j] != name@,
        decreases segs@.len() - k,
    {
        if eq_chars(segs[k].as_slice(), nc.as_slice()) {
            proof {
                assert(sv[k as int] == name@);
            }
            return true;
        }
        k = k + 1;
    }
    false
}

fn path_segments(value: &[char]) -> (r: Vec<Vec<char>>)
    ensures
        seg_view(r@) == segments(value@),
{
    crate::gitmd::segments_of(value)
}

/// Checks a path of the manifest (see [`relative_path_check`]).
pub fn validate_relative_path(value: &[char], field: &str) -> (r: Result<(), PackError>)
    ensures
        pres(r) == relative_path_check(value@, field@),
{
    if value.len() == 0 || has_char(value, '\\') || has_char(value, '\0') {
        let mut msg: Vec<char> = Vec::new();
        push_str(&mut msg, field);
        push_str(&mut msg, " is not a safe relative path");
        return Err(PackError::from_chars(msg.as_slice()));
    }
    let slash = chars_of("/");
    let dot = chars_of(".");
    let dot_slash = chars_of("./");
    let segs = path_segments(value);
    let git = chars_of(".git");
    let unsafe_path = starts_with_exec(value, slash.as_slice()) || eq_chars(value, dot.as_slice())
        || starts_with_exec(value, dot_slash.as_slice()) || has_segment(&segs, "..") || (segs.len()
        > 0 && eq_chars(segs[0].as_slice(), git.as_slice()));
    if unsafe_path {
        let mut msg: Vec<char> = Vec::new();
        push_str(&mut msg, field);
        push_str(&mut msg, " is not a safe relative path: ");
        push_all(&mut msg, value);
        return Err(PackError::from_chars(msg.as_slice()));
    }
    Ok(())
}

/// A single safe path component.
pub open spec fn file_name_check(value: Seq<char>, field: Seq<char>) -> Result<(), Seq<char>> {
    match relative_path_check(value, field) {
        Err(e) => Err(e),
        Ok(()) => if segments(value).len() != 1 {
            Err(field + " must be one safe path component"@)
        } else {
            Ok(())
        },
    }
}

pub fn validate_file_name(value: &[char], field: &str) -> (r: Result<(), PackError>)
    ensures
        pres(r) == file_name_check(value@, field@),
{
    match validate_relative_path(value, field) {
        Err(e) => {
            return Err(e);
        },
        Ok(()) => {},
    }
    let segs = path_segments(value);
    if segs.len() != 1 {
        let mut msg: Vec<char> = Vec::new();
        push_str(&mut msg, field);
        push_str(&mut msg, " must be one safe path component");
        return Err(PackError::from_chars(msg.as_slice()));
    }
    Ok(())
}

/// Lowercase ASCII letters and digits, at least one.
pub open spec fn identifier_ok(value: Seq<char>) -> bool {
    value.len() > 0 && forall|k: int|
        0 <= k < value.len() ==> ('a' <= #[trigger] value[k] <= 'z' || '0' <= value[k] <= '9')
}

pub fn validate_identifier(value: &[char], field: &str) -> (r: Result<(), PackError>)
    ensures
        r is Ok <==> identifier_ok(value@),
        r matches Err(e) ==> e@ == field@ + " must contain only lowercase ASCII letters and digits"@,
{
    let mut ok = value.len() > 0;
    let mut i: usize = 0;
    while i < value.len()
        invariant
            i <= value@.len(),
            ok == (value@.len() > 0 && forall|k: int|
                0 <= k < i ==> ('a' <= #[trigger] value@[k] <= 'z' || '0' <= value@[k] <= '9')),
        decreases value@.len() - i,
    {
        let c = value[i];
        if !(('a' <= c && c <= 'z') || ('0' <= c && c <= '9')) {
            ok = false;
        }
        i = i + 1;
    }
    if !ok {
        let mut msg: Vec<char> = Vec::new();
        push_str(&mut msg, field);
        push_str(&mut msg, " must contain only lowercase ASCII letters and digits");
        return Err(PackError::from_chars(msg.as_slice()));
    }
    Ok(())
}

/// A full lowercase hexadecimal Git object ID.
pub open spec fn commit_id_ok(value: Seq<char>) -> bool {
    value.len() == 40 && forall|k: int|
        0 <= k < value.len() ==> ('0' <= #[trigger] value[k] <= '9' || 'a' <= value[k] <= 'f')
}

pub fn is_commit_id(value: &[char]) -> (b: bool)
    ensures
        b == commit_id_ok(value@),
{
    if value.len() != 40 {
        return false;
    }
    let mut i: usize = 0;
    while i < value.len()
        invariant
            i <= value@.len(),
            forall|k: int| 0 <= k < i ==> ('0' <= #[trigger] value@[k] <= '9' || 'a' <= value@[k] <= 'f'),
        decreases value@.len() - i,
    {
        let c = value[i];
        if !(('0' <= c && c <= '9') || ('a' <= c && c <= 'f')) {
            return false;
        }
        i = i + 1;
    }
    true
}

/// A Cargo package name: ASCII letters, digits, `-` and `_`, at least one.
pub open spec fn package_name_ok(value: Seq<char>) -> bool {
    value.len() > 0 && forall|k: int|
        0 <= k < value.len() ==> (('a' <= #[trigger] value[k] <= 'z') || ('A' <= value[k] <= 'Z')
            || ('0' <= value[k] <= '9') || value[k] == '-' || value[k] == '_')
}

pub fn validate_package_name(value: &[char]) -> (b: bool)
    ensures
        b == package_name_ok(value@),
{
    if value.len() == 0 {
        return false;
    }
    let mut i: usize = 0;
    while i < value.len()
        invariant
            i <= value@.len(),
            forall|k: int|
                0 <= k < i ==> (('a' <= #[trigger] value@[k] <= 'z') || ('A' <= value@[k] <= 'Z')
                    || ('0' <= value@[k] <= '9') || value@[k] == '-' || value@[k] == '_'),
        decreases value@.len() - i,
    {
        let c = value[i];
        if !(('a' <= c && c <= 'z') || ('A' <= c && c <= 'Z') || ('0' <= c && c <= '9') || c == '-'
            || c == '_') {
            return false;
        }
        i = i + 1;
    }
    true
}

/// The only commands a pack may run: `cargo test --workspace --locked`, or
/// `cargo run -p <package> --locked -- <arguments>` with plain relative
/// arguments.
pub open spec fn offline_form(argv: Seq<Seq<char>>) -> bool {
    ||| argv =~= seq!["cargo"@, "test"@, "--workspace"@, "--locked"@]
    ||| (argv.len() >= 7 && argv[1] == "run"@ && argv[2] == "-p"@ && package_name_ok(argv[3])
        && argv[4] == "--locked"@ && argv[5] == "--"@ && forall|k: int|
        6 <= k < argv.len() ==> (#[trigger] argv[k]).len() > 0 && !argv[k].contains('\0')
            && !starts_with(argv[k], "/"@))
}

pub open spec fn strings_of(v: Seq<String>) -> Seq<Seq<char>> {
    Seq::new(v.len(), |k: int| v[k]@)
}

fn plain_argument(a: &[char]) -> (b: bool)
    ensures
        b == (a@.len() > 0 && !a@.contains('\0') && !starts_with(a@, "/"@)),
{
    let slash = chars_of("/");
    a.len() > 0 && !has_char(a, '\0') && !starts_with_exec(a, slash.as_slice())
}

fn is_word(s: &String, w: &str) -> (b: bool)
    ensures
        b == (s@ == w@),
{
    let a = chars_of(s.as_str());
    let b = chars_of(w);
    eq_chars(a.as_slice(), b.as_slice())
}

/// Refuses a command outside the supported offline forms.
pub fn validate_command_arguments(argv: &Vec<String>, index: usize) -> (r: Result<(), PackError>)
    ensures
        r is Ok <==> offline_form(strings_of(argv@)),
        r matches Err(e) ==> e@ == "commands["@ + decimal(index as nat)
            + "] is not a supported offline form"@,
{
    let ghost av = strings_of(argv@);
    let is_test = argv.len() == 4 && is_word(&argv[0], "cargo") && is_word(&argv[1], "test")
        && is_word(&argv[2], "--workspace") && is_word(&argv[3], "--locked");
    proof {
        if is_test {
            assert(av =~= seq!["cargo"@, "test"@, "--workspace"@, "--locked"@]);
        }
        if av =~= seq!["cargo"@, "test"@, "--workspace"@, "--locked"@] {
            assert(av[0] == argv@[0]@);
            assert(av[1] == argv@[1]@);
            assert(av[2] == argv@[2]@);
            assert(av[3] == argv@[3]@);
        }
    }
    let mut is_run = false;
    if argv.len() >= 7 {
        let a1 = chars_of(argv[1].as_str());
        let a2 = chars_of(argv[2].as_str());
        let a3 = chars_of(argv[3].as_str());
        let a4 = chars_of(argv[4].as_str());
        let a5 = chars_of(argv[5].as_str());
        let run = chars_of("run");
        let p = chars_of("-p");
        let locked = chars_of("--locked");
        let dd = chars_of("--");
        if eq_chars(a1.as_slice(), run.as_slice()) && eq_chars(a2.as_slice(), p.as_slice())
            && validate_package_name(a3.as_slice()) && eq_chars(a4.as_slice(), locked.as_slice())
            && eq_chars(a5.as_slice(), dd.as_slice()) {
            let mut all = true;
            let mut j: usize = 6;
            while j < argv.len()
                invariant
                    6 <= j <= argv@.len(),
                    av == strings_of(argv@),
                    all == forall|m: int|
                        6 <= m < j ==> (#[trigger] av[m]).len() > 0 && !av[m].contains('\0')
                            && !starts_with(av[m], "/"@),
                decreases argv@.len() - j,
            {
                let aj = chars_of(argv[j].as_str());
                proof {
                    assert(av[j as int] == argv@[j as int]@);
                }
                if !plain_argument(aj.as_slice()) {
                    all = false;
                }
                j = j + 1;
            }
            is_run = all;
        }
    }
    if !is_test && !is_run {
        let mut msg: Vec<char> = Vec::new();
        push_str(&mut msg, "commands[");
        let d = decimal_wide(index as u128);
        push_all(&mut msg, d.as_slice());
        push_str(&mut msg, "] is not a supported offline form");
        return Err(PackError::from_chars(msg.as_slice()));
    }
    Ok(())
}

/// The SHA-256 digest of some bytes, as the `sha2` crate computes it.
pub uninterp spec fn sha256_of(data: Seq<u8>) -> Seq<u8>;

/// Computes `sha2::Sha256::digest`. The digest is named by [`sha256_of`];
/// a SHA-256 digest is 32 bytes long (the crate's output size `U32`).
#[verifier::external_body]
fn sha256_digest(data: &[u8]) -> (r: Vec<u8>)
    ensures
        r@ == sha256_of(data@),
        r@.len() == 32,
{
    <sha2::Sha256 as sha2::Digest>::digest(data).to_vec()
}

/// Two lowercase hexadecimal digits for each byte (`{:02x}`).
pub open spec fn hex_bytes(b: Seq<u8>) -> Seq<char>
    decreases b.len(),
{
    if b.len() == 0 {
        seq![]
    } else {
        hex_bytes(b.drop_last()) + seq![
            crate::text::hex_digit((b.last() / 16) as nat),
            crate::text::hex_digit((b.last() % 16) as nat),
        ]
    }
}

proof fn lemma_hex_bytes_len(b: Seq<u8>)
    ensures
        hex_bytes(b).len() == 2 * b.len(),
    decreases b.len(),
{
    if b.len() > 0 {
        lemma_hex_bytes_len(b.drop_last());
    }
}

fn hex_digit_of(d: u8) -> (c: char)
    requires
        d < 16,
    ensures
        c == crate::text::hex_digit(d as nat),
{
    let digits = chars_of("0123456789abcdef");
    proof {
        reveal_strlit("0123456789abcdef");
    }
    digits[d as usize]
}

/// Writes bytes as lowercase hexadecimal.
pub fn hex_encode(b: &[u8]) -> (r: Vec<char>)
    ensures
        r@ == hex_bytes(b@),
{
    let mut out: Vec<char> = Vec::new();
    let mut i: usize = 0;
    while i < b.len()
        invariant
            i <= b@.len(),
            out@ == hex_bytes(b@.take(i as int)),
        decreases b@.len() - i,
    {
        proof {
            assert(b@.take(i + 1).drop_last() =~= b@.take(i as int));
        }
        let x = b[i];
        out.push(hex_digit_of(x / 16));
        out.push(hex_digit_of(x % 16));
        proof {
            assert(out@ =~= hex_bytes(b@.take(i + 1)));
        }
        i = i + 1;
    }
    proof {
        assert(b@.take(b@.len() as int) =~= b@);
    }
    out
}

/// The text of an archive's `.sha256` file: the digest in hexadecimal and a
/// line feed.
pub open spec fn checksum_text(archive: Seq<u8>) -> Seq<char> {
    hex_bytes(sha256_of(archive)) + "\n"@
}

/// The SHA-256 of some bytes in lowercase hexadecimal.
pub fn sha256_hex(data: &[u8]) -> (r: String)
    ensures
        r@ == hex_bytes(sha256_of(data@)),
{
    let d = sha256_digest(data);
    let h = hex_encode(d.as_slice());
    string_of(h.as_slice())
}

/// Writes the `.sha256` file's text (see [`checksum_text`]).
pub fn checksum_file_text(archive: &[u8]) -> (r: String)
    ensures
        r@ == checksum_text(archive@),
        r@.len() == 65,
{
    let d = sha256_digest(archive);
    let mut h = hex_encode(d.as_slice());
    h.push('\n');
    proof {
        reveal_strlit("\n");
        lemma_hex_bytes_len(d@);
        assert(h@ =~= checksum_text(archive@));
    }
    string_of(h.as_slice())
}

/// What std's `Utf8Error` says of bytes that are not UTF-8.
pub uninterp spec fn utf8_error_text(bytes: Seq<u8>) -> Seq<char>;

/// Decodes UTF-8 with `std::str::from_utf8`: it succeeds exactly on valid
/// UTF-8 and then gives the encoded characters; the error's text (its
/// `Display`) is std's and is named by [`utf8_error_text`].
#[verifier::external_body]
pub(crate) fn decode_utf8_text(bytes: &[u8]) -> (r: Result<Vec<char>, Vec<char>>)
    ensures
        match r {
            Ok(t) => vstd::utf8::valid_utf8(bytes@) && t@ == vstd::utf8::decode_utf8(bytes@),
            Err(m) => !vstd::utf8::valid_utf8(bytes@) && m@ == utf8_error_text(bytes@),
        },
{
    match std::str::from_utf8(bytes) {
        Ok(text) => Ok(text.chars().collect()),
        Err(error) => Err(error.to_string().chars().collect()),
    }
}

/// The whitespace-separated words of `s` from index `i` on.
pub open spec fn words_from(s: Seq<char>, i: int) -> Seq<Seq<char>>
    decreases s.len() - i,
{
    if i < 0 || i >= s.len() {
        seq![]
    } else if crate::text::is_ws(s[i]) {
        words_from(s, i + 1)
    } else {
        let e = word_end(s, i);
        if e <= i || e > s.len() {
            seq![]
        } else {
            seq![s.subrange(i, e)] + words_from(s, e)
        }
    }
}

/// The end of the word that starts at `i`.
pub open spec fn word_end(s: Seq<char>, i: int) -> int
    decreases s.len() - i,
{
    if 0 <= i < s.len() && !crate::text::is_ws(s[i]) {
        word_end(s, i + 1)
    } else {
        i
    }
}

proof fn lemma_word_end(s: Seq<char>, i: int)
    requires
        0 <= i <= s.len(),
    ensures
        i <= word_end(s, i) <= s.len(),
        i < s.len() && !crate::text::is_ws(s[i]) ==> word_end(s, i) > i,
    decreases s.len() - i,
{
    if i < s.len() && !crate::text::is_ws(s[i]) {
        lemma_word_end(s, i + 1);
    }
}

/// `str::split_whitespace`.
pub open spec fn words(s: Seq<char>) -> Seq<Seq<char>> {
    words_from(s, 0)
}

/// Splits text at whitespace (`str::split_whitespace`).
pub fn split_words(s: &[char]) -> (r: Vec<Vec<char>>)
    ensures
        r@.map_values(|p: Vec<char>| p@) == words(s@),
{
    let mut out: Vec<Vec<char>> = Vec::new();
    let mut i: usize = 0;
    proof {
        assert(out@.map_values(|p: Vec<char>| p@) =~= Seq::<Seq<char>>::empty());
    }
    while i < s.len()
        invariant
            i <= s@.len(),
            words(s@) == out@.map_values(|p: Vec<char>| p@) + words_from(s@, i as int),
        decreases s@.len() - i,
    {
        if crate::text::is_whitespace(s[i]) {
            i = i + 1;
        } else {
            let mut e = i;
            while e < s.len() && !crate::text::is_whitespace(s[e])
                invariant
                    i <= e <= s@.len(),
                    word_end(s@, i as int) == word_end(s@, e as int),
                decreases s@.len() - e,
            {
                e = e + 1;
            }
            proof {
                lemma_word_end(s@, i as int);
            }
            let ghost before = out@.map_values(|p: Vec<char>| p@);
            out.push(copy_range(s, i, e));
            proof {
                assert(out@.map_values(|p: Vec<char>| p@) =~= before.push(s@.subrange(i as int, e as int)));
                assert(before + words_from(s@, i as int) =~= out@.map_values(|p: Vec<char>| p@)
                    + words_from(s@, e as int));
            }
            i = e;
        }
    }
    proof {
        assert(out@.map_values(|p: Vec<char>| p@) + words_from(s@, i as int) =~= out@.map_values(
            |p: Vec<char>| p@,
        ));
    }
    out
}

/// Whether Git's `ls-tree -z` record (decoded) names exactly one regular
/// blob at `path`, and otherwise why not.
pub open spec fn ls_tree_record_check(text: Seq<char>, path: Seq<char>) -> Result<(), Seq<char>> {
    if !ends_with(text, seq!['\0']) {
        Err("source path does not exist: "@ + path)
    } else {
        let record = text.drop_last();
        if record.contains('\0') {
            Err("source path resolved to multiple Git entries: "@ + path)
        } else {
            match crate::text::find_from(record, 0, seq!['\t']) {
                None => Err("unexpected git ls-tree output"@),
                Some(k) => {
                    let fields = words(record.subrange(0, k));
                    let returned = record.subrange(k + 1, record.len() as int);
                    if fields.len() != 3 {
                        Err("unexpected git ls-tree header"@)
                    } else if returned != path || fields[1] != "blob"@ || !(fields[0] == "100644"@
                        || fields[0] == "100755"@) {
                        Err("source path must be an exact regular Git blob: "@ + path)
                    } else {
                        Ok(())
                    }
                },
            }
        }
    }
}

/// The whole check of `git ls-tree -z` output, decoding included.
pub open spec fn ls_tree_check(out: Seq<u8>, path: Seq<char>) -> Result<(), Seq<char>> {
    if !vstd::utf8::valid_utf8(out) {
        Err("git ls-tree returned non-UTF-8 data: "@ + utf8_error_text(out))
    } else {
        ls_tree_record_check(vstd::utf8::decode_utf8(out), path)
    }
}

/// Checks what `git ls-tree -z <commit> -- <path>` printed.
pub fn check_ls_tree_output(out: &[u8], path: &[char]) -> (r: Result<(), PackError>)
    ensures
        pres(r) == ls_tree_check(out@, path@),
{
    let text = match decode_utf8_text(out) {
        Err(m) => {
            proof {
                reveal_strlit("git ls-tree returned non-UTF-8 data");
                reveal_strlit(": ");
                reveal_strlit("git ls-tree returned non-UTF-8 data: ");
                assert("git ls-tree returned non-UTF-8 data"@ + ": "@ =~= "git ls-tree returned non-UTF-8 data: "@);
            }
            return Err(PackError::with_context("git ls-tree returned non-UTF-8 data", m.as_slice()));
        },
        Ok(t) => t,
    };
    let mut nul: Vec<char> = Vec::new();
    nul.push('\0');
    proof {
        assert(nul@ =~= seq!['\0']);
    }
    if !ends_with_exec(text.as_slice(), nul.as_slice()) {
        return Err(path_error("source path does not exist: ", path));
    }
    let record = copy_range(text.as_slice(), 0, text.len() - 1);
    proof {
        assert(record@ =~= text@.drop_last());
    }
    if has_char(record.as_slice(), '\0') {
        return Err(path_error("source path resolved to multiple Git entries: ", path));
    }
    let mut tab: Vec<char> = Vec::new();
    tab.push('\t');
    proof {
        assert(tab@ =~= seq!['\t']);
    }
    let k = match crate::text::find_from_exec(record.as_slice(), 0, tab.as_slice()) {
        None => {
            return Err(PackError::new("unexpected git ls-tree output"));
        },
        Some(k) => k,
    };
    proof {
        crate::text::lemma_find_from(record@, 0, seq!['\t']);
    }
    let header = copy_range(record.as_slice(), 0, k);
    let returned = copy_range(record.as_slice(), k + 1, record.len());
    let fields = split_words(header.as_slice());
    if fields.len() != 3 {
        return Err(PackError::new("unexpected git ls-tree header"));
    }
    let blob = chars_of("blob");
    let m1 = chars_of("100644");
    let m2 = chars_of("100755");
    if !eq_chars(returned.as_slice(), path) || !eq_chars(fields[1].as_slice(), blob.as_slice())
        || !(eq_chars(fields[0].as_slice(), m1.as_slice()) || eq_chars(
        fields[0].as_slice(),
        m2.as_slice(),
    )) {
        return Err(path_error("source path must be an exact regular Git blob: ", path));
    }
    Ok(())
}

fn path_error(prefix: &str, path: &[char]) -> (e: PackError)
    ensures
        e@ == prefix@ + path@,
{
    let mut msg: Vec<char> = Vec::new();
    push_str(&mut msg, prefix);
    push_all(&mut msg, path);
    PackError::from_chars(msg.as_slice())
}

/// Text decoded from bytes with invalid sequences replaced
/// (`String::from_utf8_lossy`).
pub uninterp spec fn utf8_lossy_text(bytes: Seq<u8>) -> Seq<char>;

/// Decodes bytes with `String::from_utf8_lossy`; the text is named by
/// [`utf8_lossy_text`].
#[verifier::external_body]
fn decode_lossy(bytes: &[u8]) -> (r: Vec<char>)
    ensures
        r@ == utf8_lossy_text(bytes@),
{
    String::from_utf8_lossy(bytes).chars().collect()
}

/// The error for a failed process: the context and its trimmed standard error.
pub open spec fn failure_text(context: Seq<char>, stderr: Seq<u8>) -> Seq<char> {
    context + ": "@ + crate::text::trim(utf8_lossy_text(stderr))
}

/// Passes a successful process and reports a failed one with its stderr.
pub fn require_success(success: bool, context: &[char], stderr: &[u8]) -> (r: Result<(), PackError>)
    ensures
        r is Ok <==> success,
        r matches Err(e) ==> e@ == failure_text(context@, stderr@),
{
    if success {
        return Ok(());
    }
    let detail = decode_lossy(stderr);
    let trimmed = crate::text::trimmed(detail.as_slice());
    let mut msg: Vec<char> = Vec::new();
    push_all(&mut msg, context);
    push_str(&mut msg, ": ");
    push_all(&mut msg, trimmed.as_slice());
    Err(PackError::from_chars(msg.as_slice()))
}

/// Which manifest to pack, from which project, into which directory.
pub struct BuildRequest {
    project_root: String,
    manifest_path: String,
    output_directory: String,
}

impl BuildRequest {
    pub closed spec fn project_root_view(self) -> Seq<char> {
        self.project_root@
    }

    pub closed spec fn manifest_path_view(self) -> Seq<char> {
        self.manifest_path@
    }

    pub closed spec fn output_directory_view(self) -> Seq<char> {
        self.output_directory@
    }

    pub fn new(project_root: &str, manifest_path: &str, output_directory: &str) -> (r: Self)
        ensures
            r.project_root_view() == project_root@,
            r.manifest_path_view() == manifest_path@,
            r.output_directory_view() == output_directory@,
    {
        BuildRequest {
            project_root: String::from_str(project_root),
            manifest_path: String::from_str(manifest_path),
            output_directory: String::from_str(output_directory),
        }
    }

    pub fn project_root(&self) -> (r: &str)
        ensures
            r@ == self.project_root_view(),
    {
        self.project_root.as_str()
    }

    pub fn manifest_path(&self) -> (r: &str)
        ensures
            r@ == self.manifest_path_view(),
    {
        self.manifest_path.as_str()
    }

    pub fn output_directory(&self) -> (r: &str)
        ensures
            r@ == self.output_directory_view(),
    {
        self.output_directory.as_str()
    }
}

/// A built and verified pack: its archive, checksum file, source commit and
/// the number of commands that ran inside it.
pub struct BuildReport {
    archive_path: String,
    checksum_path: String,
    source_commit: String,
    verified_command_count: usize,
}

impl BuildReport {
    pub closed spec fn archive_view(self) -> Seq<char> {
        self.archive_path@
    }

    pub closed spec fn checksum_view(self) -> Seq<char> {
        self.checksum_path@
    }

    pub closed spec fn commit_view(self) -> Seq<char> {
        self.source_commit@
    }

    pub closed spec fn commands(self) -> usize {
        self.verified_command_count
    }

    pub fn new(archive_path: &str, checksum_path: &str, source_commit: &str, verified_command_count: usize) -> (r:
        Self)
        ensures
            r.archive_view() == archive_path@,
            r.checksum_view() == checksum_path@,
            r.commit_view() == source_commit@,
            r.commands() == verified_command_count,
    {
        BuildReport {
            archive_path: String::from_str(archive_path),
            checksum_path: String::from_str(checksum_path),
            source_commit: String::from_str(source_commit),
            verified_command_count,
        }
    }

    pub fn archive_path(&self) -> (r: &str)
        ensures
            r@ == self.archive_view(),
    {
        self.archive_path.as_str()
    }

    pub fn checksum_path(&self) -> (r: &str)
        ensures
            r@ == self.checksum_view(),
    {
        self.checksum_path.as_str()
    }

    pub fn source_commit(&self) -> (r: &str)
        ensures
            r@ == self.commit_view(),
    {
        self.source_commit.as_str()
    }

    pub fn verified_command_count(&self) -> (r: usize)
        ensures
            r == self.commands(),
    {
        self.verified_command_count
    }
}

/// The name of an archive's checksum file: the archive's name and `.sha256`.
pub fn checksum_name(archive_name: &str) -> (r: String)
    ensures
        r@ == archive_name@ + ".sha256"@,
{
    let mut out: Vec<char> = Vec::new();
    push_str(&mut out, archive_name);
    push_str(&mut out, ".sha256");
    string_of(out.as_slice())
}

/// Refuses a resolved path outside the project root.
pub fn require_within(path: &str, root: &str, label: &str) -> (r: Result<(), PackError>)
    ensures
        r is Ok <==> crate::paths::path_within(path@, root@),
        r matches Err(e) ==> e@ == label@ + " resolves outside the project root"@,
{
    let p = chars_of(path);
    let q = chars_of(root);
    if !crate::paths::is_within(p.as_slice(), q.as_slice()) {
        let mut msg: Vec<char> = Vec::new();
        push_str(&mut msg, label);
        push_str(&mut msg, " resolves outside the project root");
        return Err(PackError::from_chars(msg.as_slice()));
    }
    Ok(())
}

} // verus!
