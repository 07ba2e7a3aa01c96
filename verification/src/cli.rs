//! The harness command line: the event lines it prints, the `--doctor`
//! report on the pinned and active toolchain, and the choice between them.
use vstd::prelude::*;

use crate::text::{
    chars_of, copy_range, debug_quoted, debug_str, decimal, eq_chars, find_from, find_from_exec,
    join, join_exec, lemma_find_from, lines, lines_exec, push_all, push_str, string_of, trim,
    trimmed,
};
use crate::turn::{Event, Item, ItemId, ThreadId, TurnId};
use crate::text::matches_at;

verus! {

pub open spec fn thread_label(n: u64) -> Seq<char> {
    "thread-"@ + decimal(n as nat)
}

pub open spec fn turn_label(n: u64) -> Seq<char> {
    "turn-"@ + decimal(n as nat)
}

pub open spec fn item_label(n: u64) -> Seq<char> {
    "item-"@ + decimal(n as nat)
}

/// The line printed for an event.
pub open spec fn event_line(e: Event) -> Seq<char> {
    match e {
        Event::ThreadStarted { thread_id } => "thread/started thread="@ + thread_label(
            thread_id.value(),
        ),
        Event::TurnStarted { thread_id, turn_id } => "turn/started thread="@ + thread_label(
            thread_id.value(),
        ) + " turn="@ + turn_label(turn_id.value()),
        Event::ItemCompleted { thread_id, turn_id, item } => "item/completed thread="@
            + thread_label(thread_id.value()) + " turn="@ + turn_label(turn_id.value()) + match item {
            Item::User { id, text } => " item="@ + item_label(id.value()) + " role=user text="@
                + debug_quoted(text@),
            Item::Assistant { id, text } => " item="@ + item_label(id.value())
                + " role=assistant text="@ + debug_quoted(text@),
        },
        Event::TurnCompleted { thread_id, turn_id } => "turn/completed thread="@ + thread_label(
            thread_id.value(),
        ) + " turn="@ + turn_label(turn_id.value()),
    }
}

/// Writes the line printed for an event.
pub fn render_event(e: &Event) -> (r: String)
    ensures
        r@ == event_line(*e),
{
    let mut out: Vec<char> = Vec::new();
    match e {
        Event::ThreadStarted { thread_id } => {
            push_str(&mut out, "thread/started thread=");
            push_str(&mut out, thread_id.label().as_str());
        },
        Event::TurnStarted { thread_id, turn_id } => {
            push_str(&mut out, "turn/started thread=");
            push_str(&mut out, thread_id.label().as_str());
            push_str(&mut out, " turn=");
            push_str(&mut out, turn_id.label().as_str());
        },
        Event::ItemCompleted { thread_id, turn_id, item } => {
            push_str(&mut out, "item/completed thread=");
            push_str(&mut out, thread_id.label().as_str());
            push_str(&mut out, " turn=");
            push_str(&mut out, turn_id.label().as_str());
            match item {
                Item::User { id, text } => {
                    push_str(&mut out, " item=");
                    push_str(&mut out, id.label().as_str());
                    push_str(&mut out, " role=user text=");
                    let t = chars_of(text.as_str());
                    let q = debug_str(t.as_slice());
                    push_all(&mut out, q.as_slice());
                },
                Item::Assistant { id, text } => {
                    push_str(&mut out, " item=");
                    push_str(&mut out, id.label().as_str());
                    push_str(&mut out, " role=assistant text=");
                    let t = chars_of(text.as_str());
                    let q = debug_str(t.as_slice());
                    push_all(&mut out, q.as_slice());
                },
            }
        },
        Event::TurnCompleted { thread_id, turn_id } => {
            push_str(&mut out, "turn/completed thread=");
            push_str(&mut out, thread_id.label().as_str());
            push_str(&mut out, " turn=");
            push_str(&mut out, turn_id.label().as_str());
        },
    }
    proof {
        assert(out@ =~= event_line(*e));
    }
    string_of(out.as_slice())
}

/// What the harness was asked to do.
pub enum CliMode {
    /// Report on the toolchain.
    Doctor,
    /// Run one turn with this prompt.
    Prompt(String),
}

/// `--doctor` alone asks for the report; anything else is a prompt, the
/// arguments joined by spaces.
pub fn cli_mode(args: &Vec<String>) -> (r: CliMode)
    ensures
        match r {
            CliMode::Doctor => args@.len() == 1 && args@[0]@ == "--doctor"@,
            CliMode::Prompt(p) => !(args@.len() == 1 && args@[0]@ == "--doctor"@) && p@ == join(
                Seq::new(args@.len(), |k: int| args@[k]@),
                " "@,
            ),
        },
{
    if args.len() == 1 {
        let a = chars_of(args[0].as_str());
        let d = chars_of("--doctor");
        if eq_chars(a.as_slice(), d.as_slice()) {
            return CliMode::Doctor;
        }
    }
    let mut parts: Vec<Vec<char>> = Vec::new();
    let mut k: usize = 0;
    while k < args.len()
        invariant
            k <= args@.len(),
            parts@.len() == k,
            forall|j: int| 0 <= j < k ==> #[trigger] parts@[j]@ == args@[j]@,
        decreases args@.len() - k,
    {
        parts.push(chars_of(args[k].as_str()));
        k = k + 1;
    }
    proof {
        assert(parts@.map_values(|p: Vec<char>| p@) =~= Seq::new(args@.len(), |k: int| args@[k]@));
    }
    let sp = chars_of(" ");
    let joined = join_exec(&parts, sp.as_slice());
    CliMode::Prompt(string_of(joined.as_slice()))
}

/// Why the doctor could not report.
pub enum DoctorError {
    CurrentDirectory,
    WorkspaceNotFound,
    ReadSource { path: String },
    MissingValue(String),
    CommandIo { program: String },
    CommandFailed(String),
    InvalidUtf8 { program: String },
    InvalidVersionOutput(String),
}

pub open spec fn doctor_message(e: DoctorError) -> Seq<char> {
    match e {
        DoctorError::CurrentDirectory => "could not read the current directory"@,
        DoctorError::WorkspaceNotFound => "could not find the rust-harness-book workspace"@,
        DoctorError::ReadSource { path } => "could not read "@ + path@,
        DoctorError::MissingValue(key) => "missing source-controlled value: "@ + key@,
        DoctorError::CommandIo { program } => "could not run "@ + program@ + " --version"@,
        DoctorError::CommandFailed(program) => program@ + " --version returned a failure status"@,
        DoctorError::InvalidUtf8 { program } => program@ + " --version returned non-UTF-8 output"@,
        DoctorError::InvalidVersionOutput(program) => program@
            + " --version returned an unexpected format"@,
    }
}

impl DoctorError {
    /// The sentence shown to people.
    pub fn message(&self) -> (r: String)
        ensures
            r@ == doctor_message(*self),
    {
        let mut out: Vec<char> = Vec::new();
        match self {
            DoctorError::CurrentDirectory => push_str(&mut out, "could not read the current directory"),
            DoctorError::WorkspaceNotFound => push_str(
                &mut out,
                "could not find the rust-harness-book workspace",
            ),
            DoctorError::ReadSource { path } => {
                push_str(&mut out, "could not read ");
                push_str(&mut out, path.as_str());
            },
            DoctorError::MissingValue(key) => {
                push_str(&mut out, "missing source-controlled value: ");
                push_str(&mut out, key.as_str());
            },
            DoctorError::CommandIo { program } => {
                push_str(&mut out, "could not run ");
                push_str(&mut out, program.as_str());
                push_str(&mut out, " --version");
            },
            DoctorError::CommandFailed(program) => {
                push_str(&mut out, program.as_str());
                push_str(&mut out, " --version returned a failure status");
            },
            DoctorError::InvalidUtf8 { program } => {
                push_str(&mut out, program.as_str());
                push_str(&mut out, " --version returned non-UTF-8 output");
            },
            DoctorError::InvalidVersionOutput(program) => {
                push_str(&mut out, program.as_str());
                push_str(&mut out, " --version returned an unexpected format");
            },
        }
        proof {
            assert(out@ =~= doctor_message(*self));
        }
        string_of(out.as_slice())
    }
}

/// The part of a line before its first `#`.
pub open spec fn before_hash(l: Seq<char>) -> Seq<char> {
    match find_from(l, 0, "#"@) {
        Some(k) => l.subrange(0, k),
        None => l,
    }
}

/// The value of `key` in a line, if the line sets `key`.
pub open spec fn line_value(l: Seq<char>, key: Seq<char>) -> Option<Seq<char>> {
    let c = before_hash(l);
    match find_from(c, 0, "="@) {
        None => None,
        Some(k) => if trim(c.subrange(0, k)) == key {
            Some(crate::parser::trim_char(trim(c.subrange(k + 1, c.len() as int)), '"'))
        } else {
            None
        },
    }
}

/// The value of the first line of `ls` (from `i`) that sets `key`.
pub open spec fn first_value(ls: Seq<Seq<char>>, i: int, key: Seq<char>) -> Option<Seq<char>>
    decreases ls.len() - i,
{
    if i < 0 || i >= ls.len() {
        None
    } else {
        match line_value(ls[i], key) {
            Some(v) => Some(v),
            None => first_value(ls, i + 1, key),
        }
    }
}

/// A `key = "value"` setting of a TOML file read line by line: the first
/// line that sets the key decides, and an empty value counts as missing.
pub open spec fn quoted_value_spec(text: Seq<char>, key: Seq<char>) -> Option<Seq<char>> {
    match first_value(lines(text), 0, key) {
        Some(v) => if v.len() == 0 {
            None
        } else {
            Some(v)
        },
        None => None,
    }
}

fn line_value_exec(l: &[char], key: &[char]) -> (r: Option<Vec<char>>)
    ensures
        match r {
            Some(v) => line_value(l@, key@) == Some(v@),
            None => line_value(l@, key@) is None,
        },
{
    proof {
        reveal_strlit("#");
        reveal_strlit("=");
    }
    let hash = chars_of("#");
    let c = match find_from_exec(l, 0, hash.as_slice()) {
        Some(k) => {
            proof {
                lemma_find_from(l@, 0, "#"@);
            }
            copy_range(l, 0, k)
        },
        None => copy_range(l, 0, l.len()),
    };
    proof {
        assert(c@ =~= before_hash(l@));
    }
    let eq = chars_of("=");
    let _n = c.len();
    match find_from_exec(c.as_slice(), 0, eq.as_slice()) {
        None => None,
        Some(k) => {
            proof {
                lemma_find_from(c@, 0, "="@);
            }
            let kraw = copy_range(c.as_slice(), 0, k);
            let kt = trimmed(kraw.as_slice());
            if eq_chars(kt.as_slice(), key) {
                let vraw = copy_range(c.as_slice(), k + 1, c.len());
                let vt = trimmed(vraw.as_slice());
                Some(crate::parser::trim_char_exec(vt.as_slice(), '"'))
            } else {
                None
            }
        },
    }
}

/// Reads a `key = "value"` setting (see [`quoted_value_spec`]).
pub fn quoted_value(text: &str, key: &str) -> (r: Result<String, DoctorError>)
    ensures
        match r {
            Ok(v) => quoted_value_spec(text@, key@) == Some(v@),
            Err(e) => quoted_value_spec(text@, key@) is None && e is MissingValue
                && e->MissingValue_0@ == key@,
        },
{
    let tc = chars_of(text);
    let kc = chars_of(key);
    let ls = lines_exec(tc.as_slice());
    let ghost lv = lines(tc@);
    let mut i: usize = 0;
    while i < ls.len()
        invariant
            i <= ls@.len(),
            lv == lines(tc@),
            tc@ == text@,
            kc@ == key@,
            ls@.len() == lv.len(),
            forall|k: int| 0 <= k < ls@.len() ==> #[trigger] ls@[k]@ == lv[k],
            first_value(lv, 0, key@) == first_value(lv, i as int, key@),
        decreases ls@.len() - i,
    {
        proof {
            assert(ls@[i as int]@ == lv[i as int]);
        }
        match line_value_exec(ls[i].as_slice(), kc.as_slice()) {
            Some(v) => {
                if v.len() == 0 {
                    return Err(DoctorError::MissingValue(String::from_str(key)));
                }
                return Ok(string_of(v.as_slice()));
            },
            None => {},
        }
        i = i + 1;
    }
    Err(DoctorError::MissingValue(String::from_str(key)))
}

/// The version a `--version` line reports: its second word.
pub open spec fn version_word(out: Seq<u8>) -> Option<Seq<char>> {
    let w = crate::pack::words(vstd::utf8::decode_utf8(out));
    if w.len() >= 2 {
        Some(w[1])
    } else {
        None
    }
}

/// What `<program> --version` tells the doctor, given whether it succeeded
/// and what it printed: the version, or the message of the failure.
pub open spec fn version_spec(success: bool, out: Seq<u8>, program: Seq<char>) -> Result<
    Seq<char>,
    Seq<char>,
> {
    if !success {
        Err(program + " --version returned a failure status"@)
    } else if !vstd::utf8::valid_utf8(out) {
        Err(program + " --version returned non-UTF-8 output"@)
    } else {
        match version_word(out) {
            Some(v) => Ok(v),
            None => Err(program + " --version returned an unexpected format"@),
        }
    }
}

/// Reads the version from a `--version` run (see [`version_spec`]).
pub fn version_from_output(success: bool, out: &[u8], program: &str) -> (r: Result<String, DoctorError>)
    ensures
        match r {
            Ok(v) => version_spec(success, out@, program@) == Ok::<Seq<char>, Seq<char>>(v@),
            Err(e) => version_spec(success, out@, program@) == Err::<Seq<char>, Seq<char>>(
                doctor_message(e),
            ),
        },
{
    if !success {
        return Err(DoctorError::CommandFailed(String::from_str(program)));
    }
    let text = match crate::pack::decode_utf8_text(out) {
        Err(_) => {
            return Err(DoctorError::InvalidUtf8 { program: String::from_str(program) });
        },
        Ok(t) => t,
    };
    let w = crate::pack::split_words(text.as_slice());
    if w.len() < 2 {
        return Err(DoctorError::InvalidVersionOutput(String::from_str(program)));
    }
    Ok(string_of(w[1].as_slice()))
}

/// What the doctor compares: the pinned toolchain, the active tools, and
/// the workspace settings.
pub struct ToolchainReport {
    pub pinned_rust: String,
    pub active_rustc: String,
    pub active_cargo: String,
    pub edition: String,
    pub resolver: String,
    pub lockfile_present: bool,
}

/// The active compiler and Cargo are the pinned release, and the lockfile is there.
pub open spec fn report_matches(r: ToolchainReport) -> bool {
    r.active_rustc@ == r.pinned_rust@ && r.active_cargo@ == r.pinned_rust@ && r.lockfile_present
}

/// The report as printed, one `name value` line each.
pub open spec fn report_text(r: ToolchainReport) -> Seq<char> {
    "toolchain/status "@ + (if report_matches(r) {
        "ok"@
    } else {
        "mismatch"@
    }) + "\nrust/pinned "@ + r.pinned_rust@ + "\nrustc/active "@ + r.active_rustc@
        + "\ncargo/active "@ + r.active_cargo@ + "\nedition "@ + r.edition@ + "\nresolver "@
        + r.resolver@ + "\nlockfile "@ + (if r.lockfile_present {
        "present"@
    } else {
        "missing"@
    }) + "\n"@
}

impl ToolchainReport {
    /// Whether the active toolchain is the pinned one (see [`report_matches`]).
    pub fn is_match(&self) -> (b: bool)
        ensures
            b == report_matches(*self),
    {
        let p = chars_of(self.pinned_rust.as_str());
        let a = chars_of(self.active_rustc.as_str());
        let c = chars_of(self.active_cargo.as_str());
        eq_chars(a.as_slice(), p.as_slice()) && eq_chars(c.as_slice(), p.as_slice())
            && self.lockfile_present
    }

    /// The printed report (see [`report_text`]).
    pub fn render(&self) -> (r: String)
        ensures
            r@ == report_text(*self),
    {
        let mut out: Vec<char> = Vec::new();
        push_str(&mut out, "toolchain/status ");
        if self.is_match() {
            push_str(&mut out, "ok");
        } else {
            push_str(&mut out, "mismatch");
        }
        push_str(&mut out, "\nrust/pinned ");
        push_str(&mut out, self.pinned_rust.as_str());
        push_str(&mut out, "\nrustc/active ");
        push_str(&mut out, self.active_rustc.as_str());
        push_str(&mut out, "\ncargo/active ");
        push_str(&mut out, self.active_cargo.as_str());
        push_str(&mut out, "\nedition ");
        push_str(&mut out, self.edition.as_str());
        push_str(&mut out, "\nresolver ");
        push_str(&mut out, self.resolver.as_str());
        push_str(&mut out, "\nlockfile ");
        if self.lockfile_present {
            push_str(&mut out, "present");
        } else {
            push_str(&mut out, "missing");
        }
        push_str(&mut out, "\n");
        proof {
            assert(out@ =~= report_text(*self));
        }
        string_of(out.as_slice())
    }

    /// Assembles the report from the two workspace files and the two
    /// `--version` results, in the order the doctor reads them: the pinned
    /// channel, `rustc`, `cargo`, the edition, then the resolver.
    pub fn from_sources(
        toolchain: &str,
        manifest: &str,
        rustc: Result<String, DoctorError>,
        cargo: Result<String, DoctorError>,
        lockfile_present: bool,
    ) -> (r: Result<ToolchainReport, DoctorError>)
        ensures
            match r {
                Ok(rep) => {
                    &&& quoted_value_spec(toolchain@, "channel"@) == Some(rep.pinned_rust@)
                    &&& rustc is Ok && rustc->Ok_0@ == rep.active_rustc@
                    &&& cargo is Ok && cargo->Ok_0@ == rep.active_cargo@
                    &&& quoted_value_spec(manifest@, "edition"@) == Some(rep.edition@)
                    &&& quoted_value_spec(manifest@, "resolver"@) == Some(rep.resolver@)
                    &&& rep.lockfile_present == lockfile_present
                },
                Err(e) => {
                    ||| (quoted_value_spec(toolchain@, "channel"@) is None && e is MissingValue
                        && e->MissingValue_0@ == "channel"@)
                    ||| (quoted_value_spec(toolchain@, "channel"@) is Some && rustc is Err
                        && doctor_message(e) == doctor_message(rustc->Err_0))
                    ||| (quoted_value_spec(toolchain@, "channel"@) is Some && rustc is Ok
                        && cargo is Err && doctor_message(e) == doctor_message(cargo->Err_0))
                    ||| (quoted_value_spec(toolchain@, "channel"@) is Some && rustc is Ok
                        && cargo is Ok && quoted_value_spec(manifest@, "edition"@) is None
                        && e is MissingValue && e->MissingValue_0@ == "edition"@)
                    ||| (quoted_value_spec(toolchain@, "channel"@) is Some && rustc is Ok
                        && cargo is Ok && quoted_value_spec(manifest@, "edition"@) is Some
                        && quoted_value_spec(manifest@, "resolver"@) is None && e is MissingValue
                        && e->MissingValue_0@ == "resolver"@)
                },
            },
    {
        let pinned_rust = match quoted_value(toolchain, "channel") {
            Err(e) => {
                return Err(e);
            },
            Ok(v) => v,
        };
        let active_rustc = match rustc {
            Err(e) => {
                return Err(e);
            },
            Ok(v) => v,
        };
        let active_cargo = match cargo {
            Err(e) => {
                return Err(e);
            },
            Ok(v) => v,
        };
        let edition = match quoted_value(manifest, "edition") {
            Err(e) => {
                return Err(e);
            },
            Ok(v) => v,
        };
        let resolver = match quoted_value(manifest, "resolver") {
            Err(e) => {
                return Err(e);
            },
            Ok(v) => v,
        };
        Ok(ToolchainReport {
            pinned_rust,
            active_rustc,
            active_cargo,
            edition,
            resolver,
            lockfile_present,
        })
    }
}

/// The line of an item names its role: a user item's line holds
/// ` role=user text=` and an assistant item's line ` role=assistant text=`,
/// so the two lines for the same ids and text always differ.
pub proof fn law_item_lines_name_the_role(thread_id: ThreadId, turn_id: TurnId, id: ItemId, text: String)
    ensures
        ({
            let user = event_line(Event::ItemCompleted { thread_id, turn_id, item: Item::User { id, text } });
            exists|k: int| matches_at(user, k, " role=user text="@)
        }),
        ({
            let assistant = event_line(
                Event::ItemCompleted { thread_id, turn_id, item: Item::Assistant { id, text } },
            );
            exists|k: int| matches_at(assistant, k, " role=assistant text="@)
        }),
        event_line(Event::ItemCompleted { thread_id, turn_id, item: Item::User { id, text } })
            != event_line(
            Event::ItemCompleted { thread_id, turn_id, item: Item::Assistant { id, text } },
        ),
{
    reveal_strlit(" role=user text=");
    reveal_strlit(" role=assistant text=");
    let pre = "item/completed thread="@ + thread_label(thread_id.value()) + " turn="@ + turn_label(
        turn_id.value(),
    ) + " item="@ + item_label(id.value());
    let u = " role=user text="@;
    let a = " role=assistant text="@;
    let q = debug_quoted(text@);
    let user = event_line(Event::ItemCompleted { thread_id, turn_id, item: Item::User { id, text } });
    let assistant = event_line(
        Event::ItemCompleted { thread_id, turn_id, item: Item::Assistant { id, text } },
    );
    assert(user =~= pre + u + q);
    assert(assistant =~= pre + a + q);
    assert(user.subrange(pre.len() as int, pre.len() + u.len() as int) =~= u);
    assert(matches_at(user, pre.len() as int, u));
    assert(assistant.subrange(pre.len() as int, pre.len() + a.len() as int) =~= a);
    assert(matches_at(assistant, pre.len() as int, a));
    assert(user[pre.len() as int + 6] == 'u');
    assert(assistant[pre.len() as int + 6] == 'a');
}

} // verus!
