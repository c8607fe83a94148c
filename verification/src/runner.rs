//! The decisions around running a cached script: the command line, when a
//! run has taken too long, and what a finished run reports.

use vstd::prelude::*;

use crate::models::opt_view;
use crate::text::{decimal, digits_value, is_digit, lemma_decimal, push_char, push_str, u64_string, views};

verus! {

/// The interpreter to use: the script's own, else the default.
pub open spec fn chosen_interpreter(interpreter: Option<Seq<char>>, default: Seq<char>) -> Seq<char> {
    match interpreter {
        Some(i) => i,
        None => default,
    }
}

/// The command that runs a script: interpreter, script path, then the
/// arguments.
pub fn build_run_command(
    interpreter: Option<String>,
    default_interpreter: &str,
    script_path: String,
    args: &[String],
) -> (cmd: Vec<String>)
    ensures
        views(cmd@) == seq![
            chosen_interpreter(opt_view(interpreter), default_interpreter@),
            script_path@,
        ] + views(args@),
{
    let mut cmd: Vec<String> = Vec::new();
    match interpreter {
        Some(i) => cmd.push(i),
        None => cmd.push(String::from_str(default_interpreter)),
    }
    cmd.push(script_path);
    let mut i: usize = 0;
    while i < args.len()
        invariant
            i <= args.len(),
            views(cmd@) == seq![
                chosen_interpreter(opt_view(interpreter), default_interpreter@),
                script_path@,
            ] + views(args@).take(i as int),
        decreases args.len() - i,
    {
        let a = args[i].clone();
        let ghost before = cmd@;
        cmd.push(a);
        assert(views(cmd@) =~= views(before).push(args@[i as int]@));
        assert(views(args@).take(i + 1) =~= views(args@).take(i as int).push(args@[i as int]@));
        i = i + 1;
        assert(views(cmd@) =~= seq![
            chosen_interpreter(opt_view(interpreter), default_interpreter@),
            script_path@,
        ] + views(args@).take(i as int));
    }
    assert(views(args@).take(args.len() as int) =~= views(args@));
    cmd
}

/// A run is stopped once it has lasted its timeout; a timeout of zero stops
/// it at once.
pub open spec fn must_stop(timeout_secs: u64, elapsed_secs: u64, elapsed_nanos: u32) -> bool {
    timeout_secs == 0 || elapsed_secs >= timeout_secs
}

/// Decides whether a run that has lasted `elapsed_secs` seconds and
/// `elapsed_nanos` nanoseconds has reached its timeout.
pub fn timed_out(timeout_secs: u64, elapsed_secs: u64, elapsed_nanos: u32) -> (b: bool)
    ensures
        b == must_stop(timeout_secs, elapsed_secs, elapsed_nanos),
{
    timeout_secs == 0 || elapsed_secs >= timeout_secs
}

/// A run is stopped exactly when the time it has lasted reaches its
/// timeout, comparing durations to the nanosecond (`elapsed >= timeout`,
/// with the timeout a whole number of seconds): never before, always from
/// then on, and later moments stay stopped.
pub proof fn lemma_stop_at_timeout(
    timeout_secs: u64,
    elapsed_secs: u64,
    elapsed_nanos: u32,
    later_secs: u64,
    later_nanos: u32,
)
    requires
        elapsed_nanos < 1_000_000_000,
        later_nanos < 1_000_000_000,
    ensures
        must_stop(timeout_secs, elapsed_secs, elapsed_nanos) <==> elapsed_secs * 1_000_000_000
            + elapsed_nanos >= timeout_secs * 1_000_000_000,
        timeout_secs > 0 && elapsed_secs < timeout_secs ==> !must_stop(
            timeout_secs,
            elapsed_secs,
            elapsed_nanos,
        ),
        elapsed_secs >= timeout_secs ==> must_stop(timeout_secs, elapsed_secs, elapsed_nanos),
        must_stop(timeout_secs, elapsed_secs, elapsed_nanos) && elapsed_secs * 1_000_000_000
            + elapsed_nanos <= later_secs * 1_000_000_000 + later_nanos ==> must_stop(
            timeout_secs,
            later_secs,
            later_nanos,
        ),
{
    assert((elapsed_secs * 1_000_000_000 + elapsed_nanos >= timeout_secs * 1_000_000_000) <==> (
    elapsed_secs >= timeout_secs)) by (nonlinear_arith)
        requires
            elapsed_nanos < 1_000_000_000,
    ;
    assert((later_secs * 1_000_000_000 + later_nanos >= timeout_secs * 1_000_000_000) <==> (
    later_secs >= timeout_secs)) by (nonlinear_arith)
        requires
            later_nanos < 1_000_000_000,
    ;
}

/// What `String::from_utf8_lossy` decodes from some bytes.
pub uninterp spec fn utf8_lossy(bytes: Seq<u8>) -> Seq<char>;

/// Calls `String::from_utf8_lossy`.  Trusted: the text is named
/// `utf8_lossy` of the bytes, and is their plain decoding when they are
/// valid UTF-8, as the std documentation states.
#[verifier::external_body]
fn decode_lossy(bytes: &[u8]) -> (s: String)
    ensures
        s@ == utf8_lossy(bytes@),
        vstd::utf8::valid_utf8(bytes@) ==> s@ == vstd::utf8::decode_utf8(bytes@),
{
    String::from_utf8_lossy(bytes).into_owned()
}

/// What a finished command reports.
#[derive(Clone, Debug)]
pub struct CommandOutput {
    pub exit_code: i32,
    pub stdout: String,
    pub stderr: String,
    pub success: bool,
}

/// `process timed out after <n>s`.
pub open spec fn timeout_note(timeout_secs: u64) -> Seq<char> {
    seq![
        'p', 'r', 'o', 'c', 'e', 's', 's', ' ', 't', 'i', 'm', 'e', 'd', ' ', 'o', 'u', 't', ' ',
        'a', 'f', 't', 'e', 'r', ' ',
    ] + decimal(timeout_secs as nat) + seq!['s']
}

/// The error text of a run: what the command wrote, and for a run that timed
/// out the timeout note on a line of its own.
pub open spec fn reported_stderr(written: Seq<char>, was_timed_out: bool, timeout_secs: u64) -> Seq<
    char,
> {
    if !was_timed_out {
        written
    } else if written.len() > 0 && written.last() != '\n' {
        written.push('\n') + timeout_note(timeout_secs)
    } else {
        written + timeout_note(timeout_secs)
    }
}

/// The error text of a run that did not time out is what the command
/// wrote; for one that timed out it is what the command wrote, then the
/// timeout note on a line of its own: the note ends the text, and comes
/// first or right after a newline.
pub proof fn lemma_reported_stderr(written: Seq<char>, was_timed_out: bool, timeout_secs: u64)
    ensures
        !was_timed_out ==> reported_stderr(written, was_timed_out, timeout_secs) == written,
        ({
            let r = reported_stderr(written, was_timed_out, timeout_secs);
            let note = timeout_note(timeout_secs);
            let start = r.len() - note.len();
            was_timed_out ==> {
                &&& r.len() >= written.len() + note.len()
                &&& r.subrange(0, written.len() as int) == written
                &&& r.subrange(start, r.len() as int) == note
                &&& (start == 0 || r[start - 1] == '\n')
                &&& r.len() <= written.len() + note.len() + 1
            }
        }),
{
    if was_timed_out {
        let r = reported_stderr(written, was_timed_out, timeout_secs);
        let note = timeout_note(timeout_secs);
        if written.len() > 0 && written.last() != '\n' {
            assert(r.subrange(0, written.len() as int) =~= written);
            assert(r.subrange(r.len() - note.len(), r.len() as int) =~= note);
        } else {
            assert(r.subrange(0, written.len() as int) =~= written);
            assert(r.subrange(r.len() - note.len(), r.len() as int) =~= note);
            if written.len() > 0 {
                assert(r[written.len() - 1] == written.last());
            }
        }
    }
}

/// The timeout note names the timeout in decimal seconds:
/// `process timed out after <t>s`.
pub proof fn lemma_timeout_note(timeout_secs: u64)
    ensures
        timeout_note(timeout_secs).len() >= 26,
        timeout_note(timeout_secs).last() == 's',
        digits_value(
            timeout_note(timeout_secs).subrange(24, timeout_note(timeout_secs).len() - 1),
        ) == timeout_secs,
        forall|i: int|
            24 <= i < timeout_note(timeout_secs).len() - 1 ==> is_digit(
                #[trigger] timeout_note(timeout_secs)[i],
            ),
{
    lemma_decimal(timeout_secs as nat);
    let d = decimal(timeout_secs as nat);
    let note = timeout_note(timeout_secs);
    assert(note.subrange(24, note.len() - 1) =~= d);
    assert forall|i: int| 24 <= i < note.len() - 1 implies is_digit(#[trigger] note[i]) by {
        assert(note[i] == d[i - 24]);
    }
}

/// The error text a run reports, from what the command wrote.
pub fn annotate_stderr(written: String, was_timed_out: bool, timeout_secs: u64) -> (r: String)
    ensures
        r@ == reported_stderr(written@, was_timed_out, timeout_secs),
{
    let mut text = written;
    if was_timed_out {
        let n = text.as_str().unicode_len();
        if n > 0 && text.as_str().get_char(n - 1) != '\n' {
            push_char(&mut text, '\n');
        }
        let mut note = String::new();
        push_str(&mut note, "process timed out after ");
        let digits = u64_string(timeout_secs);
        push_str(&mut note, digits.as_str());
        push_char(&mut note, 's');
        proof {
            reveal_strlit("process timed out after ");
        }
        assert(note@ =~= timeout_note(timeout_secs));
        push_str(&mut text, note.as_str());
    }
    assert(text@ =~= reported_stderr(written@, was_timed_out, timeout_secs));
    text
}

/// The report of a finished run from its captured output, its exit status
/// (`exit_code` is `None` when the process ended without one) and whether it
/// was stopped for taking too long.
pub fn finish_command(
    stdout: &[u8],
    stderr: &[u8],
    exit_code: Option<i32>,
    exited_successfully: bool,
    was_timed_out: bool,
    timeout_secs: u64,
) -> (out: CommandOutput)
    ensures
        out.stdout@ == utf8_lossy(stdout@),
        out.stderr@ == reported_stderr(utf8_lossy(stderr@), was_timed_out, timeout_secs),
        out.exit_code == (if was_timed_out {
            -1i32
        } else {
            match exit_code {
                Some(c) => c,
                None => -1i32,
            }
        }),
        out.success == (exited_successfully && !was_timed_out),
{
    let out_text = decode_lossy(stdout);
    let err_text = annotate_stderr(decode_lossy(stderr), was_timed_out, timeout_secs);
    CommandOutput {
        exit_code: if was_timed_out {
            -1
        } else {
            match exit_code {
                Some(c) => c,
                None => -1,
            }
        },
        stdout: out_text,
        stderr: err_text,
        success: exited_successfully && !was_timed_out,
    }
}

} // verus!
