//! The daemon's local protocol: where its state and lock files live, when
//! a client starts a daemon, the token handshake, newline-framed messages
//! and the shutdown acknowledgement.
//!
//! Sockets, files, processes and JSON encoding live around this module.

use crate::config::{join_path, path_join};
use crate::text::{
    append_chars, chars_eq, chars_of, is_white_space, join_chars, join_with, string_of, trim_end_ws, trim_start_ws, trim_string,
    trim_ws,
};
use vstd::prelude::*;

verus! {

/// What the daemon records about itself for clients to find it.
#[derive(Debug, Clone, PartialEq, Eq)]
pub struct DaemonState {
    pub pid: u32,
    pub port: u16,
    pub token: String,
    pub version: String,
    pub started_at_ms: u64,
}

#[derive(Debug, Clone, Copy, PartialEq, Eq, Structural)]
pub enum AutostartReason {
    MissingState,
    StaleState,
}

/// How to start the daemon: the program, its arguments and the variables
/// set for it.
#[derive(Debug, Clone, PartialEq, Eq)]
pub struct DaemonCommandPlan {
    pub program: String,
    pub args: Vec<String>,
    pub env: Vec<(String, String)>,
}

#[derive(Debug, Clone, PartialEq, Eq)]
pub struct DaemonAutostartPlan {
    pub reason: AutostartReason,
    pub command: DaemonCommandPlan,
    pub cleaned_stale_state: bool,
}

#[derive(Debug, Clone, PartialEq, Eq)]
pub struct DaemonControlResponse {
    pub request_id: String,
    pub accepted: bool,
}

// ---------------------------------------------------------------------------
// Where the daemon keeps its files
// ---------------------------------------------------------------------------

/// The daemon directory: `SKILL_SHELF_DAEMON_DIR` as given; on Windows
/// `%LOCALAPPDATA%\skill-shelf`; else `$XDG_DATA_HOME/skill-shelf`, else
/// `$HOME/.local/share/skill-shelf`, else the temporary directory's
/// `skill-shelf`.
pub open spec fn spec_daemon_dir(
    override_dir: Option<Seq<char>>,
    local_app_data: Option<Seq<char>>,
    on_windows: bool,
    xdg_data_home: Option<Seq<char>>,
    home: Option<Seq<char>>,
    temp_dir: Seq<char>,
) -> Seq<char> {
    match override_dir {
        Some(d) => d,
        None => if on_windows && local_app_data is Some {
            path_join(local_app_data->0, "skill-shelf"@)
        } else {
            match xdg_data_home {
                Some(x) => path_join(x, "skill-shelf"@),
                None => match home {
                    Some(h) => path_join(
                        path_join(path_join(h, ".local"@), "share"@),
                        "skill-shelf"@,
                    ),
                    None => path_join(temp_dir, "skill-shelf"@),
                },
            }
        },
    }
}

pub open spec fn opt_view(o: Option<&str>) -> Option<Seq<char>> {
    match o {
        Some(s) => Some(s@),
        None => None,
    }
}

pub fn daemon_dir_from(
    override_dir: Option<&str>,
    local_app_data: Option<&str>,
    on_windows: bool,
    xdg_data_home: Option<&str>,
    home: Option<&str>,
    temp_dir: &str,
) -> (r: String)
    ensures
        r@ == spec_daemon_dir(
            opt_view(override_dir),
            opt_view(local_app_data),
            on_windows,
            opt_view(xdg_data_home),
            opt_view(home),
            temp_dir@,
        ),
{
    if let Some(d) = override_dir {
        return string_of(&chars_of(d));
    }
    if on_windows {
        if let Some(l) = local_app_data {
            return join_path(l, "skill-shelf");
        }
    }
    if let Some(x) = xdg_data_home {
        return join_path(x, "skill-shelf");
    }
    if let Some(h) = home {
        let local = join_path(h, ".local");
        let share = join_path(local.as_str(), "share");
        return join_path(share.as_str(), "skill-shelf");
    }
    join_path(temp_dir, "skill-shelf")
}

/// The state file in the daemon directory.
pub fn default_state_path(daemon_dir: &str) -> (r: String)
    ensures
        r@ == path_join(daemon_dir@, "daemon-state.json"@),
{
    join_path(daemon_dir, "daemon-state.json")
}

/// The lock file in the daemon directory.
pub fn default_lock_path(daemon_dir: &str) -> (r: String)
    ensures
        r@ == path_join(daemon_dir@, "daemon.lock"@),
{
    join_path(daemon_dir, "daemon.lock")
}

// ---------------------------------------------------------------------------
// Starting the daemon
// ---------------------------------------------------------------------------

/// What a client found of the daemon's state file.
#[derive(Debug, Clone, Copy, PartialEq, Eq, Structural)]
pub enum StateProbe {
    /// There is no state file.
    Missing,
    /// The state file named a daemon that is gone, and it was removed.
    CleanedStale,
    /// The state file names a daemon that answers.
    Live,
}

/// The command that starts a daemon over a daemon directory:
/// `<exe> daemon` with `SKILL_SHELF_DAEMON_DIR` set to that directory.
pub open spec fn is_start_command(c: DaemonCommandPlan, daemon_dir: Seq<char>, current_exe: Seq<char>) -> bool {
    &&& c.program@ == current_exe
    &&& c.args@.len() == 1
    &&& c.args@[0]@ == "daemon"@
    &&& c.env@.len() == 1
    &&& c.env@[0].0@ == "SKILL_SHELF_DAEMON_DIR"@
    &&& c.env@[0].1@ == daemon_dir
}

/// Whether and why to start a daemon: when there is no state file, or when
/// the one there was stale and removed; not when a daemon answers.
pub fn plan_daemon_autostart(daemon_dir: &str, current_exe: &str, probe: StateProbe) -> (r: Option<
    DaemonAutostartPlan,
>)
    ensures
        match probe {
            StateProbe::Live => r is None,
            StateProbe::Missing => r is Some && r->0.reason == AutostartReason::MissingState
                && !r->0.cleaned_stale_state && is_start_command(
                r->0.command,
                daemon_dir@,
                current_exe@,
            ),
            StateProbe::CleanedStale => r is Some && r->0.reason == AutostartReason::StaleState
                && r->0.cleaned_stale_state && is_start_command(
                r->0.command,
                daemon_dir@,
                current_exe@,
            ),
        },
{
    let (reason, cleaned) = match probe {
        StateProbe::Live => return None,
        StateProbe::Missing => (AutostartReason::MissingState, false),
        StateProbe::CleanedStale => (AutostartReason::StaleState, true),
    };
    let mut args: Vec<String> = Vec::new();
    args.push(String::from_str("daemon"));
    let mut env: Vec<(String, String)> = Vec::new();
    env.push((String::from_str("SKILL_SHELF_DAEMON_DIR"), string_of(&chars_of(daemon_dir))));
    Some(
        DaemonAutostartPlan {
            reason,
            command: DaemonCommandPlan { program: string_of(&chars_of(current_exe)), args, env },
            cleaned_stale_state: cleaned,
        },
    )
}

/// `n` backslashes.
pub open spec fn backslashes(n: nat) -> Seq<char> {
    Seq::new(n, |_i: int| '\\')
}

/// Whether an argument must be quoted on a Windows command line: it holds
/// a space, a tab or a double quote.
pub open spec fn needs_quotes(s: Seq<char>) -> bool {
    exists|i: int| 0 <= i < s.len() && (s[i] == ' ' || s[i] == '\t' || s[i] == '"')
}

/// The inside of a quoted argument, read from the left: backslashes are
/// held back; before a double quote they are doubled and one more escapes
/// the quote; before any other character they stay as they were. Gives the
/// text so far and the backslashes still held back.
pub open spec fn quote_scan(s: Seq<char>) -> (Seq<char>, nat)
    decreases s.len(),
{
    if s.len() == 0 {
        (Seq::empty(), 0)
    } else {
        let (o, b) = quote_scan(s.drop_last());
        let c = s.last();
        if c == '\\' {
            (o, b + 1)
        } else if c == '"' {
            (o + backslashes(2 * b + 1) + seq!['"'], 0)
        } else {
            (o + backslashes(b) + seq![c], 0)
        }
    }
}

/// An argument as the Windows command line carries it: `""` when empty; as
/// it is when it needs no quotes; else in double quotes, with the
/// backslashes before a quote or before the closing quote doubled.
pub open spec fn spec_quote_windows_arg(s: Seq<char>) -> Seq<char> {
    if s.len() == 0 {
        seq!['"', '"']
    } else if !needs_quotes(s) {
        s
    } else {
        let (o, b) = quote_scan(s);
        seq!['"'] + o + backslashes(2 * b) + seq!['"']
    }
}

fn push_backslashes(out: &mut Vec<char>, n: usize)
    ensures
        final(out)@ == old(out)@ + backslashes(n as nat),
{
    let ghost start = out@;
    let mut k: usize = 0;
    while k < n
        invariant
            k <= n,
            out@ == start + backslashes(k as nat),
        decreases n - k,
    {
        out.push('\\');
        k = k + 1;
        assert(out@ =~= start + backslashes(k as nat));
    }
}

pub fn quote_windows_arg(arg: &str) -> (r: String)
    ensures
        r@ == spec_quote_windows_arg(arg@),
{
    let s = chars_of(arg);
    if s.len() == 0 {
        let mut e: Vec<char> = Vec::new();
        e.push('"');
        e.push('"');
        assert(e@ =~= seq!['"', '"']);
        return string_of(&e);
    }
    let mut plain = true;
    let mut i: usize = 0;
    while i < s.len()
        invariant
            i <= s@.len(),
            plain == !(exists|j: int| 0 <= j < i && (s@[j] == ' ' || s@[j] == '\t' || s@[j] == '"')),
        decreases s.len() - i,
    {
        if s[i] == ' ' || s[i] == '\t' || s[i] == '"' {
            plain = false;
        }
        i = i + 1;
    }
    if plain {
        return string_of(&s);
    }
    let mut inner: Vec<char> = Vec::new();
    let mut held: usize = 0;
    let mut i: usize = 0;
    while i < s.len()
        invariant
            i <= s@.len(),
            held <= i,
            (inner@, held as nat) == quote_scan(s@.take(i as int)),
        decreases s.len() - i,
    {
        let c = s[i];
        assert(s@.take(i + 1).drop_last() =~= s@.take(i as int));
        if c == '\\' {
            held = held + 1;
        } else if c == '"' {
            push_backslashes(&mut inner, held);
            push_backslashes(&mut inner, held);
            inner.push('\\');
            inner.push('"');
            assert(backslashes(held as nat) + backslashes(held as nat) + seq!['\\'] =~= backslashes(
                2 * held as nat + 1,
            ));
            held = 0;
        } else {
            push_backslashes(&mut inner, held);
            inner.push(c);
            held = 0;
        }
        i = i + 1;
    }
    assert(s@.take(s@.len() as int) =~= s@);
    let mut out: Vec<char> = Vec::new();
    out.push('"');
    append_chars(&mut out, &inner);
    push_backslashes(&mut out, held);
    push_backslashes(&mut out, held);
    out.push('"');
    assert(backslashes(held as nat) + backslashes(held as nat) =~= backslashes(2 * held as nat));
    assert(out@ =~= seq!['"'] + inner@ + backslashes(2 * held as nat) + seq!['"']);
    string_of(&out)
}

/// The arguments of the daemon's start command as one Windows command-line
/// tail: each argument quoted, separated by single spaces.
pub fn windows_arguments(args: &Vec<String>) -> (r: String)
    ensures
        r@ == join_with(args@.map_values(|a: String| spec_quote_windows_arg(a@)), seq![' ']),
{
    let mut pieces: Vec<Vec<char>> = Vec::new();
    let mut i: usize = 0;
    while i < args.len()
        invariant
            i <= args@.len(),
            pieces@.len() == i,
            forall|k: int| 0 <= k < i ==> (#[trigger] pieces@[k])@ == spec_quote_windows_arg(args@[k]@),
        decreases args.len() - i,
    {
        pieces.push(chars_of(quote_windows_arg(args[i].as_str()).as_str()));
        i = i + 1;
    }
    let mut sep: Vec<char> = Vec::new();
    sep.push(' ');
    let joined = join_chars(&pieces, &sep);
    assert(pieces@.map_values(|p: Vec<char>| p@) =~= args@.map_values(|a: String| spec_quote_windows_arg(a@)));
    assert(sep@ =~= seq![' ']);
    string_of(&joined)
}

// ---------------------------------------------------------------------------
// The token handshake
// ---------------------------------------------------------------------------

/// The server accepts a client whose first line, trimmed, is the token.
pub fn token_accepted(line: &str, expected_token: &str) -> (r: bool)
    ensures
        r == (trim_ws(line@) == expected_token@),
{
    chars_eq(&chars_of(trim_string(line).as_str()), &chars_of(expected_token))
}

/// The server's reply to a client's token line.
pub fn handshake_reply(accepted: bool) -> (r: &'static str)
    ensures
        accepted ==> r@ == "OK\n"@,
        !accepted ==> r@ == "ERR invalid token\n"@,
{
    if accepted {
        "OK\n"
    } else {
        "ERR invalid token\n"
    }
}

/// The client's reading of the server's reply: `OK` once trimmed, else
/// the rejection with the reply.
pub fn handshake_outcome(response_line: &str) -> (r: Result<(), String>)
    ensures
        trim_ws(response_line@) == "OK"@ ==> r is Ok,
        trim_ws(response_line@) != "OK"@ ==> r is Err && r->Err_0@ == "token handshake rejected: "@
            + trim_ws(response_line@),
{
    let t = chars_of(trim_string(response_line).as_str());
    if chars_eq(&t, &chars_of("OK")) {
        Ok(())
    } else {
        let mut msg = chars_of("token handshake rejected: ");
        append_chars(&mut msg, &t);
        Err(string_of(&msg))
    }
}

/// The handshake agrees on both ends: the server accepts the line
/// `<token>\n` exactly when the token is the expected one, for a token
/// without surrounding whitespace; the client reads `OK\n` as success and
/// `ERR invalid token\n` as the rejection.
pub proof fn lemma_handshake_agrees(token: Seq<char>, expected: Seq<char>)
    requires
        token.len() > 0 ==> !is_white_space(token[0]) && !is_white_space(token.last()),
    ensures
        (trim_ws(token + "\n"@) == expected) <==> (token == expected),
        trim_ws("OK\n"@) == "OK"@,
        trim_ws("ERR invalid token\n"@) != "OK"@,
        trim_ws("ERR invalid token\n"@) == "ERR invalid token"@,
{
    reveal_strlit("\n");
    reveal_strlit("OK\n");
    reveal_strlit("OK");
    reveal_strlit("ERR invalid token\n");
    reveal_strlit("ERR invalid token");
    let line = token + "\n"@;
    assert(is_white_space('\n'));
    if token.len() == 0 {
        assert(line.len() == 1 && line[0] == '\n');
        assert(line.drop_first() =~= Seq::<char>::empty());
        assert(trim_start_ws(line.drop_first()) =~= Seq::<char>::empty());
        assert(trim_start_ws(line) =~= Seq::<char>::empty());
    } else {
        assert(line[0] == token[0]);
        assert(trim_start_ws(line) == line);
        assert(line.drop_last() =~= token);
        assert(trim_end_ws(token) == token);
    }
    assert(trim_ws(line) == token);
    let ok = "OK\n"@;
    assert(!is_white_space(ok[0]));
    assert(ok.drop_last() =~= "OK"@);
    assert(trim_end_ws("OK"@) == "OK"@);
    let err = "ERR invalid token\n"@;
    assert(!is_white_space(err[0]));
    assert(err.drop_last() =~= "ERR invalid token"@);
    let e2 = "ERR invalid token"@;
    assert(!is_white_space(e2.last()));
    assert(trim_end_ws(e2) == e2);
    assert(e2.len() != 2);
}

// ---------------------------------------------------------------------------
// Frames
// ---------------------------------------------------------------------------

/// Why a frame could not be read.
#[derive(Debug, Clone, Copy, PartialEq, Eq, Structural)]
pub enum FrameError {
    EndedBeforePayload,
    MissingDelimiter,
    EmptyPayload,
}

impl FrameError {
    pub fn message(&self) -> (m: &'static str)
        ensures
            *self == FrameError::EndedBeforePayload ==> m@ == "ipc frame ended before payload"@,
            *self == FrameError::MissingDelimiter ==> m@ == "ipc frame missing newline delimiter"@,
            *self == FrameError::EmptyPayload ==> m@ == "ipc frame payload is empty"@,
    {
        match self {
            FrameError::EndedBeforePayload => "ipc frame ended before payload",
            FrameError::MissingDelimiter => "ipc frame missing newline delimiter",
            FrameError::EmptyPayload => "ipc frame payload is empty",
        }
    }
}

/// What reading one more byte of a frame gave.
#[derive(Debug, Clone, PartialEq, Eq)]
pub enum FrameStep {
    NeedMore,
    Frame(Vec<u8>),
    Failed(FrameError),
}

/// A frame step, its frame as bytes.
pub enum StepView {
    NeedMore,
    Frame(Seq<u8>),
    Failed(FrameError),
}

impl View for FrameStep {
    type V = StepView;

    open spec fn view(&self) -> StepView {
        match self {
            FrameStep::NeedMore => StepView::NeedMore,
            FrameStep::Frame(f) => StepView::Frame(f@),
            FrameStep::Failed(e) => StepView::Failed(*e),
        }
    }
}

/// One byte, or the end of the stream, read into a frame holding `frame`:
/// the bytes buffered after it and the step. A newline ends a frame, which
/// must not be empty; the stream may not end before the newline.
pub open spec fn spec_feed(frame: Seq<u8>, byte: Option<u8>) -> (Seq<u8>, StepView) {
    match byte {
        None => (
            frame,
            StepView::Failed(
                if frame.len() == 0 {
                    FrameError::EndedBeforePayload
                } else {
                    FrameError::MissingDelimiter
                },
            ),
        ),
        Some(b) => if b == 10 {
            if frame.len() == 0 {
                (frame, StepView::Failed(FrameError::EmptyPayload))
            } else {
                (frame, StepView::Frame(frame))
            }
        } else {
            (frame.push(b), StepView::NeedMore)
        },
    }
}

/// Reading these bytes one at a time into a frame holding `frame`, up to
/// the first step that is not `NeedMore`; `NeedMore` when they run out
/// first.
pub open spec fn spec_read_bytes(frame: Seq<u8>, bytes: Seq<u8>) -> StepView
    decreases bytes.len(),
{
    if bytes.len() == 0 {
        StepView::NeedMore
    } else {
        let (next, step) = spec_feed(frame, Some(bytes[0]));
        if step is NeedMore {
            spec_read_bytes(next, bytes.drop_first())
        } else {
            step
        }
    }
}

/// Reads a newline-terminated frame one byte at a time.
pub struct FrameReader {
    pub frame: Vec<u8>,
}

impl FrameReader {
    pub fn new() -> (r: FrameReader)
        ensures
            r.frame@.len() == 0,
    {
        FrameReader { frame: Vec::new() }
    }

    /// Takes the next byte, or `None` at the end of the stream: the bytes
    /// before a newline are the frame, which must not be empty; the stream
    /// may not end before the newline.
    pub fn feed(&mut self, byte: Option<u8>) -> (r: FrameStep)
        ensures
            (final(self).frame@, r@) == spec_feed(old(self).frame@, byte),
    {
        match byte {
            None => {
                if self.frame.len() == 0 {
                    FrameStep::Failed(FrameError::EndedBeforePayload)
                } else {
                    FrameStep::Failed(FrameError::MissingDelimiter)
                }
            },
            Some(b) => {
                if b == 10 {
                    if self.frame.len() == 0 {
                        FrameStep::Failed(FrameError::EmptyPayload)
                    } else {
                        let mut f: Vec<u8> = Vec::new();
                        let mut i: usize = 0;
                        while i < self.frame.len()
                            invariant
                                i <= self.frame@.len(),
                                f@ == self.frame@.take(i as int),
                            decreases self.frame.len() - i,
                        {
                            f.push(self.frame[i]);
                            i = i + 1;
                            assert(f@ =~= self.frame@.take(i as int));
                        }
                        assert(self.frame@.take(i as int) =~= self.frame@);
                        FrameStep::Frame(f)
                    }
                } else {
                    self.frame.push(b);
                    FrameStep::NeedMore
                }
            },
        }
    }
}

proof fn lemma_read_rest_of_frame(payload: Seq<u8>, k: int, rest: Seq<u8>)
    requires
        payload.len() > 0,
        !payload.contains(10u8),
        0 <= k <= payload.len(),
    ensures
        spec_read_bytes(payload.take(k), payload.skip(k).push(10u8) + rest) == StepView::Frame(
            payload,
        ),
    decreases payload.len() - k,
{
    let bytes = payload.skip(k).push(10u8) + rest;
    if k == payload.len() {
        assert(payload.take(k) =~= payload);
        assert(bytes[0] == 10u8);
    } else {
        assert(bytes[0] == payload[k]);
        assert(payload[k] != 10u8) by {
            if payload[k] == 10u8 {
                assert(payload.contains(10u8));
            }
        }
        assert(payload.take(k).push(payload[k]) =~= payload.take(k + 1));
        assert(bytes.drop_first() =~= payload.skip(k + 1).push(10u8) + rest);
        lemma_read_rest_of_frame(payload, k + 1, rest);
    }
}

/// What is written as a frame is read back: the bytes of
/// `encode_frame(payload)`, read from a fresh reader, give the payload as
/// the frame, whatever bytes follow them, when the payload is not empty
/// and holds no newline.
pub proof fn lemma_frame_round_trip(payload: Seq<u8>, rest: Seq<u8>)
    requires
        payload.len() > 0,
        !payload.contains(10u8),
    ensures
        spec_read_bytes(Seq::empty(), payload.push(10u8) + rest) == StepView::Frame(payload),
{
    lemma_read_rest_of_frame(payload, 0, rest);
    assert(payload.take(0) =~= Seq::<u8>::empty());
    assert(payload.skip(0) =~= payload);
}

/// A payload as a frame: the payload and a newline.
pub fn encode_frame(payload: Vec<u8>) -> (r: Vec<u8>)
    ensures
        r@ == payload@.push(10u8),
{
    let mut r = payload;
    r.push(10u8);
    r
}

// ---------------------------------------------------------------------------
// Shutting the daemon down
// ---------------------------------------------------------------------------

/// A shutdown acknowledgement must answer the request that was sent.
pub fn check_shutdown_response(expected_request_id: &str, response: DaemonControlResponse) -> (r:
    Result<DaemonControlResponse, String>)
    ensures
        response.request_id@ == expected_request_id@ ==> r == Ok::<DaemonControlResponse, String>(
            response,
        ),
        response.request_id@ != expected_request_id@ ==> r is Err && r->Err_0@
            == "daemon shutdown response request_id mismatch: expected "@ + expected_request_id@
            + ", got "@ + response.request_id@,
{
    let got = chars_of(response.request_id.as_str());
    let want = chars_of(expected_request_id);
    if chars_eq(&got, &want) {
        Ok(response)
    } else {
        let mut msg = chars_of("daemon shutdown response request_id mismatch: expected ");
        append_chars(&mut msg, &want);
        append_chars(&mut msg, &chars_of(", got "));
        append_chars(&mut msg, &got);
        Err(string_of(&msg))
    }
}

/// The state file goes once the daemon accepted the shutdown, if it is
/// still there.
pub fn clears_state_after_ack(response: &DaemonControlResponse, state_exists: bool) -> (r: bool)
    ensures
        r == (response.accepted && state_exists),
{
    response.accepted && state_exists
}

} // verus!
