//! The MCP stdio shim: the tools it offers, the context it forwards calls
//! with, how it reads the two framings of the stdio transport, and how it
//! answers each JSON-RPC method.
//!
//! Reading and writing the streams, JSON and the forwarding itself live
//! around this module.

use crate::config::{parse_usize, spec_parse_unsigned};
use crate::text::{
    append_chars, ascii_lower, chars_eq, chars_of, is_white_space, string_of,
    to_ascii_lowercase, trim_chars, trim_ws,
};
use crate::model::opt_string_view;
use crate::parser::opt_str_view;
use crate::search::{decimal_chars, spec_decimal};
use serde_json::Value;
use vstd::prelude::*;

verus! {

// ---------------------------------------------------------------------------
// Tools
// ---------------------------------------------------------------------------

#[derive(Clone, Copy, Debug, PartialEq, Eq, Structural)]
pub struct ToolAnnotations {
    pub read_only_hint: bool,
    pub destructive_hint: bool,
    pub open_world_hint: bool,
    pub idempotent_hint: bool,
}

pub open spec fn spec_tool_names() -> Seq<Seq<char>> {
    seq![
        "browse_shelf"@,
        "list_group_skills"@,
        "search_skills"@,
        "read_skill"@,
        "install_skills"@,
        "validate_skills"@,
        "manage_group"@,
        "get_shelf_status"@,
    ]
}

/// The tools the shelf offers, in the order it lists them.
pub fn tool_names() -> (r: Vec<&'static str>)
    ensures
        r@.len() == 8,
        forall|i: int| 0 <= i < 8 ==> (#[trigger] r@[i])@ == spec_tool_names()[i],
{
    let mut v: Vec<&'static str> = Vec::new();
    v.push("browse_shelf");
    v.push("list_group_skills");
    v.push("search_skills");
    v.push("read_skill");
    v.push("install_skills");
    v.push("validate_skills");
    v.push("manage_group");
    v.push("get_shelf_status");
    v
}

/// The tools a client may call: the listed ones, and `reclassify_skill`,
/// which the shelf serves without listing it.
pub open spec fn spec_served_tools() -> Seq<Seq<char>> {
    spec_tool_names().push("reclassify_skill"@)
}

/// Whether a client may call a tool of that name.
pub fn is_known_tool(name: &str) -> (r: bool)
    ensures
        r == spec_served_tools().contains(name@),
{
    let names = tool_names();
    let target = chars_of(name);
    let mut i: usize = 0;
    while i < names.len()
        invariant
            i <= 8,
            names@.len() == 8,
            forall|k: int| 0 <= k < 8 ==> (#[trigger] names@[k])@ == spec_tool_names()[k],
            target@ == name@,
            forall|k: int| 0 <= k < i ==> spec_served_tools()[k] != name@,
        decreases 8 - i,
    {
        if chars_eq(&chars_of(names[i]), &target) {
            assert(spec_served_tools()[i as int] == name@);
            return true;
        }
        i = i + 1;
    }
    if chars_eq(&target, &chars_of("reclassify_skill")) {
        assert(spec_served_tools()[8] == name@);
        return true;
    }
    proof {
        assert forall|k: int| 0 <= k < spec_served_tools().len() implies spec_served_tools()[k] != name@ by {}
    }
    false
}

pub open spec fn read_only_annotations() -> ToolAnnotations {
    ToolAnnotations {
        read_only_hint: true,
        destructive_hint: false,
        open_world_hint: false,
        idempotent_hint: true,
    }
}

pub open spec fn write_annotations() -> ToolAnnotations {
    ToolAnnotations {
        read_only_hint: false,
        destructive_hint: true,
        open_world_hint: false,
        idempotent_hint: false,
    }
}

/// The hints a tool carries: the reading tools are read-only and
/// idempotent; installing, validating and managing groups are destructive.
pub open spec fn spec_annotations(name: Seq<char>) -> Option<ToolAnnotations> {
    if name == "browse_shelf"@ || name == "list_group_skills"@ || name == "search_skills"@ || name
        == "read_skill"@ || name == "get_shelf_status"@ {
        Some(read_only_annotations())
    } else if name == "install_skills"@ || name == "validate_skills"@ || name == "manage_group"@ {
        Some(write_annotations())
    } else {
        None
    }
}

pub fn tool_annotations(name: &str) -> (r: Option<ToolAnnotations>)
    ensures
        r == spec_annotations(name@),
{
    let n = chars_of(name);
    if chars_eq(&n, &chars_of("browse_shelf")) || chars_eq(&n, &chars_of("list_group_skills"))
        || chars_eq(&n, &chars_of("search_skills")) || chars_eq(&n, &chars_of("read_skill"))
        || chars_eq(&n, &chars_of("get_shelf_status")) {
        Some(
            ToolAnnotations {
                read_only_hint: true,
                destructive_hint: false,
                open_world_hint: false,
                idempotent_hint: true,
            },
        )
    } else if chars_eq(&n, &chars_of("install_skills")) || chars_eq(&n, &chars_of("validate_skills"))
        || chars_eq(&n, &chars_of("manage_group")) {
        Some(
            ToolAnnotations {
                read_only_hint: false,
                destructive_hint: true,
                open_world_hint: false,
                idempotent_hint: false,
            },
        )
    } else {
        None
    }
}

// ---------------------------------------------------------------------------
// Forwarding context
// ---------------------------------------------------------------------------

/// What every forwarded call carries: the session and the workspace key.
#[derive(Clone, Debug, PartialEq, Eq)]
pub struct ForwardingContext {
    pub session_id: String,
    pub shelf_root: String,
    pub config_hash: String,
}

pub open spec fn hex_digit(d: nat) -> char {
    if d < 10 {
        (48 + d) as char
    } else {
        (87 + d) as char
    }
}

/// A `u64` as 16 lowercase hex digits (`{:016x}`).
pub open spec fn spec_hex16(n: u64) -> Seq<char> {
    Seq::new(16, |i: int| hex_digit(((n as nat) / pow16((15 - i) as nat)) % 16))
}

pub open spec fn pow16(e: nat) -> nat
    decreases e,
{
    if e == 0 {
        1
    } else {
        16 * pow16((e - 1) as nat)
    }
}

proof fn lemma_pow16_pos(e: nat)
    ensures
        pow16(e) >= 1,
    decreases e,
{
    if e > 0 {
        lemma_pow16_pos((e - 1) as nat);
    }
}

fn hex_digit_exec(d: u64) -> (c: char)
    requires
        d < 16,
    ensures
        c == hex_digit(d as nat),
{
    if d < 10 {
        ((48 + d) as u8) as char
    } else {
        ((87 + d) as u8) as char
    }
}

/// `format!("{:016x}", n)`.
pub fn hex16(n: u64) -> (r: String)
    ensures
        r@ == spec_hex16(n),
{
    let mut digits: Vec<char> = Vec::new();
    let mut i: usize = 0;
    let mut rest: u64 = n;
    assert(pow16(0) == 1);
    assert((n as nat) / 1 == n as nat);
    // digits from the least significant one
    while i < 16
        invariant
            i <= 16,
            digits@.len() == i,
            rest as nat == (n as nat) / pow16(i as nat),
            forall|k: int| 0 <= k < i ==> #[trigger] digits@[k] == hex_digit(((n as nat) / pow16(k as nat)) % 16),
        decreases 16 - i,
    {
        let d = rest % 16;
        digits.push(hex_digit_exec(d));
        proof {
            lemma_pow16_pos(i as nat);
            assert(pow16((i + 1) as nat) == 16 * pow16(i as nat));
            vstd::arithmetic::div_mod::lemma_div_denominator(n as int, pow16(i as nat) as int, 16);
            assert(pow16(i as nat) * 16 == 16 * pow16(i as nat)) by (nonlinear_arith);
        }
        rest = rest / 16;
        i = i + 1;
    }
    let mut out: Vec<char> = Vec::new();
    let mut j: usize = 16;
    while j > 0
        invariant
            j <= 16,
            digits@.len() == 16,
            out@.len() == 16 - j,
            forall|k: int| 0 <= k < 16 ==> #[trigger] digits@[k] == hex_digit(((n as nat) / pow16(k as nat)) % 16),
            forall|k: int| 0 <= k < 16 - j ==> #[trigger] out@[k] == spec_hex16(n)[k],
        decreases j,
    {
        out.push(digits[j - 1]);
        proof {
            let k = (16 - j) as int;
            assert(out@[k] == digits@[j - 1]);
            assert(spec_hex16(n)[k] == hex_digit(((n as nat) / pow16((15 - k) as nat)) % 16));
        }
        j = j - 1;
    }
    assert(out@ =~= spec_hex16(n));
    string_of(&out)
}

/// What `DefaultHasher::new()` holds after hashing `PathBuf::from(path)` and
/// then the text `salt`. `DefaultHasher::new` starts from fixed keys, so
/// within one build of the program this is a function of the two texts
/// alone.
pub uninterp spec fn path_hash(path: Seq<char>, salt: Seq<char>) -> u64;

/// `DefaultHasher::new`, then `Hash::hash` of `PathBuf::from(path)` and of
/// `salt`, then `Hasher::finish`: the hash is named `path_hash` of the two
/// texts; nothing more is claimed of it.
#[verifier::external_body]
fn hash_path_with(path: &str, salt: &str) -> (h: u64)
    ensures
        h == path_hash(path@, salt@),
{
    let mut hasher = std::collections::hash_map::DefaultHasher::new();
    std::hash::Hash::hash(&std::path::PathBuf::from(path), &mut hasher);
    std::hash::Hash::hash(salt, &mut hasher);
    std::hash::Hasher::finish(&hasher)
}

/// The configuration hash of a shelf root: the root hashed as a path with
/// the configuration name `default`, as 16 hex digits.
pub open spec fn spec_config_hash(shelf_root: Seq<char>) -> Seq<char> {
    spec_hex16(path_hash(shelf_root, "default"@))
}

pub fn config_hash_for_shelf(shelf_root: &str) -> (h: String)
    ensures
        h@ == spec_config_hash(shelf_root@),
{
    proof {
        reveal_strlit("default");
    }
    hex16(hash_path_with(shelf_root, "default"))
}

pub open spec fn is_lower_hex(c: char) -> bool {
    (48 <= c as u32 <= 57) || (97 <= c as u32 <= 102)
}

/// A configuration hash is 16 lowercase hex digits and depends on the
/// shelf root alone: equal roots give equal hashes.
pub proof fn lemma_config_hash_of_root(a: Seq<char>, b: Seq<char>)
    ensures
        spec_config_hash(a).len() == 16,
        forall|i: int| 0 <= i < 16 ==> is_lower_hex(#[trigger] spec_config_hash(a)[i]),
        a == b ==> spec_config_hash(a) == spec_config_hash(b),
{
    let n = path_hash(a, "default"@);
    assert forall|i: int| 0 <= i < 16 implies is_lower_hex(#[trigger] spec_config_hash(a)[i]) by {
        let d = ((n as nat) / pow16((15 - i) as nat)) % 16;
        assert(d < 16);
        assert(spec_config_hash(a)[i] == hex_digit(d));
    }
}

/// The context of a client over a shelf root: the session id it was
/// given, and the configuration hash of the root.
pub fn forwarding_context_for_shelf(shelf_root: String, session_id: String) -> (c:
    ForwardingContext)
    ensures
        c.session_id == session_id,
        c.shelf_root == shelf_root,
        c.config_hash@ == spec_config_hash(shelf_root@),
{
    let config_hash = config_hash_for_shelf(shelf_root.as_str());
    ForwardingContext { session_id, shelf_root, config_hash }
}

/// The context of this process: a session id `session-<16 hex digits>`
/// from a per-process seed.
pub fn default_context(shelf_root: String, session_seed: u64) -> (c: ForwardingContext)
    ensures
        c.session_id@ == "session-"@ + spec_hex16(session_seed),
        c.shelf_root == shelf_root,
        c.config_hash@ == spec_config_hash(shelf_root@),
{
    let mut sid = chars_of("session-");
    append_chars(&mut sid, &chars_of(hex16(session_seed).as_str()));
    forwarding_context_for_shelf(shelf_root, string_of(&sid))
}

/// The shim: the context it forwards with and what it forwards through.
#[derive(Clone, Debug)]
pub struct McpStdioShim<F> {
    pub context: ForwardingContext,
    pub forwarder: F,
}

impl<F> McpStdioShim<F> {
    pub fn new(context: ForwardingContext, forwarder: F) -> (s: McpStdioShim<F>)
        ensures
            s.context == context,
            s.forwarder == forwarder,
    {
        McpStdioShim { context, forwarder }
    }

    pub fn context(&self) -> (c: &ForwardingContext)
        ensures
            *c == self.context,
    {
        &self.context
    }

    pub fn forwarder(&self) -> (f: &F)
        ensures
            *f == self.forwarder,
    {
        &self.forwarder
    }
}

/// A forwarder that echoes the request back.
#[derive(Clone, Copy, Debug, Default)]
pub struct NullForwarder;

// ---------------------------------------------------------------------------
// The catalog in the description of `browse_shelf`
// ---------------------------------------------------------------------------

/// One group of the catalog: its id, its description and how many skill
/// files it holds.
pub open spec fn catalog_entries_view(v: Seq<(String, String, usize)>) -> Seq<(Seq<char>, Seq<char>, nat)> {
    v.map_values(|e: (String, String, usize)| (e.0@, e.1@, e.2 as nat))
}

/// `<group> (<count>): <description>`.
pub open spec fn catalog_line(e: (Seq<char>, Seq<char>, nat)) -> Seq<char> {
    e.0 + " ("@ + spec_decimal(e.2) + "): "@ + e.1
}

/// Each group's line, each after a line break.
pub open spec fn catalog_lines(entries: Seq<(Seq<char>, Seq<char>, nat)>) -> Seq<char>
    decreases entries.len(),
{
    if entries.len() == 0 {
        Seq::empty()
    } else {
        catalog_lines(entries.drop_last()) + "\n"@ + catalog_line(entries.last())
    }
}

pub open spec fn catalog_intro() -> Seq<char> {
    "Entry point to discover available skill groups. Call this first to see what domains the shelf covers, then drill into a group or use search_skills.\n\nCURRENT SHELF CATALOG:"@
}

/// The description of `browse_shelf`: the introduction, then a line per
/// group, or `(no indexed groups found)` when there is none.
pub open spec fn spec_catalog_description(entries: Seq<(Seq<char>, Seq<char>, nat)>) -> Seq<char> {
    if entries.len() == 0 {
        catalog_intro() + "\n(no indexed groups found)"@
    } else {
        catalog_intro() + catalog_lines(entries)
    }
}

pub fn catalog_description(groups: &Vec<(String, String, usize)>) -> (r: String)
    ensures
        r@ == spec_catalog_description(catalog_entries_view(groups@)),
{
    let ghost ev = catalog_entries_view(groups@);
    let mut out = chars_of(
        "Entry point to discover available skill groups. Call this first to see what domains the shelf covers, then drill into a group or use search_skills.\n\nCURRENT SHELF CATALOG:",
    );
    if groups.len() == 0 {
        append_chars(&mut out, &chars_of("\n(no indexed groups found)"));
        return string_of(&out);
    }
    let mut i: usize = 0;
    while i < groups.len()
        invariant
            i <= groups@.len(),
            ev == catalog_entries_view(groups@),
            out@ == catalog_intro() + catalog_lines(ev.take(i as int)),
        decreases groups.len() - i,
    {
        let ghost before = out@;
        append_chars(&mut out, &chars_of("\n"));
        append_chars(&mut out, &chars_of(groups[i].0.as_str()));
        append_chars(&mut out, &chars_of(" ("));
        append_chars(&mut out, &decimal_chars(groups[i].2));
        append_chars(&mut out, &chars_of("): "));
        append_chars(&mut out, &chars_of(groups[i].1.as_str()));
        proof {
            let t = ev.take(i + 1);
            assert(t.drop_last() =~= ev.take(i as int));
            assert(t.last() == ev[i as int]);
            assert(out@ =~= catalog_intro() + catalog_lines(t));
        }
        i = i + 1;
    }
    assert(ev.take(groups@.len() as int) =~= ev);
    string_of(&out)
}

// ---------------------------------------------------------------------------
// The command line
// ---------------------------------------------------------------------------

#[derive(Clone, Copy, Debug, PartialEq, Eq, Structural)]
pub enum ShimCommand {
    Mcp,
    Daemon,
    Status,
    Stop,
}

#[derive(Clone, Copy, Debug, PartialEq, Eq, Structural)]
pub struct ShimCli {
    pub command: ShimCommand,
}

/// What each subcommand says when it starts.
pub fn handle_command(command: &ShimCommand) -> (r: &'static str)
    ensures
        *command == ShimCommand::Mcp ==> r@ == "MCP stdio shim ready."@,
        *command == ShimCommand::Daemon ==> r@
            == "Daemon entrypoint reserved for background service wiring."@,
        *command == ShimCommand::Status ==> r@
            == "Status entrypoint reserved for daemon state inspection."@,
        *command == ShimCommand::Stop ==> r@
            == "Stop entrypoint reserved for daemon shutdown signaling."@,
{
    match command {
        ShimCommand::Mcp => "MCP stdio shim ready.",
        ShimCommand::Daemon => "Daemon entrypoint reserved for background service wiring.",
        ShimCommand::Status => "Status entrypoint reserved for daemon state inspection.",
        ShimCommand::Stop => "Stop entrypoint reserved for daemon shutdown signaling.",
    }
}

/// The subcommand a word names.
pub fn parse_command(word: &str) -> (r: Option<ShimCommand>)
    ensures
        word@ == "mcp"@ ==> r == Some(ShimCommand::Mcp),
        word@ == "daemon"@ ==> r == Some(ShimCommand::Daemon),
        word@ == "status"@ ==> r == Some(ShimCommand::Status),
        word@ == "stop"@ ==> r == Some(ShimCommand::Stop),
        word@ != "mcp"@ && word@ != "daemon"@ && word@ != "status"@ && word@ != "stop"@ ==> r
            is None,
{
    proof {
        reveal_strlit("mcp");
        reveal_strlit("daemon");
        reveal_strlit("status");
        reveal_strlit("stop");
        assert("mcp"@.len() == 3 && "daemon"@.len() == 6 && "status"@.len() == 6 && "stop"@.len() == 4);
        assert("daemon"@[0] != "status"@[0]);
    }
    let w = chars_of(word);
    if chars_eq(&w, &chars_of("mcp")) {
        Some(ShimCommand::Mcp)
    } else if chars_eq(&w, &chars_of("daemon")) {
        Some(ShimCommand::Daemon)
    } else if chars_eq(&w, &chars_of("status")) {
        Some(ShimCommand::Status)
    } else if chars_eq(&w, &chars_of("stop")) {
        Some(ShimCommand::Stop)
    } else {
        None
    }
}

// ---------------------------------------------------------------------------
// The stdio transport
// ---------------------------------------------------------------------------

/// A line without its trailing `\r` and `\n` characters.
pub open spec fn strip_line_end(s: Seq<char>) -> Seq<char>
    decreases s.len(),
{
    if s.len() > 0 && (s.last() == '\r' || s.last() == '\n') {
        strip_line_end(s.drop_last())
    } else {
        s
    }
}

pub open spec fn trim_start_ws_of(s: Seq<char>) -> Seq<char>
    decreases s.len(),
{
    if s.len() > 0 && is_white_space(s[0]) {
        trim_start_ws_of(s.drop_first())
    } else {
        s
    }
}

/// What a line read from stdin starts.
#[derive(Debug, Clone, PartialEq, Eq)]
pub enum StdioLine {
    /// An empty line, skipped.
    Blank,
    /// A JSON message on one line.
    Json(String),
    /// The first header of a `Content-Length` framed message.
    Header(String),
}

/// How a line is read: blank once its line end is gone; a JSON message
/// when, after leading whitespace, it starts with `{` or `[`; else a
/// header line.
pub open spec fn spec_classify(line: Seq<char>) -> (bool, bool, Seq<char>) {
    let t = strip_line_end(line);
    let c = trim_start_ws_of(t);
    if t.len() == 0 {
        (true, false, t)
    } else if c.len() > 0 && (c[0] == '{' || c[0] == '[') {
        (false, true, c)
    } else {
        (false, false, t)
    }
}

proof fn lemma_strip_line_end_take(s: Seq<char>, j: int)
    requires
        0 <= j <= s.len(),
        forall|k: int| j <= k < s.len() ==> (#[trigger] s[k] == '\r' || s[k] == '\n'),
        j == 0 || (s[j - 1] != '\r' && s[j - 1] != '\n'),
    ensures
        strip_line_end(s) == s.take(j),
    decreases s.len() - j,
{
    if j < s.len() {
        assert forall|k: int| j <= k < s.len() - 1 implies (#[trigger] s.drop_last()[k] == '\r' || s.drop_last()[k] == '\n') by {
            assert(s.drop_last()[k] == s[k]);
        }
        if j > 0 {
            assert(s.drop_last()[j - 1] == s[j - 1]);
        }
        lemma_strip_line_end_take(s.drop_last(), j);
        assert(s.drop_last().take(j) =~= s.take(j));
    } else {
        assert(s.take(j) =~= s);
    }
}

proof fn lemma_trim_start_skip(s: Seq<char>, i: int)
    requires
        0 <= i <= s.len(),
        forall|k: int| 0 <= k < i ==> is_white_space(#[trigger] s[k]),
        i == s.len() || !is_white_space(s[i]),
    ensures
        trim_start_ws_of(s) == s.skip(i),
    decreases i,
{
    if i > 0 {
        assert forall|k: int| 0 <= k < i - 1 implies is_white_space(#[trigger] s.drop_first()[k]) by {
            assert(s.drop_first()[k] == s[k + 1]);
        }
        if i < s.len() {
            assert(s.drop_first()[i - 1] == s[i]);
        }
        lemma_trim_start_skip(s.drop_first(), i - 1);
        assert(s.drop_first().skip(i - 1) =~= s.skip(i));
    } else {
        assert(s.skip(0) =~= s);
    }
}

fn take_chars(s: &Vec<char>, from: usize, to: usize) -> (r: Vec<char>)
    requires
        from <= to <= s@.len(),
    ensures
        r@ == s@.subrange(from as int, to as int),
{
    let mut out: Vec<char> = Vec::new();
    let mut i: usize = from;
    while i < to
        invariant
            from <= i <= to <= s@.len(),
            out@ == s@.subrange(from as int, i as int),
        decreases to - i,
    {
        out.push(s[i]);
        i = i + 1;
        assert(out@ =~= s@.subrange(from as int, i as int));
    }
    out
}

pub fn classify_stdio_line(line: &str) -> (r: StdioLine)
    ensures
        ({
            let (blank, json, text) = spec_classify(line@);
            if blank {
                r == StdioLine::Blank
            } else if json {
                r matches StdioLine::Json(j) && j@ == text
            } else {
                r matches StdioLine::Header(h) && h@ == text
            }
        }),
{
    let c = chars_of(line);
    let mut end: usize = c.len();
    while end > 0 && (c[end - 1] == '\r' || c[end - 1] == '\n')
        invariant
            end <= c@.len(),
            forall|k: int| end <= k < c@.len() ==> (#[trigger] c@[k] == '\r' || c@[k] == '\n'),
        decreases end,
    {
        end = end - 1;
    }
    proof {
        lemma_strip_line_end_take(c@, end as int);
    }
    let t = take_chars(&c, 0, end);
    assert(t@ =~= c@.take(end as int));
    if end == 0 {
        return StdioLine::Blank;
    }
    let mut start: usize = 0;
    while start < t.len() && crate::text::is_whitespace(t[start])
        invariant
            start <= t@.len(),
            forall|k: int| 0 <= k < start ==> is_white_space(#[trigger] t@[k]),
        decreases t.len() - start,
    {
        start = start + 1;
    }
    proof {
        lemma_trim_start_skip(t@, start as int);
    }
    let compact = take_chars(&t, start, t.len());
    assert(compact@ =~= t@.skip(start as int));
    if compact.len() > 0 && (compact[0] == '{' || compact[0] == '[') {
        StdioLine::Json(string_of(&compact))
    } else {
        StdioLine::Header(string_of(&t))
    }
}

/// The name and the value of a header line, split at its first `:`.
pub open spec fn first_colon(s: Seq<char>) -> Option<int>
    decreases s.len(),
{
    if s.len() == 0 {
        None
    } else if s[0] == ':' {
        Some(0)
    } else {
        match first_colon(s.drop_first()) {
            Some(i) => Some(i + 1),
            None => None,
        }
    }
}

pub open spec fn is_content_length(name: Seq<char>) -> bool {
    name.len() == 14 && forall|i: int| 0 <= i < 14 ==> ascii_lower(#[trigger] name[i]) == "content-length"@[i]
}

/// Reading one header line: a line without `:` is refused; a
/// `Content-Length` header (any ASCII case) sets the length, and a value
/// that is not a number is refused; other headers are ignored.
pub open spec fn spec_header(line: Seq<char>, current: Option<usize>) -> Result<Option<usize>, Seq<char>> {
    match first_colon(line) {
        None => Err("invalid MCP header line: "@ + line),
        Some(i) => {
            let name = line.take(i);
            let value = trim_ws(line.skip(i + 1));
            if is_content_length(name) {
                match spec_parse_unsigned(value) {
                    Some(n) => if n <= usize::MAX {
                        Ok(Some(n as usize))
                    } else {
                        Err("invalid Content-Length value: "@ + value)
                    },
                    None => Err("invalid Content-Length value: "@ + value),
                }
            } else {
                Ok(current)
            }
        },
    }
}

proof fn lemma_first_colon_at(s: Seq<char>, i: int)
    requires
        0 <= i <= s.len(),
        forall|k: int| 0 <= k < i ==> #[trigger] s[k] != ':',
        i == s.len() || s[i] == ':',
    ensures
        first_colon(s) == if i < s.len() {
            Some(i)
        } else {
            None::<int>
        },
    decreases i,
{
    if i > 0 {
        assert forall|k: int| 0 <= k < i - 1 implies #[trigger] s.drop_first()[k] != ':' by {
            assert(s.drop_first()[k] == s[k + 1]);
        }
        if i < s.len() {
            assert(s.drop_first()[i - 1] == s[i]);
        }
        lemma_first_colon_at(s.drop_first(), i - 1);
    }
}

/// Reads one MCP header line into the content length seen so far.
pub fn parse_mcp_header(line: &str, content_length: &mut Option<usize>) -> (r: Result<(), String>)
    ensures
        match spec_header(line@, *old(content_length)) {
            Ok(v) => r is Ok && *final(content_length) == v,
            Err(e) => r is Err && r->Err_0@ == e && *final(content_length) == *old(content_length),
        },
{
    proof {
        reveal_strlit("content-length");
    }
    let c = chars_of(line);
    let mut i: usize = 0;
    while i < c.len() && c[i] != ':'
        invariant
            i <= c@.len(),
            forall|k: int| 0 <= k < i ==> #[trigger] c@[k] != ':',
        decreases c.len() - i,
    {
        i = i + 1;
    }
    proof {
        lemma_first_colon_at(c@, i as int);
    }
    if i == c.len() {
        let mut msg = chars_of("invalid MCP header line: ");
        append_chars(&mut msg, &c);
        return Err(string_of(&msg));
    }
    let name = take_chars(&c, 0, i);
    assert(name@ =~= c@.take(i as int));
    let raw_value = take_chars(&c, i + 1, c.len());
    assert(raw_value@ =~= c@.skip(i + 1));
    let value = trim_chars(&raw_value);
    let want = chars_of("content-length");
    let mut same = name.len() == 14;
    if same {
        let mut k: usize = 0;
        while k < 14
            invariant
                k <= 14,
                name@.len() == 14,
                want@ == "content-length"@,
                want@.len() == 14,
                same == forall|m: int| 0 <= m < k ==> ascii_lower(#[trigger] name@[m]) == "content-length"@[m],
            decreases 14 - k,
        {
            if to_ascii_lowercase(name[k]) != want[k] {
                same = false;
            }
            k = k + 1;
        }
    }
    if same {
        match parse_usize(string_of(&value).as_str()) {
            Some(n) => {
                *content_length = Some(n);
                Ok(())
            },
            None => {
                let mut msg = chars_of("invalid Content-Length value: ");
                append_chars(&mut msg, &value);
                Err(string_of(&msg))
            },
        }
    } else {
        Ok(())
    }
}

/// The header that frames a `Content-Length` response.
pub fn content_length_header(len: usize) -> (r: String)
    ensures
        r@ == "Content-Length: "@ + spec_decimal(len as nat) + "\r\n\r\n"@,
{
    let mut h = chars_of("Content-Length: ");
    append_chars(&mut h, &decimal_chars(len));
    append_chars(&mut h, &chars_of("\r\n\r\n"));
    string_of(&h)
}

// ---------------------------------------------------------------------------
// Answering JSON-RPC
// ---------------------------------------------------------------------------

/// How the shim answers a request.
#[derive(Debug, Clone, PartialEq, Eq)]
pub enum RpcRoute {
    /// Nothing: a notification, or a request without an id.
    NoReply,
    /// The server's identity and capabilities.
    Initialize,
    /// The list of tools.
    ListTools,
    /// Forward the call of this tool.
    CallTool(String),
    /// A `Method not found` error with this message.
    MethodNotFound(String),
}

pub open spec fn is_notification(method: Seq<char>) -> bool {
    method.len() >= 14 && method.take(14) == "notifications/"@
}

/// The stdio loop passes over notifications: a message whose method starts
/// with `notifications/` gets no answer, with or without an id.
pub fn skips_message(method: Option<&str>) -> (r: bool)
    ensures
        r == (match method {
            Some(m) => is_notification(m@),
            None => false,
        }),
{
    match method {
        None => false,
        Some(m) => {
            let mc = chars_of(m);
            proof {
                reveal_strlit("notifications/");
            }
            let prefix = chars_of("notifications/");
            let r = crate::text::starts_with(&mc, &prefix);
            assert(mc@.len() >= 14 ==> mc@.subrange(0, 14) =~= mc@.take(14));
            r
        },
    }
}

/// Decides how to answer a JSON-RPC request, by its method, whether it
/// has an id and the tool it names: `initialize` and `tools/list` answer
/// requests with an id; `tools/call` needs an id and a tool a client may
/// call; other methods with an id are not found, and without one get no
/// answer.
/// A request without a method, or a broken `tools/call`, is an error that
/// stops the loop.
/// How a route reads as values.
pub enum RouteView {
    NoReply,
    Initialize,
    ListTools,
    CallTool(Seq<char>),
    MethodNotFound(Seq<char>),
}

impl View for RpcRoute {
    type V = RouteView;

    open spec fn view(&self) -> RouteView {
        match self {
            RpcRoute::NoReply => RouteView::NoReply,
            RpcRoute::Initialize => RouteView::Initialize,
            RpcRoute::ListTools => RouteView::ListTools,
            RpcRoute::CallTool(t) => RouteView::CallTool(t@),
            RpcRoute::MethodNotFound(m) => RouteView::MethodNotFound(m@),
        }
    }
}

/// The answer to a request with this method, id presence and tool name.
pub open spec fn spec_route(method: Option<Seq<char>>, has_id: bool, tool_name: Option<Seq<char>>) -> Result<
    RouteView,
    Seq<char>,
> {
    match method {
        None => Err("json-rpc request missing method"@),
        Some(m) => if m == "initialize"@ {
            Ok(
                if has_id {
                    RouteView::Initialize
                } else {
                    RouteView::NoReply
                },
            )
        } else if m == "tools/list"@ {
            Ok(
                if has_id {
                    RouteView::ListTools
                } else {
                    RouteView::NoReply
                },
            )
        } else if m == "tools/call"@ {
            if !has_id {
                Err("tools/call request missing id"@)
            } else {
                match tool_name {
                    None => Err("tools/call missing tool name"@),
                    Some(t) => if spec_served_tools().contains(t) {
                        Ok(RouteView::CallTool(t))
                    } else {
                        Err("unknown tool: "@ + t)
                    },
                }
            }
        } else if has_id {
            Ok(RouteView::MethodNotFound("Method not found: "@ + m))
        } else {
            Ok(RouteView::NoReply)
        },
    }
}

pub open spec fn route_result_view(r: Result<RpcRoute, String>) -> Result<RouteView, Seq<char>> {
    match r {
        Ok(x) => Ok(x@),
        Err(e) => Err(e@),
    }
}

pub fn route_request(method: Option<&str>, has_id: bool, tool_name: Option<&str>) -> (r: Result<
    RpcRoute,
    String,
>)
    ensures
        route_result_view(r) == spec_route(opt_str_view(method), has_id, opt_str_view(tool_name)),
{
    let m = match method {
        None => return Err(String::from_str("json-rpc request missing method")),
        Some(m) => m,
    };
    let mc = chars_of(m);
    if chars_eq(&mc, &chars_of("initialize")) {
        return Ok(if has_id { RpcRoute::Initialize } else { RpcRoute::NoReply });
    }
    if chars_eq(&mc, &chars_of("tools/list")) {
        return Ok(if has_id { RpcRoute::ListTools } else { RpcRoute::NoReply });
    }
    if chars_eq(&mc, &chars_of("tools/call")) {
        if !has_id {
            return Err(String::from_str("tools/call request missing id"));
        }
        return match tool_name {
            None => Err(String::from_str("tools/call missing tool name")),
            Some(t) => if is_known_tool(t) {
                Ok(RpcRoute::CallTool(string_of(&chars_of(t))))
            } else {
                let mut msg = chars_of("unknown tool: ");
                append_chars(&mut msg, &chars_of(t));
                Err(string_of(&msg))
            },
        };
    }
    if has_id {
        let mut msg = chars_of("Method not found: ");
        append_chars(&mut msg, &mc);
        Ok(RpcRoute::MethodNotFound(string_of(&msg)))
    } else {
        Ok(RpcRoute::NoReply)
    }
}

#[verifier::external_type_specification]
#[verifier::external_body]
pub struct ExJsonValue(serde_json::Value);

/// The parts of a JSON-RPC message the shim routes by: its `method` when it
/// is a string, whether it has an `id`, and the `name` in its `params` when
/// that is a string.
pub struct RpcHead {
    pub method: Option<String>,
    pub has_id: bool,
    pub tool_name: Option<String>,
}

/// What `serde_json` reads from a message's text: `None` when the text is
/// not JSON, else the method, whether there is an id, and the tool name. A
/// function of the text alone.
pub uninterp spec fn rpc_head(text: Seq<char>) -> Option<(Option<Seq<char>>, bool, Option<Seq<char>>)>;

/// serde_json `from_str::<Value>`, then `Value::get` and `Value::as_str` for
/// `method`, `id` and `params.name`: the message, and its head named
/// `rpc_head` of the text; nothing more is claimed.
#[verifier::external_body]
pub fn decode_rpc_message(text: &str) -> (r: Option<(Value, RpcHead)>)
    ensures
        match r {
            None => rpc_head(text@) is None,
            Some((_, h)) => rpc_head(text@) == Some(
                (opt_string_view(h.method), h.has_id, opt_string_view(h.tool_name)),
            ),
        },
{
    let value: Value = serde_json::from_str(text).ok()?;
    let method = value.get("method").and_then(Value::as_str).map(str::to_string);
    let has_id = value.get("id").is_some();
    let params = value.get("params");
    let tool_name = params.and_then(|p| p.get("name")).and_then(Value::as_str).map(str::to_string);
    Some((value, RpcHead { method, has_id, tool_name }))
}

/// What the stdio loop does with a message.
#[derive(Debug, Clone, PartialEq, Eq)]
pub enum RpcMessage {
    /// A notification: passed over without an answer.
    Skip,
    /// Answered by this route.
    Route(RpcRoute),
}

pub open spec fn spec_skips(method: Option<Seq<char>>) -> bool {
    match method {
        Some(m) => is_notification(m),
        None => false,
    }
}

fn opt_as_str(o: &Option<String>) -> (r: Option<&str>)
    ensures
        opt_str_view(r) == opt_string_view(*o),
{
    match o {
        Some(s) => Some(s.as_str()),
        None => None,
    }
}

/// Reads a message's text and decides what to do with it: text that is not
/// JSON is an error that stops the loop (`failed to parse json-rpc request`,
/// or `failed to parse content-length json-rpc request` for a framed
/// message); a notification is passed over; any other message is routed by
/// `spec_route`. The decoded message comes back with the decision.
pub fn route_message(text: &str, framed: bool) -> (r: Result<(Value, RpcMessage), String>)
    ensures
        match rpc_head(text@) {
            None => r is Err && r->Err_0@ == if framed {
                "failed to parse content-length json-rpc request"@
            } else {
                "failed to parse json-rpc request"@
            },
            Some((m, id, t)) => if spec_skips(m) {
                r matches Ok((_, RpcMessage::Skip))
            } else {
                match spec_route(m, id, t) {
                    Ok(v) => r matches Ok((_, RpcMessage::Route(x))) && x@ == v,
                    Err(e) => r is Err && r->Err_0@ == e,
                }
            },
        },
{
    let (value, head) = match decode_rpc_message(text) {
        None => {
            return Err(
                if framed {
                    String::from_str("failed to parse content-length json-rpc request")
                } else {
                    String::from_str("failed to parse json-rpc request")
                },
            )
        },
        Some(d) => d,
    };
    if skips_message(opt_as_str(&head.method)) {
        return Ok((value, RpcMessage::Skip));
    }
    match route_request(opt_as_str(&head.method), head.has_id, opt_as_str(&head.tool_name)) {
        Ok(route) => Ok((value, RpcMessage::Route(route))),
        Err(e) => Err(e),
    }
}

/// The message of a tool call the forwarder failed.
pub fn tool_call_failure(error: &str) -> (r: String)
    ensures
        r@ == "Tool call failed: "@ + error@,
{
    let mut msg = chars_of("Tool call failed: ");
    append_chars(&mut msg, &chars_of(error));
    string_of(&msg)
}

} // verus!
