//! The daemon's request handling: which tool a request names, how forwarded
//! calls map to tool requests, how skill bodies are keyed, stripped and
//! summarised for reading.
//!
//! The workspaces' locks, the JSON payloads and the sockets live around
//! this module.

use crate::registry::{find_first, first_occurrence};
use crate::text::{
    append_chars, ascii_lower, chars_eq, chars_of, is_prefix, string_of, to_ascii_lowercase,
    trim_chars, trim_ws,
};
use crate::mcp_shim::{spec_served_tools, spec_tool_names};
use crate::search::copy_chars;
use vstd::prelude::*;

verus! {

// ---------------------------------------------------------------------------
// Tool methods
// ---------------------------------------------------------------------------

/// The tools the daemon runs.
#[derive(Debug, Clone, Copy, PartialEq, Eq, Structural)]
pub enum ToolMethod {
    BrowseShelf,
    ListGroupSkills,
    SearchSkills,
    ReadSkill,
    InstallSkills,
    ValidateSkills,
    ManageGroup,
    ReclassifySkill,
    GetShelfStatus,
}

pub open spec fn spec_tool_method(m: Seq<char>) -> Option<ToolMethod> {
    if m == "browse_shelf"@ {
        Some(ToolMethod::BrowseShelf)
    } else if m == "list_group_skills"@ {
        Some(ToolMethod::ListGroupSkills)
    } else if m == "search_skills"@ {
        Some(ToolMethod::SearchSkills)
    } else if m == "read_skill"@ {
        Some(ToolMethod::ReadSkill)
    } else if m == "install_skills"@ {
        Some(ToolMethod::InstallSkills)
    } else if m == "validate_skills"@ {
        Some(ToolMethod::ValidateSkills)
    } else if m == "manage_group"@ {
        Some(ToolMethod::ManageGroup)
    } else if m == "reclassify_skill"@ {
        Some(ToolMethod::ReclassifySkill)
    } else if m == "get_shelf_status"@ {
        Some(ToolMethod::GetShelfStatus)
    } else {
        None
    }
}

/// The tool a request names; `unknown tool method: <method>` otherwise.
pub fn parse_tool_method(method: &str) -> (r: Result<ToolMethod, String>)
    ensures
        match spec_tool_method(method@) {
            Some(t) => r == Ok::<ToolMethod, String>(t),
            None => r is Err && r->Err_0@ == "unknown tool method: "@ + method@,
        },
{
    let m = chars_of(method);
    if chars_eq(&m, &chars_of("browse_shelf")) {
        Ok(ToolMethod::BrowseShelf)
    } else if chars_eq(&m, &chars_of("list_group_skills")) {
        Ok(ToolMethod::ListGroupSkills)
    } else if chars_eq(&m, &chars_of("search_skills")) {
        Ok(ToolMethod::SearchSkills)
    } else if chars_eq(&m, &chars_of("read_skill")) {
        Ok(ToolMethod::ReadSkill)
    } else if chars_eq(&m, &chars_of("install_skills")) {
        Ok(ToolMethod::InstallSkills)
    } else if chars_eq(&m, &chars_of("validate_skills")) {
        Ok(ToolMethod::ValidateSkills)
    } else if chars_eq(&m, &chars_of("manage_group")) {
        Ok(ToolMethod::ManageGroup)
    } else if chars_eq(&m, &chars_of("reclassify_skill")) {
        Ok(ToolMethod::ReclassifySkill)
    } else if chars_eq(&m, &chars_of("get_shelf_status")) {
        Ok(ToolMethod::GetShelfStatus)
    } else {
        let mut msg = chars_of("unknown tool method: ");
        append_chars(&mut msg, &m);
        Err(string_of(&msg))
    }
}

/// The shim and the daemon agree on the tools: a name is one a client may
/// call exactly when the daemon runs a tool of that name, so every listed
/// tool, and `reclassify_skill`, is served.
pub proof fn lemma_served_tools_agree(name: Seq<char>)
    ensures
        spec_served_tools().contains(name) <==> spec_tool_method(name) is Some,
        spec_tool_names().contains(name) ==> spec_tool_method(name) is Some,
{
    let t = spec_served_tools();
    assert(t[0] == "browse_shelf"@);
    assert(t[1] == "list_group_skills"@);
    assert(t[2] == "search_skills"@);
    assert(t[3] == "read_skill"@);
    assert(t[4] == "install_skills"@);
    assert(t[5] == "validate_skills"@);
    assert(t[6] == "manage_group"@);
    assert(t[7] == "get_shelf_status"@);
    assert(t[8] == "reclassify_skill"@);
    assert(t.len() == 9);
    if spec_tool_method(name) is Some {
        if name == "browse_shelf"@ {
            assert(t[0] == name);
        } else if name == "list_group_skills"@ {
            assert(t[1] == name);
        } else if name == "search_skills"@ {
            assert(t[2] == name);
        } else if name == "read_skill"@ {
            assert(t[3] == name);
        } else if name == "install_skills"@ {
            assert(t[4] == name);
        } else if name == "validate_skills"@ {
            assert(t[5] == name);
        } else if name == "manage_group"@ {
            assert(t[6] == name);
        } else if name == "reclassify_skill"@ {
            assert(t[8] == name);
        } else {
            assert(t[7] == name);
        }
    }
    if spec_tool_names().contains(name) {
        let k = choose|k: int| 0 <= k < spec_tool_names().len() && spec_tool_names()[k] == name;
        assert(t[k] == name);
    }
}

// ---------------------------------------------------------------------------
// Tool parameters
// ---------------------------------------------------------------------------

/// A string parameter a tool cannot do without: its value, else
/// `<tool> requires string <key>`.
pub fn required_string_param(value: Option<&str>, tool: &str, key: &str) -> (r: Result<String, String>)
    ensures
        match value {
            Some(v) => r is Ok && r->Ok_0@ == v@,
            None => r is Err && r->Err_0@ == tool@ + " requires string "@ + key@,
        },
{
    match value {
        Some(v) => Ok(string_of(&chars_of(v))),
        None => {
            let mut msg = chars_of(tool);
            append_chars(&mut msg, &chars_of(" requires string "));
            append_chars(&mut msg, &chars_of(key));
            Err(string_of(&msg))
        },
    }
}

/// The default number of skill summaries a group listing returns.
pub const DEFAULT_LIST_LIMIT: usize = 20;

/// A count parameter: its value as a `usize`, else the default.
pub fn count_param(value: Option<u64>, default: usize) -> (r: usize)
    ensures
        r == match value {
            Some(v) => v as usize,
            None => default,
        },
{
    match value {
        Some(v) => v as usize,
        None => default,
    }
}

/// A flag parameter: its value, else `false`.
pub fn flag_param(value: Option<bool>) -> (r: bool)
    ensures
        r == (value == Some(true)),
{
    match value {
        Some(b) => b,
        None => false,
    }
}

/// What `manage_group` does.
#[derive(Debug, Clone, Copy, PartialEq, Eq, Structural)]
pub enum GroupMode {
    Create,
    Update,
    Delete,
}

/// The mode of a `manage_group` call; `unknown manage_group mode: <mode>`
/// otherwise.
pub fn parse_group_mode(mode: &str) -> (r: Result<GroupMode, String>)
    ensures
        mode@ == "create"@ ==> r == Ok::<GroupMode, String>(GroupMode::Create),
        mode@ != "create"@ && mode@ == "update"@ ==> r == Ok::<GroupMode, String>(GroupMode::Update),
        mode@ != "create"@ && mode@ != "update"@ && mode@ == "delete"@ ==> r == Ok::<
            GroupMode,
            String,
        >(GroupMode::Delete),
        mode@ != "create"@ && mode@ != "update"@ && mode@ != "delete"@ ==> r is Err && r->Err_0@
            == "unknown manage_group mode: "@ + mode@,
{
    let m = chars_of(mode);
    if chars_eq(&m, &chars_of("create")) {
        Ok(GroupMode::Create)
    } else if chars_eq(&m, &chars_of("update")) {
        Ok(GroupMode::Update)
    } else if chars_eq(&m, &chars_of("delete")) {
        Ok(GroupMode::Delete)
    } else {
        let mut msg = chars_of("unknown manage_group mode: ");
        append_chars(&mut msg, &m);
        Err(string_of(&msg))
    }
}

/// The tool method of a forwarded call: a `tools/call` names its tool in
/// its parameters; any other method is the tool method itself.
pub fn forwarded_method(envelope_method: &str, tool_name: Option<&str>) -> (r: Result<String, String>)
    ensures
        envelope_method@ == "tools/call"@ ==> match tool_name {
            Some(t) => r is Ok && r->Ok_0@ == t@,
            None => r is Err && r->Err_0@ == "tools/call missing tool name"@,
        },
        envelope_method@ != "tools/call"@ ==> r is Ok && r->Ok_0@ == envelope_method@,
{
    let m = chars_of(envelope_method);
    if chars_eq(&m, &chars_of("tools/call")) {
        match tool_name {
            Some(t) => Ok(string_of(&chars_of(t))),
            None => Err(String::from_str("tools/call missing tool name")),
        }
    } else {
        Ok(string_of(&m))
    }
}

/// Whether a frame is the shutdown control request.
pub fn is_shutdown_method(method: Option<&str>) -> (r: bool)
    ensures
        r == (match method {
            Some(m) => m@ == "daemon/shutdown"@,
            None => false,
        }),
{
    match method {
        Some(m) => chars_eq(&chars_of(m), &chars_of("daemon/shutdown")),
        None => false,
    }
}

// ---------------------------------------------------------------------------
// Reading skills
// ---------------------------------------------------------------------------

pub open spec fn ascii_lowercased(s: Seq<char>) -> Seq<char> {
    s.map_values(|c: char| ascii_lower(c))
}

/// How a skill is looked up for reading: trimmed, ASCII-lowercased.
pub open spec fn spec_skill_key(value: Seq<char>) -> Seq<char> {
    ascii_lowercased(trim_ws(value))
}

pub fn normalize_skill_key(value: &str) -> (r: String)
    ensures
        r@ == spec_skill_key(value@),
{
    let t = trim_chars(&chars_of(value));
    let mut out: Vec<char> = Vec::new();
    let mut i: usize = 0;
    while i < t.len()
        invariant
            i <= t@.len(),
            out@ == ascii_lowercased(t@.take(i as int)),
        decreases t.len() - i,
    {
        out.push(to_ascii_lowercase(t[i]));
        i = i + 1;
        assert(out@ =~= ascii_lowercased(t@.take(i as int)));
    }
    assert(t@.take(i as int) =~= t@);
    string_of(&out)
}

/// A skill's body without its frontmatter: what follows the closing fence
/// of a `---` block at the very start, with `\n` or with `\r\n` line ends;
/// the whole text when there is no such block.
pub open spec fn spec_strip_frontmatter(body: Seq<char>) -> Seq<char> {
    if is_prefix("---\n"@, body) && first_occurrence(body.skip(4), "\n---\n"@) is Some {
        body.skip(4).skip(first_occurrence(body.skip(4), "\n---\n"@)->0 + 5)
    } else if is_prefix("---\r\n"@, body) && first_occurrence(body.skip(5), "\r\n---\r\n"@) is Some {
        body.skip(5).skip(first_occurrence(body.skip(5), "\r\n---\r\n"@)->0 + 7)
    } else {
        body
    }
}

fn tail_from(s: &Vec<char>, from: usize) -> (r: Vec<char>)
    requires
        from <= s@.len(),
    ensures
        r@ == s@.skip(from as int),
{
    let mut out: Vec<char> = Vec::new();
    let mut i: usize = from;
    while i < s.len()
        invariant
            from <= i <= s@.len(),
            out@ == s@.subrange(from as int, i as int),
        decreases s.len() - i,
    {
        out.push(s[i]);
        i = i + 1;
        assert(out@ =~= s@.subrange(from as int, i as int));
    }
    assert(out@ =~= s@.skip(from as int));
    out
}

pub fn strip_frontmatter(body: &str) -> (r: String)
    ensures
        r@ == spec_strip_frontmatter(body@),
{
    proof {
        reveal_strlit("---\n");
        reveal_strlit("---\r\n");
        reveal_strlit("\n---\n");
        reveal_strlit("\r\n---\r\n");
    }
    let b = chars_of(body);
    if crate::text::starts_with(&b, &chars_of("---\n")) {
        let rest = tail_from(&b, 4);
        if let Some(p) = find_first(&rest, &chars_of("\n---\n")) {
            let t = tail_from(&rest, p + 5);
            return string_of(&t);
        }
    }
    if crate::text::starts_with(&b, &chars_of("---\r\n")) {
        let rest = tail_from(&b, 5);
        if let Some(p) = find_first(&rest, &chars_of("\r\n---\r\n")) {
            let t = tail_from(&rest, p + 7);
            return string_of(&t);
        }
    }
    string_of(&b)
}

/// The number of pieces `split('\n')` yields: one more than the newlines.
pub open spec fn line_count(s: Seq<char>) -> nat
    decreases s.len(),
{
    if s.len() == 0 {
        1
    } else {
        line_count(s.drop_last()) + if s.last() == '\n' {
            1nat
        } else {
            0nat
        }
    }
}

/// The text up to, not including, its `n`-th newline (counting from one),
/// or all of it when it has fewer.
pub open spec fn first_lines(s: Seq<char>, n: nat) -> Seq<char>
    decreases s.len(),
{
    if s.len() == 0 {
        s
    } else if line_count(s.drop_last()) > n {
        first_lines(s.drop_last(), n)
    } else if s.last() == '\n' && line_count(s.drop_last()) == n {
        s.drop_last()
    } else {
        s
    }
}

/// The lines a reader is shown by default.
pub open spec fn summary_lines() -> nat {
    80
}

/// A body as `read_skill` shows it: all of it with `full`; else its first
/// 80 lines, marked truncated when it has more.
pub struct ReadView {
    pub contents: Seq<char>,
    pub total_lines: nat,
    pub truncated: bool,
}

pub open spec fn spec_render(contents: Seq<char>, full: bool) -> ReadView {
    let total = line_count(contents);
    if full {
        ReadView { contents: contents, total_lines: total, truncated: false }
    } else if total > summary_lines() {
        ReadView { contents: first_lines(contents, summary_lines()), total_lines: total, truncated: true }
    } else {
        ReadView { contents: contents, total_lines: total, truncated: false }
    }
}

/// What `read_skill` returns of a body.
pub struct ReadModel {
    pub contents: String,
    pub total_lines: usize,
    pub truncated: bool,
}

proof fn lemma_line_count_grows(s: Seq<char>, j: int)
    requires
        0 <= j <= s.len(),
    ensures
        line_count(s.take(j)) <= line_count(s),
        line_count(s) <= s.len() + 1,
    decreases s.len() - j,
{
    if j < s.len() {
        assert(s.drop_last().take(j) =~= s.take(j));
        lemma_line_count_grows(s.drop_last(), j);
    } else {
        assert(s.take(j) =~= s);
        lemma_line_count_bound(s);
    }
}

proof fn lemma_line_count_bound(s: Seq<char>)
    ensures
        line_count(s) <= s.len() + 1,
    decreases s.len(),
{
    if s.len() > 0 {
        lemma_line_count_bound(s.drop_last());
    }
}

pub fn render_read_model(contents: &str, full: bool) -> (r: ReadModel)
    requires
        contents@.len() < usize::MAX,
    ensures
        r.contents@ == spec_render(contents@, full).contents,
        r.total_lines == spec_render(contents@, full).total_lines,
        r.truncated == spec_render(contents@, full).truncated,
{
    let c = chars_of(contents);
    // count the lines and find where the 80th one ends
    let mut count: usize = 1;
    let mut cut: usize = c.len();
    let mut i: usize = 0;
    assert(c@.take(0) =~= Seq::<char>::empty());
    proof {
        lemma_line_count_bound(c@);
    }
    while i < c.len()
        invariant
            i <= c@.len(),
            c@.len() < usize::MAX,
            count == line_count(c@.take(i as int)),
            count <= i + 1,
            line_count(c@.take(i as int)) <= 80 ==> cut == c@.len(),
            line_count(c@.take(i as int)) > 80 ==> cut <= i && first_lines(c@.take(i as int), 80)
                == c@.take(cut as int),
        decreases c.len() - i,
    {
        let ghost t = c@.take(i + 1);
        assert(t.drop_last() =~= c@.take(i as int));
        assert(t.last() == c@[i as int]);
        if c[i] == '\n' {
            if count == 80 {
                cut = i;
                assert(first_lines(t, 80) == t.drop_last());
                assert(c@.take(cut as int) =~= t.drop_last());
            }
            count = count + 1;
        }
        proof {
            if line_count(c@.take(i as int)) > 80 {
                assert(first_lines(t, 80) == first_lines(c@.take(i as int), 80));
            }
        }
        i = i + 1;
    }
    assert(c@.take(i as int) =~= c@);
    if full || count <= 80 {
        return ReadModel { contents: string_of(&c), total_lines: count, truncated: false };
    }
    let mut out: Vec<char> = Vec::new();
    let mut k: usize = 0;
    while k < cut
        invariant
            k <= cut <= c@.len(),
            out@ == c@.take(k as int),
        decreases cut - k,
    {
        out.push(c[k]);
        k = k + 1;
        assert(out@ =~= c@.take(k as int));
    }
    ReadModel { contents: string_of(&out), total_lines: count, truncated: true }
}

} // verus!
