//! `SKILL.md` handling: the frontmatter block, keywords drawn from the
//! description, and the choice of a group for a skill.
//!
//! The YAML of the block is decoded by serde_yaml behind
//! `decode_yaml_frontmatter`; reading the file happens outside this crate.

use crate::model::{
    groups_view, opt_string_view, strings_view, ManagedGroupRecord, ManagedGroupView, ParsedSkill,
    ParsedView,
};
use crate::search::{copy_chars, vviews};
use crate::text::{
    append_chars, chars_eq, chars_of, contains, is_ascii_alnum, is_ascii_alphanumeric, is_cjk,
    is_cjk_char, join_chars, join_with, lowercase, occurs_in, runs, split_runs, str_lowercase,
    string_of, trim_chars, trim_string, trim_ws, Separator,
};
use serde_yaml::Value;
use vstd::prelude::*;

verus! {

// ---------------------------------------------------------------------------
// Lines and the frontmatter block
// ---------------------------------------------------------------------------

/// Drops one trailing carriage return.
pub open spec fn strip_cr(line: Seq<char>) -> Seq<char> {
    if line.len() > 0 && line.last() == '\r' {
        line.drop_last()
    } else {
        line
    }
}

/// Scanning for `str::lines`: the finished lines and the line still open.
pub open spec fn line_scan(s: Seq<char>) -> (Seq<Seq<char>>, Seq<char>)
    decreases s.len(),
{
    if s.len() == 0 {
        (Seq::empty(), Seq::empty())
    } else {
        let (done, cur) = line_scan(s.drop_last());
        if s.last() == '\n' {
            (done.push(strip_cr(cur)), Seq::empty())
        } else {
            (done, cur.push(s.last()))
        }
    }
}

/// `str::lines`: lines end at `\n`, a `\r` just before it is dropped, and
/// a final line without a line ending is kept as it is.
pub open spec fn spec_lines(s: Seq<char>) -> Seq<Seq<char>> {
    let (done, cur) = line_scan(s);
    if cur.len() > 0 {
        done.push(cur)
    } else {
        done
    }
}

pub fn lines_of(s: &Vec<char>) -> (r: Vec<Vec<char>>)
    ensures
        vviews(r@) == spec_lines(s@),
{
    let mut done: Vec<Vec<char>> = Vec::new();
    let mut cur: Vec<char> = Vec::new();
    let mut i: usize = 0;
    while i < s.len()
        invariant
            i <= s.len(),
            vviews(done@) == line_scan(s@.take(i as int)).0,
            cur@ == line_scan(s@.take(i as int)).1,
        decreases s.len() - i,
    {
        assert(s@.take(i + 1).drop_last() =~= s@.take(i as int));
        if s[i] == '\n' {
            if cur.len() > 0 && cur[cur.len() - 1] == '\r' {
                cur.pop();
            }
            proof {
                crate::search::lemma_vviews_push(done@, cur);
            }
            done.push(cur);
            cur = Vec::new();
        } else {
            cur.push(s[i]);
        }
        i = i + 1;
    }
    assert(s@.take(s.len() as int) =~= s@);
    if cur.len() > 0 {
        proof {
            crate::search::lemma_vviews_push(done@, cur);
        }
        done.push(cur);
    }
    done
}

/// Why no frontmatter block was found.
#[derive(Debug, Clone, Copy, PartialEq, Eq, Structural)]
pub enum FrontmatterError {
    MissingStart,
    MissingEnd,
}

impl FrontmatterError {
    pub fn message(&self) -> (m: String)
        ensures
            *self == FrontmatterError::MissingStart ==> m@ == "missing frontmatter start"@,
            *self == FrontmatterError::MissingEnd ==> m@ == "missing frontmatter end"@,
    {
        match self {
            FrontmatterError::MissingStart => String::from_str("missing frontmatter start"),
            FrontmatterError::MissingEnd => String::from_str("missing frontmatter end"),
        }
    }
}

/// The lines before the first `---`, each followed by a newline; `None`
/// when no line is `---`.
pub open spec fn block_until_fence(ls: Seq<Seq<char>>) -> Option<Seq<char>>
    decreases ls.len(),
{
    if ls.len() == 0 {
        None
    } else if ls[0] == "---"@ {
        Some(Seq::empty())
    } else {
        match block_until_fence(ls.drop_first()) {
            Some(rest) => Some(ls[0] + seq!['\n'] + rest),
            None => None,
        }
    }
}

/// The YAML text between a first line `---` and the next line `---`.
pub open spec fn spec_frontmatter_block(raw: Seq<char>) -> Result<Seq<char>, FrontmatterError> {
    let ls = spec_lines(raw);
    if ls.len() == 0 || ls[0] != "---"@ {
        Err(FrontmatterError::MissingStart)
    } else {
        match block_until_fence(ls.drop_first()) {
            Some(b) => Ok(b),
            None => Err(FrontmatterError::MissingEnd),
        }
    }
}

proof fn lemma_block_prefix(ls: Seq<Seq<char>>, k: int, acc: Seq<char>)
    requires
        0 <= k <= ls.len(),
        forall|t: int| 0 <= t < k ==> #[trigger] ls[t] != "---"@,
        acc == join_lines(ls.take(k)),
    ensures
        block_until_fence(ls) == match block_until_fence(ls.skip(k)) {
            Some(rest) => Some(acc + rest),
            None => None::<Seq<char>>,
        },
    decreases k,
{
    if k == 0 {
        assert(ls.skip(0) =~= ls);
        assert(acc =~= Seq::<char>::empty());
        match block_until_fence(ls) {
            Some(rest) => {
                assert(acc + rest =~= rest);
            },
            None => {},
        }
    } else {
        let tail = ls.drop_first();
        assert forall|t: int| 0 <= t < k - 1 implies #[trigger] tail[t] != "---"@ by {
            assert(tail[t] == ls[t + 1]);
        }
        lemma_join_lines_first(ls.take(k));
        assert(ls.take(k).drop_first() =~= tail.take(k - 1));
        let acc2 = join_lines(tail.take(k - 1));
        lemma_block_prefix(tail, k - 1, acc2);
        assert(tail.skip(k - 1) =~= ls.skip(k));
        assert(ls[0] != "---"@);
        match block_until_fence(ls.skip(k)) {
            Some(rest) => {
                assert(acc == ls[0] + seq!['\n'] + acc2);
                assert(ls[0] + seq!['\n'] + (acc2 + rest) =~= acc + rest);
            },
            None => {},
        }
    }
}

/// Each line followed by a newline, concatenated.
pub open spec fn join_lines(ls: Seq<Seq<char>>) -> Seq<char>
    decreases ls.len(),
{
    if ls.len() == 0 {
        Seq::empty()
    } else {
        join_lines(ls.drop_last()) + ls.last() + seq!['\n']
    }
}

proof fn lemma_join_lines_first(ls: Seq<Seq<char>>)
    requires
        ls.len() > 0,
    ensures
        join_lines(ls) == ls[0] + seq!['\n'] + join_lines(ls.drop_first()),
    decreases ls.len(),
{
    if ls.len() == 1 {
        assert(ls.drop_first() =~= Seq::<Seq<char>>::empty());
        assert(ls.drop_last() =~= Seq::<Seq<char>>::empty());
        assert(join_lines(ls) =~= ls[0] + seq!['\n'] + join_lines(ls.drop_first()));
    } else {
        lemma_join_lines_first(ls.drop_last());
        assert(ls.drop_last().drop_first() =~= ls.drop_first().drop_last());
        assert(ls.drop_first().last() == ls.last());
        assert(join_lines(ls) =~= ls[0] + seq!['\n'] + join_lines(ls.drop_first()));
    }
}

fn fence() -> (r: Vec<char>)
    ensures
        r@ == "---"@,
{
    chars_of("---")
}

/// A frontmatter value as the library reads it: a YAML null, boolean,
/// number (as its text) or string, or anything else as its YAML rendering.
#[derive(Debug, Clone, PartialEq, Eq)]
pub enum FrontmatterValue {
    Null,
    Bool(bool),
    Number(String),
    Text(String),
    Nested(String),
}

/// A value as field text: empty for null, `true` or `false`, a number's
/// text, the string itself, or the trimmed rendering of anything else.
pub open spec fn spec_field_text(v: FrontmatterValue) -> Seq<char> {
    match v {
        FrontmatterValue::Null => Seq::empty(),
        FrontmatterValue::Bool(b) => if b {
            "true"@
        } else {
            "false"@
        },
        FrontmatterValue::Number(n) => n@,
        FrontmatterValue::Text(t) => t@,
        FrontmatterValue::Nested(y) => trim_ws(y@),
    }
}

pub fn field_text(v: &FrontmatterValue) -> (r: String)
    ensures
        r@ == spec_field_text(*v),
{
    match v {
        FrontmatterValue::Null => String::new(),
        FrontmatterValue::Bool(b) => if *b {
            String::from_str("true")
        } else {
            String::from_str("false")
        },
        FrontmatterValue::Number(n) => string_of(&chars_of(n.as_str())),
        FrontmatterValue::Text(t) => string_of(&chars_of(t.as_str())),
        FrontmatterValue::Nested(y) => trim_string(y.as_str()),
    }
}

pub open spec fn entries_view(v: Seq<(Option<String>, FrontmatterValue)>) -> Seq<(Option<Seq<char>>, FrontmatterValue)> {
    v.map_values(|e: (Option<String>, FrontmatterValue)| (opt_string_view(e.0), e.1))
}

/// A top-level field of a frontmatter mapping, given its entries in order
/// (a key that is not a string is `None`): the text of the last entry whose
/// trimmed key is `key`, or `None` when there is none.
pub open spec fn spec_frontmatter_field(entries: Seq<(Option<Seq<char>>, FrontmatterValue)>, key: Seq<char>) -> Option<Seq<char>>
    decreases entries.len(),
{
    if entries.len() == 0 {
        None
    } else {
        let e = entries.last();
        match e.0 {
            Some(k) => if trim_ws(k) == key {
                Some(spec_field_text(e.1))
            } else {
                spec_frontmatter_field(entries.drop_last(), key)
            },
            None => spec_frontmatter_field(entries.drop_last(), key),
        }
    }
}

pub fn frontmatter_field(entries: &Vec<(Option<String>, FrontmatterValue)>, key: &str) -> (r: Option<String>)
    ensures
        opt_string_view(r) == spec_frontmatter_field(entries_view(entries@), key@),
{
    let ghost ev = entries_view(entries@);
    let want = chars_of(key);
    let mut i: usize = entries.len();
    assert(ev.take(i as int) =~= ev);
    while i > 0
        invariant
            i <= entries@.len(),
            ev == entries_view(entries@),
            want@ == key@,
            spec_frontmatter_field(ev, key@) == spec_frontmatter_field(ev.take(i as int), key@),
        decreases i,
    {
        let ghost t = ev.take(i as int);
        assert(t.drop_last() =~= ev.take(i - 1));
        assert(t.last() == (opt_string_view(entries@[i - 1].0), entries@[i - 1].1));
        match &entries[i - 1].0 {
            Some(k) => {
                if chars_eq(&chars_of(trim_string(k.as_str()).as_str()), &want) {
                    return Some(field_text(&entries[i - 1].1));
                }
            },
            None => {},
        }
        i = i - 1;
    }
    None
}

/// What serde_yaml made of a frontmatter block.
#[derive(Debug, Clone, PartialEq, Eq)]
pub enum YamlDecoded {
    /// The text is not YAML.
    NotYaml,
    /// The YAML is not a mapping.
    NotMapping,
    /// A nested value could not be rendered back as YAML.
    Unprintable,
    /// The mapping's entries, in order.
    Mapping(Vec<(Option<String>, FrontmatterValue)>),
}

pub enum YamlDecodedView {
    NotYaml,
    NotMapping,
    Unprintable,
    Mapping(Seq<(Option<Seq<char>>, FrontmatterValue)>),
}

impl View for YamlDecoded {
    type V = YamlDecodedView;

    open spec fn view(&self) -> YamlDecodedView {
        match self {
            YamlDecoded::NotYaml => YamlDecodedView::NotYaml,
            YamlDecoded::NotMapping => YamlDecodedView::NotMapping,
            YamlDecoded::Unprintable => YamlDecodedView::Unprintable,
            YamlDecoded::Mapping(v) => YamlDecodedView::Mapping(entries_view(v@)),
        }
    }
}

/// What `serde_yaml` decodes a frontmatter block to: a function of the
/// block's text alone.
pub uninterp spec fn yaml_frontmatter(block: Seq<char>) -> YamlDecodedView;

/// serde_yaml `from_str::<Value>`, `Value::as_mapping`, and for each entry
/// `Value::as_str` of the key and one arm per variant of the value, with
/// `Number`'s `Display` and `serde_yaml::to_string` for a nested value: the
/// result is named `yaml_frontmatter` of the block; nothing more is claimed.
#[verifier::external_body]
pub fn decode_yaml_frontmatter(block: &str) -> (r: YamlDecoded)
    ensures
        r@ == yaml_frontmatter(block@),
{
    let Ok(yaml) = serde_yaml::from_str::<Value>(block) else { return YamlDecoded::NotYaml };
    let Some(mapping) = yaml.as_mapping() else { return YamlDecoded::NotMapping };
    let mut entries = Vec::new();
    for (key, value) in mapping {
        let value = match value {
            Value::Null => FrontmatterValue::Null,
            Value::Bool(b) => FrontmatterValue::Bool(*b),
            Value::Number(n) => FrontmatterValue::Number(n.to_string()),
            Value::String(t) => FrontmatterValue::Text(t.clone()),
            other => match serde_yaml::to_string(other) { Ok(y) => FrontmatterValue::Nested(y), Err(_) => return YamlDecoded::Unprintable },
        };
        entries.push((key.as_str().map(str::to_string), value));
    }
    YamlDecoded::Mapping(entries)
}

/// The entries of a `SKILL.md`'s frontmatter, or why there are none: the
/// block's own error, or that its YAML does not decode, is not a mapping,
/// or holds a value that cannot be rendered.
pub open spec fn spec_frontmatter_entries(raw: Seq<char>) -> Result<Seq<(Option<Seq<char>>, FrontmatterValue)>, Seq<char>> {
    match spec_frontmatter_block(raw) {
        Err(FrontmatterError::MissingStart) => Err("missing frontmatter start"@),
        Err(FrontmatterError::MissingEnd) => Err("missing frontmatter end"@),
        Ok(block) => match yaml_frontmatter(block) {
            YamlDecodedView::NotYaml => Err("failed to parse YAML frontmatter"@),
            YamlDecodedView::NotMapping => Err("frontmatter must be a YAML mapping"@),
            YamlDecodedView::Unprintable => Err("failed to stringify YAML frontmatter value"@),
            YamlDecodedView::Mapping(entries) => Ok(entries),
        },
    }
}

pub fn parse_frontmatter_fields(raw: &str) -> (r: Result<Vec<(Option<String>, FrontmatterValue)>, String>)
    ensures
        match r {
            Ok(v) => spec_frontmatter_entries(raw@) == Ok::<_, Seq<char>>(entries_view(v@)),
            Err(e) => spec_frontmatter_entries(raw@) == Err::<Seq<(Option<Seq<char>>, FrontmatterValue)>, _>(e@),
        },
{
    let block = match frontmatter_block(raw) {
        Ok(b) => b,
        Err(e) => return Err(e.message()),
    };
    match decode_yaml_frontmatter(block.as_str()) {
        YamlDecoded::NotYaml => Err(String::from_str("failed to parse YAML frontmatter")),
        YamlDecoded::NotMapping => Err(String::from_str("frontmatter must be a YAML mapping")),
        YamlDecoded::Unprintable => Err(String::from_str("failed to stringify YAML frontmatter value")),
        YamlDecoded::Mapping(v) => Ok(v),
    }
}

/// The `name` and `description` a `SKILL.md` declares, as serde reads them
/// into a record of two strings: each the string value of the entry whose
/// key is exactly that word; `None` when either is missing or not a string.
pub open spec fn spec_string_entry(entries: Seq<(Option<Seq<char>>, FrontmatterValue)>, key: Seq<char>) -> Option<Seq<char>>
    decreases entries.len(),
{
    if entries.len() == 0 {
        None
    } else {
        let e = entries.last();
        if e.0 == Some(key) {
            match e.1 {
                FrontmatterValue::Text(t) => Some(t@),
                _ => None,
            }
        } else {
            spec_string_entry(entries.drop_last(), key)
        }
    }
}

pub fn string_entry(entries: &Vec<(Option<String>, FrontmatterValue)>, key: &str) -> (r: Option<String>)
    ensures
        opt_string_view(r) == spec_string_entry(entries_view(entries@), key@),
{
    let ghost ev = entries_view(entries@);
    let want = chars_of(key);
    let mut i: usize = entries.len();
    assert(ev.take(i as int) =~= ev);
    while i > 0
        invariant
            i <= entries@.len(),
            ev == entries_view(entries@),
            want@ == key@,
            spec_string_entry(ev, key@) == spec_string_entry(ev.take(i as int), key@),
        decreases i,
    {
        let ghost t = ev.take(i as int);
        assert(t.drop_last() =~= ev.take(i - 1));
        assert(t.last() == (opt_string_view(entries@[i - 1].0), entries@[i - 1].1));
        match &entries[i - 1].0 {
            Some(k) => {
                if chars_eq(&chars_of(k.as_str()), &want) {
                    return match &entries[i - 1].1 {
                        FrontmatterValue::Text(t) => Some(string_of(&chars_of(t.as_str()))),
                        _ => None,
                    };
                }
            },
            None => {},
        }
        i = i - 1;
    }
    None
}

/// The `name` and `description` of a `SKILL.md`, for indexing it: both must
/// be strings, else `failed to parse YAML frontmatter`; a frontmatter that
/// does not decode gives its own error.
pub fn skill_header(raw: &str) -> (r: Result<(String, String), String>)
    ensures
        match spec_frontmatter_entries(raw@) {
            Err(e) => r is Err && r->Err_0@ == e,
            Ok(entries) => match (spec_string_entry(entries, "name"@), spec_string_entry(entries, "description"@)) {
                (Some(n), Some(d)) => r is Ok && r->Ok_0.0@ == n && r->Ok_0.1@ == d,
                _ => r is Err && r->Err_0@ == "failed to parse YAML frontmatter"@,
            },
        },
{
    let entries = parse_frontmatter_fields(raw)?;
    match (string_entry(&entries, "name"), string_entry(&entries, "description")) {
        (Some(n), Some(d)) => Ok((n, d)),
        _ => Err(String::from_str("failed to parse YAML frontmatter")),
    }
}

/// The YAML text of the frontmatter block of a `SKILL.md`.
pub fn frontmatter_block(raw: &str) -> (r: Result<String, FrontmatterError>)
    ensures
        match r {
            Ok(b) => spec_frontmatter_block(raw@) == Ok::<Seq<char>, FrontmatterError>(b@),
            Err(e) => spec_frontmatter_block(raw@) == Err::<Seq<char>, FrontmatterError>(e),
        },
{
    let chars = chars_of(raw);
    let ls = lines_of(&chars);
    let dashes = fence();
    if ls.len() == 0 || !chars_eq(&ls[0], &dashes) {
        return Err(FrontmatterError::MissingStart);
    }
    let ghost rest = vviews(ls@).drop_first();
    assert(vviews(ls@)[0] == ls@[0]@);
    let mut block: Vec<char> = Vec::new();
    let mut k: usize = 1;
    while k < ls.len()
        invariant
            1 <= k <= ls.len(),
            dashes@ == "---"@,
            vviews(ls@) == spec_lines(raw@),
            vviews(ls@)[0] == "---"@,
            rest == vviews(ls@).drop_first(),
            forall|t: int| 0 <= t < k - 1 ==> #[trigger] rest[t] != "---"@,
            block@ == join_lines(rest.take(k - 1)),
        decreases ls.len() - k,
    {
        assert(rest[k - 1] == ls@[k as int]@);
        if chars_eq(&ls[k], &dashes) {
            proof {
                lemma_block_prefix(rest, k - 1, block@);
                assert(rest.skip(k - 1)[0] == rest[k - 1]);
                assert(rest[k - 1] == "---"@);
                assert(block_until_fence(rest.skip(k - 1)) == Some(Seq::<char>::empty()));
                assert(block@ + Seq::<char>::empty() =~= block@);
                assert(block_until_fence(rest) == Some(block@));
                assert(vviews(ls@) == spec_lines(raw@));
                assert(vviews(ls@)[0] == "---"@);
                assert(spec_frontmatter_block(raw@) == Ok::<Seq<char>, FrontmatterError>(block@));
            }
            let out = string_of(&block);
            return Ok(out);
        }
        append_chars(&mut block, &ls[k]);
        block.push('\n');
        assert(rest.take(k as int).drop_last() =~= rest.take(k - 1));
        assert(block@ =~= join_lines(rest.take(k as int)));
        k = k + 1;
    }
    proof {
        lemma_block_prefix(rest, k - 1, block@);
        assert(rest.skip(k - 1).len() == 0);
    }
    Err(FrontmatterError::MissingEnd)
}

// ---------------------------------------------------------------------------
// Descriptions and keywords
// ---------------------------------------------------------------------------

/// Whitespace runs collapsed to single spaces, with none at either end.
pub open spec fn spec_normalize_description(d: Seq<char>) -> Seq<char> {
    join_with(runs(d, Separator::Whitespace), seq![' '])
}

pub fn normalize_description_chars(d: &Vec<char>) -> (r: Vec<char>)
    ensures
        r@ == spec_normalize_description(d@),
{
    let words = split_runs(d, Separator::Whitespace);
    let mut space: Vec<char> = Vec::new();
    space.push(' ');
    let r = join_chars(&words, &space);
    assert(words@.map_values(|p: Vec<char>| p@) =~= runs(d@, Separator::Whitespace));
    assert(space@ =~= seq![' ']);
    r
}

/// Collapses the whitespace of a description.
pub fn normalize_description(description: &str) -> (r: String)
    ensures
        r@ == spec_normalize_description(description@),
{
    let chars = chars_of(description);
    let r = normalize_description_chars(&chars);
    string_of(&r)
}

/// ASCII letters and digits, `-` and CJK ideographs.
pub open spec fn is_kw_char(c: char) -> bool {
    is_ascii_alnum(c) || c == '-' || is_cjk_char(c)
}

pub fn is_keyword_char(c: char) -> (r: bool)
    ensures
        r == is_kw_char(c),
{
    is_ascii_alphanumeric(c) || c == '-' || is_cjk(c)
}

pub open spec fn strip_non_kw_start(s: Seq<char>) -> Seq<char>
    decreases s.len(),
{
    if s.len() == 0 {
        s
    } else if is_kw_char(s[0]) {
        s
    } else {
        strip_non_kw_start(s.drop_first())
    }
}

pub open spec fn strip_non_kw_end(s: Seq<char>) -> Seq<char>
    decreases s.len(),
{
    if s.len() == 0 {
        s
    } else if is_kw_char(s.last()) {
        s
    } else {
        strip_non_kw_end(s.drop_last())
    }
}

/// A piece without the non-keyword characters at either end.
pub open spec fn spec_trim_keyword(s: Seq<char>) -> Seq<char> {
    strip_non_kw_end(strip_non_kw_start(s))
}

proof fn lemma_strip_start_skip(s: Seq<char>, i: int)
    requires
        0 <= i <= s.len(),
        forall|k: int| 0 <= k < i ==> !is_kw_char(#[trigger] s[k]),
    ensures
        strip_non_kw_start(s) == strip_non_kw_start(s.skip(i)),
    decreases i,
{
    if i > 0 {
        assert forall|k: int| 0 <= k < i - 1 implies !is_kw_char(#[trigger] s.drop_first()[k]) by {
            assert(s.drop_first()[k] == s[k + 1]);
        }
        lemma_strip_start_skip(s.drop_first(), i - 1);
        assert(s.drop_first().skip(i - 1) =~= s.skip(i));
    } else {
        assert(s.skip(0) =~= s);
    }
}

proof fn lemma_strip_end_take(s: Seq<char>, j: int)
    requires
        0 <= j <= s.len(),
        forall|k: int| j <= k < s.len() ==> !is_kw_char(#[trigger] s[k]),
    ensures
        strip_non_kw_end(s) == strip_non_kw_end(s.take(j)),
    decreases s.len() - j,
{
    if j < s.len() {
        assert forall|k: int| j <= k < s.len() - 1 implies !is_kw_char(#[trigger] s.drop_last()[k]) by {
            assert(s.drop_last()[k] == s[k]);
        }
        lemma_strip_end_take(s.drop_last(), j);
        assert(s.drop_last().take(j) =~= s.take(j));
    } else {
        assert(s.take(j) =~= s);
    }
}

/// Strips the characters that are not keyword characters from both ends.
pub fn trim_keyword_token(part: &Vec<char>) -> (r: Vec<char>)
    ensures
        r@ == spec_trim_keyword(part@),
{
    let mut start: usize = 0;
    while start < part.len() && !is_keyword_char(part[start])
        invariant
            start <= part.len(),
            forall|k: int| 0 <= k < start ==> !is_kw_char(#[trigger] part@[k]),
        decreases part.len() - start,
    {
        start = start + 1;
    }
    proof {
        lemma_strip_start_skip(part@, start as int);
    }
    let ghost t = part@.skip(start as int);
    assert(strip_non_kw_start(t) == t);
    let mut end: usize = part.len();
    while end > start && !is_keyword_char(part[end - 1])
        invariant
            start <= end <= part.len(),
            t == part@.skip(start as int),
            forall|k: int| end - start <= k < t.len() ==> !is_kw_char(#[trigger] t[k]),
        decreases end - start,
    {
        end = end - 1;
    }
    proof {
        lemma_strip_end_take(t, end - start);
    }
    let ghost u = t.take(end - start);
    assert(strip_non_kw_end(u) == u);
    let mut out: Vec<char> = Vec::new();
    let mut i: usize = start;
    while i < end
        invariant
            start <= i <= end <= part.len(),
            out@ == part@.subrange(start as int, i as int),
        decreases end - i,
    {
        out.push(part[i]);
        i = i + 1;
        assert(out@ =~= part@.subrange(start as int, i as int));
    }
    assert(out@ =~= u);
    out
}

/// Collecting keywords from the pieces: each trimmed piece of three or more
/// characters not seen before is kept, until `cap` keywords are held.
pub open spec fn keyword_fold(pieces: Seq<Seq<char>>, cap: nat) -> Seq<Seq<char>>
    decreases pieces.len(),
{
    if pieces.len() == 0 {
        Seq::empty()
    } else {
        let prev = keyword_fold(pieces.drop_last(), cap);
        let t = spec_trim_keyword(pieces.last());
        if prev.len() >= cap || t.len() < 3 || prev.contains(t) {
            prev
        } else {
            prev.push(t)
        }
    }
}

/// The keywords of a description: its lowercase form split at whitespace
/// and commas, at most `max(max_keywords, 1)` of them.
pub open spec fn spec_derive_keywords(description: Seq<char>, max_keywords: usize) -> Seq<
    Seq<char>,
> {
    keyword_fold(
        runs(str_lowercase(description), Separator::WhitespaceOrComma),
        if max_keywords >= 1 {
            max_keywords as nat
        } else {
            1
        },
    )
}

fn chars_list_contains(list: &Vec<Vec<char>>, x: &Vec<char>) -> (r: bool)
    ensures
        r == vviews(list@).contains(x@),
{
    let mut i: usize = 0;
    while i < list.len()
        invariant
            i <= list.len(),
            forall|k: int| 0 <= k < i ==> list@[k]@ != x@,
        decreases list.len() - i,
    {
        if chars_eq(&list[i], x) {
            assert(vviews(list@)[i as int] == x@);
            return true;
        }
        i = i + 1;
    }
    proof {
        if vviews(list@).contains(x@) {
            let k = choose|k: int| 0 <= k < vviews(list@).len() && vviews(list@)[k] == x@;
            assert(list@[k]@ == x@);
        }
    }
    false
}

/// The keywords of a skill never outnumber the cap, nor the pieces they
/// come from.
pub proof fn lemma_keyword_fold_capped(pieces: Seq<Seq<char>>, cap: nat)
    ensures
        keyword_fold(pieces, cap).len() <= if pieces.len() <= cap {
            pieces.len()
        } else {
            cap
        },
    decreases pieces.len(),
{
    if pieces.len() > 0 {
        lemma_keyword_fold_capped(pieces.drop_last(), cap);
    }
}

/// The keywords of a skill are distinct, each at least three characters
/// long, and each a trimmed piece of the description.
pub proof fn lemma_keyword_fold_shape(pieces: Seq<Seq<char>>, cap: nat)
    ensures
        forall|i: int, j: int|
            0 <= i < j < keyword_fold(pieces, cap).len() ==> keyword_fold(pieces, cap)[i]
                != keyword_fold(pieces, cap)[j],
        forall|i: int|
            0 <= i < keyword_fold(pieces, cap).len() ==> (#[trigger] keyword_fold(pieces, cap)[i]).len()
                >= 3,
        forall|i: int|
            0 <= i < keyword_fold(pieces, cap).len() ==> exists|k: int|
                0 <= k < pieces.len() && #[trigger] keyword_fold(pieces, cap)[i] == spec_trim_keyword(
                    pieces[k],
                ),
    decreases pieces.len(),
{
    if pieces.len() > 0 {
        let rest = pieces.drop_last();
        lemma_keyword_fold_shape(rest, cap);
        let prev = keyword_fold(rest, cap);
        let out = keyword_fold(pieces, cap);
        assert forall|i: int| 0 <= i < out.len() implies exists|k: int|
            0 <= k < pieces.len() && #[trigger] out[i] == spec_trim_keyword(pieces[k]) by {
            if i < prev.len() {
                assert(out[i] == prev[i]);
                let k = choose|k: int| 0 <= k < rest.len() && #[trigger] prev[i] == spec_trim_keyword(rest[k]);
                assert(rest[k] == pieces[k]);
            } else {
                assert(out[i] == spec_trim_keyword(pieces[pieces.len() - 1]));
            }
        }
        assert forall|i: int, j: int| 0 <= i < j < out.len() implies out[i] != out[j] by {
            if j < prev.len() {
                assert(out[i] == prev[i] && out[j] == prev[j]);
            } else {
                assert(out[i] == prev[i]);
                assert(prev.contains(prev[i]));
            }
        }
        assert forall|i: int| 0 <= i < out.len() implies (#[trigger] out[i]).len() >= 3 by {
            if i < prev.len() {
                assert(out[i] == prev[i]);
            }
        }
    }
}

/// Group matching picks the first group with the highest score, and only a
/// group with a positive score: every group scores at most the chosen one,
/// every group before it scores less, and no group is chosen when all score
/// zero.
pub proof fn lemma_best_group_first_highest(groups: Seq<ManagedGroupView>, hay: Seq<char>)
    ensures
        match best_group(groups, hay) {
            Some((i, sc)) => {
                &&& 0 <= i < groups.len()
                &&& sc == group_score(groups[i], hay)
                &&& sc > 0
                &&& forall|k: int| 0 <= k < groups.len() ==> #[trigger] group_score(groups[k], hay) <= sc
                &&& forall|k: int| 0 <= k < i ==> #[trigger] group_score(groups[k], hay) < sc
            },
            None => forall|k: int| 0 <= k < groups.len() ==> #[trigger] group_score(groups[k], hay) == 0,
        },
    decreases groups.len(),
{
    if groups.len() > 0 {
        let rest = groups.drop_last();
        lemma_best_group_first_highest(rest, hay);
        assert forall|k: int| 0 <= k < rest.len() implies rest[k] == groups[k] by {}
        let last = (groups.len() - 1) as int;
        assert(groups.last() == groups[last]);
        match best_group(rest, hay) {
            Some((i, sc)) => {
                assert(rest[i] == groups[i]);
                assert forall|k: int| 0 <= k < rest.len() implies #[trigger] group_score(groups[k], hay)
                    <= sc by {
                    assert(group_score(rest[k], hay) <= sc);
                }
                assert forall|k: int| 0 <= k < i implies #[trigger] group_score(groups[k], hay) < sc by {
                    assert(group_score(rest[k], hay) < sc);
                }
            },
            None => {
                assert forall|k: int| 0 <= k < rest.len() implies #[trigger] group_score(groups[k], hay)
                    == 0 by {
                    assert(group_score(rest[k], hay) == 0);
                }
            },
        }
    }
}

proof fn lemma_count_occurring(words: Seq<Seq<char>>, hay: Seq<char>)
    ensures
        (exists|k: int| 0 <= k < words.len() && occurs_in(str_lowercase(#[trigger] words[k]), hay))
            ==> count_occurring(words, hay) >= 1,
        (forall|k: int| 0 <= k < words.len() ==> !occurs_in(str_lowercase(#[trigger] words[k]), hay))
            ==> count_occurring(words, hay) == 0,
    decreases words.len(),
{
    if words.len() > 0 {
        let d = words.drop_last();
        lemma_count_occurring(d, hay);
        if exists|k: int| 0 <= k < words.len() && occurs_in(str_lowercase(#[trigger] words[k]), hay) {
            let k = choose|k: int| 0 <= k < words.len() && occurs_in(str_lowercase(#[trigger] words[k]), hay);
            if k < d.len() {
                assert(d[k] == words[k]);
            } else {
                assert(words.last() == words[k]);
            }
        }
        if forall|k: int| 0 <= k < words.len() ==> !occurs_in(str_lowercase(#[trigger] words[k]), hay) {
            assert forall|k: int| 0 <= k < d.len() implies !occurs_in(str_lowercase(#[trigger] d[k]), hay) by {
                assert(d[k] == words[k]);
            }
            assert(words.last() == words[words.len() - 1]);
        }
    }
}

/// Whether the text names a group at all: one of its keywords or aliases,
/// or its own id, lowercased, occurs in it.
pub open spec fn text_names_group(g: ManagedGroupView, hay: Seq<char>) -> bool {
    ||| exists|k: int| 0 <= k < g.keywords.len() && occurs_in(str_lowercase(#[trigger] g.keywords[k]), hay)
    ||| exists|k: int| 0 <= k < g.aliases.len() && occurs_in(str_lowercase(#[trigger] g.aliases[k]), hay)
    ||| occurs_in(str_lowercase(g.group), hay)
}

/// A keyword files a skill: when one keyword of a group occurs, lowercased,
/// in the skill's lowercased name, description and keywords, and the text
/// names no other group by keyword, alias or id, the skill goes to that
/// group.
pub proof fn lemma_keyword_picks_group(
    name: Seq<char>,
    description: Seq<char>,
    keywords: Seq<Seq<char>>,
    groups: Seq<ManagedGroupView>,
    gi: int,
)
    requires
        0 <= gi < groups.len(),
        exists|k: int|
            0 <= k < groups[gi].keywords.len() && occurs_in(
                str_lowercase(#[trigger] groups[gi].keywords[k]),
                group_haystack(name, description, keywords),
            ),
        forall|j: int|
            0 <= j < groups.len() && j != gi ==> !text_names_group(
                #[trigger] groups[j],
                group_haystack(name, description, keywords),
            ),
    ensures
        spec_match_group(name, description, keywords, groups) == (
            groups[gi].group,
            groups[gi].group_description,
        ),
{
    let hay = group_haystack(name, description, keywords);
    lemma_best_group_first_highest(groups, hay);
    lemma_count_occurring(groups[gi].keywords, hay);
    assert(group_score(groups[gi], hay) >= 4);
    assert forall|j: int| 0 <= j < groups.len() && j != gi implies #[trigger] group_score(groups[j], hay) == 0 by {
        lemma_count_occurring(groups[j].keywords, hay);
        lemma_count_occurring(groups[j].aliases, hay);
    }
    match best_group(groups, hay) {
        Some((i, sc)) => {
            if i != gi {
                assert(group_score(groups[i], hay) == 0);
            }
        },
        None => {
            assert(group_score(groups[gi], hay) == 0);
        },
    }
}

/// Keywords drawn from a description.
pub fn derive_keywords(description: &str, max_keywords: usize) -> (r: Vec<String>)
    ensures
        strings_view(r@) == spec_derive_keywords(description@, max_keywords),
{
    let cap: usize = if max_keywords >= 1 {
        max_keywords
    } else {
        1
    };
    let lower = lowercase(description);
    let chars = chars_of(lower.as_str());
    let pieces = split_runs(&chars, Separator::WhitespaceOrComma);
    let ghost pv = runs(chars@, Separator::WhitespaceOrComma);
    let mut kept: Vec<Vec<char>> = Vec::new();
    let mut i: usize = 0;
    while i < pieces.len()
        invariant
            i <= pieces.len(),
            pieces@.len() == pv.len(),
            forall|k: int| 0 <= k < pieces@.len() ==> #[trigger] pieces@[k]@ == pv[k],
            vviews(kept@) == keyword_fold(pv.take(i as int), cap as nat),
        ensures
            i <= pieces.len(),
            vviews(kept@) == keyword_fold(pv.take(i as int), cap as nat),
            i < pieces.len() ==> keyword_fold(pv.take(i + 1), cap as nat) == vviews(kept@)
                && vviews(kept@).len() >= cap,
        decreases pieces.len() - i,
    {
        assert(pv.take(i + 1).drop_last() =~= pv.take(i as int));
        proof {
            lemma_keyword_fold_capped(pv.take(i as int), cap as nat);
        }
        if kept.len() >= cap {
            assert(keyword_fold(pv.take(i + 1), cap as nat) == vviews(kept@));
            break;
        }
        let token = trim_keyword_token(&pieces[i]);
        if token.len() >= 3 && !chars_list_contains(&kept, &token) {
            proof {
                crate::search::lemma_vviews_push(kept@, token);
            }
            kept.push(token);
        }
        i = i + 1;
    }
    proof {
        lemma_keyword_fold_done(pv, i as int, cap as nat);
        assert(pv =~= runs(str_lowercase(description@), Separator::WhitespaceOrComma));
    }
    let mut out: Vec<String> = Vec::new();
    let mut k: usize = 0;
    while k < kept.len()
        invariant
            k <= kept.len(),
            out@.len() == k,
            strings_view(out@) == vviews(kept@).take(k as int),
        decreases kept.len() - k,
    {
        let s = string_of(&kept[k]);
        proof {
            crate::search::lemma_strings_view_push(out@, s);
        }
        out.push(s);
        k = k + 1;
        assert(strings_view(out@) =~= vviews(kept@).take(k as int));
    }
    assert(vviews(kept@).take(kept.len() as int) =~= vviews(kept@));
    out
}

/// Once `cap` keywords are held, the later pieces change nothing.
proof fn lemma_keyword_fold_done(pv: Seq<Seq<char>>, i: int, cap: nat)
    requires
        0 <= i <= pv.len(),
        i < pv.len() ==> keyword_fold(pv.take(i + 1), cap).len() >= cap,
    ensures
        keyword_fold(pv, cap) == keyword_fold(pv.take(if i < pv.len() { i + 1 } else { i }), cap),
    decreases pv.len() - i,
{
    if i == pv.len() {
        assert(pv.take(i) =~= pv);
    } else if i + 1 == pv.len() {
        assert(pv.take(i + 1) =~= pv);
    } else {
        assert(pv.take(i + 2).drop_last() =~= pv.take(i + 1));
        lemma_keyword_fold_done(pv, i + 1, cap);
    }
}

// ---------------------------------------------------------------------------
// Group matching
// ---------------------------------------------------------------------------

/// How many of the words, lowercased, occur in the text.
pub open spec fn count_occurring(words: Seq<Seq<char>>, hay: Seq<char>) -> nat
    decreases words.len(),
{
    if words.len() == 0 {
        0
    } else {
        count_occurring(words.drop_last(), hay) + if occurs_in(str_lowercase(words.last()), hay) {
            1nat
        } else {
            0nat
        }
    }
}

/// A group's affinity with the text: four points per keyword that occurs,
/// two per alias, one for the group id itself.
pub open spec fn group_score(g: ManagedGroupView, hay: Seq<char>) -> nat {
    4 * count_occurring(g.keywords, hay) + 2 * count_occurring(g.aliases, hay) + if occurs_in(
        str_lowercase(g.group),
        hay,
    ) {
        1nat
    } else {
        0nat
    }
}

/// The index and score of the first group with the highest positive score.
pub open spec fn best_group(groups: Seq<ManagedGroupView>, hay: Seq<char>) -> Option<(int, nat)>
    decreases groups.len(),
{
    if groups.len() == 0 {
        None
    } else {
        let prev = best_group(groups.drop_last(), hay);
        let sc = group_score(groups.last(), hay);
        let better = match prev {
            Some(b) => sc > b.1,
            None => sc > 0,
        };
        if better {
            Some(((groups.len() - 1) as int, sc))
        } else {
            prev
        }
    }
}

/// The index of the first group with this id.
pub open spec fn find_group(groups: Seq<ManagedGroupView>, id: Seq<char>) -> Option<int>
    decreases groups.len(),
{
    if groups.len() == 0 {
        None
    } else if groups[0].group == id {
        Some(0)
    } else {
        match find_group(groups.drop_first(), id) {
            Some(i) => Some(i + 1),
            None => None,
        }
    }
}

/// The text that group keywords and aliases are looked for in.
pub open spec fn group_haystack(name: Seq<char>, description: Seq<char>, keywords: Seq<Seq<char>>) -> Seq<char> {
    str_lowercase(name) + seq![' '] + str_lowercase(description) + seq![' '] + join_with(
        keywords,
        seq![' '],
    )
}

/// The group chosen for a skill without a group directory: the best
/// matching group, else the catalog's `specialized-domain` group, else a
/// built-in `specialized-domain`.
pub open spec fn spec_match_group(
    name: Seq<char>,
    description: Seq<char>,
    keywords: Seq<Seq<char>>,
    groups: Seq<ManagedGroupView>,
) -> (Seq<char>, Seq<char>) {
    match best_group(groups, group_haystack(name, description, keywords)) {
        Some(b) => (groups[b.0].group, groups[b.0].group_description),
        None => match find_group(groups, "specialized-domain"@) {
            Some(i) => (groups[i].group, groups[i].group_description),
            None => ("specialized-domain"@, "Specialized domain skills"@),
        },
    }
}

proof fn lemma_find_group_at(groups: Seq<ManagedGroupView>, id: Seq<char>, i: int)
    requires
        0 <= i <= groups.len(),
        forall|k: int| 0 <= k < i ==> #[trigger] groups[k].group != id,
        i == groups.len() || groups[i].group == id,
    ensures
        find_group(groups, id) == if i < groups.len() {
            Some(i)
        } else {
            None::<int>
        },
    decreases i,
{
    if i > 0 {
        assert(groups[0].group != id);
        assert forall|k: int| 0 <= k < i - 1 implies #[trigger] groups.drop_first()[k].group != id by {
            assert(groups.drop_first()[k] == groups[k + 1]);
        }
        if i < groups.len() {
            assert(groups.drop_first()[i - 1] == groups[i]);
        }
        lemma_find_group_at(groups.drop_first(), id, i - 1);
    }
}

/// The index of the first catalog group with this id.
pub fn find_group_index(groups: &Vec<ManagedGroupRecord>, id: &Vec<char>) -> (r: Option<usize>)
    ensures
        match r {
            Some(i) => find_group(groups_view(groups@), id@) == Some(i as int) && i < groups.len(),
            None => find_group(groups_view(groups@), id@) is None,
        },
{
    let ghost gv = groups_view(groups@);
    let mut i: usize = 0;
    while i < groups.len()
        invariant
            i <= groups.len(),
            gv == groups_view(groups@),
            forall|k: int| 0 <= k < i ==> #[trigger] gv[k].group != id@,
        decreases groups.len() - i,
    {
        let g = chars_of(groups[i].group.as_str());
        if chars_eq(&g, id) {
            proof {
                lemma_find_group_at(gv, id@, i as int);
            }
            return Some(i);
        }
        i = i + 1;
    }
    proof {
        lemma_find_group_at(gv, id@, i as int);
    }
    None
}

fn count_words_in(words: &Vec<String>, hay: &Vec<char>) -> (n: usize)
    ensures
        n == count_occurring(strings_view(words@), hay@),
        n <= words.len(),
{
    let ghost wv = strings_view(words@);
    let mut n: usize = 0;
    let mut i: usize = 0;
    while i < words.len()
        invariant
            i <= words.len(),
            n <= i,
            wv == strings_view(words@),
            n == count_occurring(wv.take(i as int), hay@),
        decreases words.len() - i,
    {
        assert(wv.take(i + 1).drop_last() =~= wv.take(i as int));
        let lower = lowercase(words[i].as_str());
        let lc = chars_of(lower.as_str());
        if contains(hay, &lc) {
            n = n + 1;
        }
        i = i + 1;
    }
    assert(wv.take(words.len() as int) =~= wv);
    n
}

fn score_group(g: &ManagedGroupRecord, hay: &Vec<char>) -> (r: u128)
    ensures
        r == group_score(g@, hay@),
{
    let k = count_words_in(&g.keywords, hay);
    let a = count_words_in(&g.aliases, hay);
    let lower = lowercase(g.group.as_str());
    let gid = chars_of(lower.as_str());
    let own: u128 = if contains(hay, &gid) {
        1
    } else {
        0
    };
    4 * (k as u128) + 2 * (a as u128) + own
}

fn strings_to_chars(v: &Vec<String>) -> (r: Vec<Vec<char>>)
    ensures
        vviews(r@) == strings_view(v@),
{
    let mut out: Vec<Vec<char>> = Vec::new();
    let mut i: usize = 0;
    while i < v.len()
        invariant
            i <= v.len(),
            vviews(out@) == strings_view(v@).take(i as int),
        decreases v.len() - i,
    {
        let c = chars_of(v[i].as_str());
        proof {
            crate::search::lemma_vviews_push(out@, c);
        }
        out.push(c);
        i = i + 1;
        assert(vviews(out@) =~= strings_view(v@).take(i as int));
    }
    assert(strings_view(v@).take(v.len() as int) =~= strings_view(v@));
    out
}

/// Picks the group of a skill from its name, description and keywords.
pub fn match_managed_group(
    skill_name: &str,
    description: &str,
    keywords: &Vec<String>,
    groups: &Vec<ManagedGroupRecord>,
) -> (r: (String, String))
    ensures
        (r.0@, r.1@) == spec_match_group(
            skill_name@,
            description@,
            strings_view(keywords@),
            groups_view(groups@),
        ),
{
    let ghost gv = groups_view(groups@);
    let mut hay = chars_of(lowercase(skill_name).as_str());
    hay.push(' ');
    append_chars(&mut hay, &chars_of(lowercase(description).as_str()));
    hay.push(' ');
    let kw = strings_to_chars(keywords);
    let mut space: Vec<char> = Vec::new();
    space.push(' ');
    let joined = join_chars(&kw, &space);
    assert(kw@.map_values(|p: Vec<char>| p@) =~= strings_view(keywords@));
    assert(space@ =~= seq![' ']);
    append_chars(&mut hay, &joined);
    let ghost h = group_haystack(skill_name@, description@, strings_view(keywords@));
    assert(hay@ =~= h);

    let mut best: Option<(usize, u128)> = None;
    let mut i: usize = 0;
    while i < groups.len()
        invariant
            i <= groups.len(),
            gv == groups_view(groups@),
            hay@ == h,
            match best {
                Some(b) => best_group(gv.take(i as int), h) == Some(((b.0 as int), b.1 as nat)) && b.0
                    < i,
                None => best_group(gv.take(i as int), h) is None,
            },
        decreases groups.len() - i,
    {
        assert(gv.take(i + 1).drop_last() =~= gv.take(i as int));
        assert(gv.take(i + 1).last() == groups@[i as int]@);
        let sc = score_group(&groups[i], &hay);
        let better = match best {
            Some(b) => sc > b.1,
            None => sc > 0,
        };
        if better {
            best = Some((i, sc));
        }
        i = i + 1;
    }
    assert(gv.take(groups.len() as int) =~= gv);
    match best {
        Some(b) => {
            assert(gv[b.0 as int] == groups@[b.0 as int]@);
            (groups[b.0].group.clone(), groups[b.0].group_description.clone())
        },
        None => {
            let fallback = chars_of("specialized-domain");
            match find_group_index(groups, &fallback) {
                Some(k) => {
                    assert(gv[k as int] == groups@[k as int]@);
                    (groups[k].group.clone(), groups[k].group_description.clone())
                },
                None => (
                    String::from_str("specialized-domain"),
                    String::from_str("Specialized domain skills"),
                ),
            }
        },
    }
}

// ---------------------------------------------------------------------------
// A parsed skill
// ---------------------------------------------------------------------------

/// A required frontmatter field that is empty or absent.
#[derive(Debug, Clone, Copy, PartialEq, Eq, Structural)]
pub enum ParseSkillError {
    MissingName,
    MissingDescription,
}

impl ParseSkillError {
    pub fn message(&self) -> (m: String)
        ensures
            *self == ParseSkillError::MissingName ==> m@
                == "missing required frontmatter field: name"@,
            *self == ParseSkillError::MissingDescription ==> m@
                == "missing required frontmatter field: description"@,
    {
        match self {
            ParseSkillError::MissingName => String::from_str(
                "missing required frontmatter field: name",
            ),
            ParseSkillError::MissingDescription => String::from_str(
                "missing required frontmatter field: description",
            ),
        }
    }
}

/// The group and its description for a skill: the directory's group, with
/// the catalog's description when the catalog knows it; otherwise the
/// matched group.
pub open spec fn spec_skill_group(
    name: Seq<char>,
    description: Seq<char>,
    keywords: Seq<Seq<char>>,
    groups: Seq<ManagedGroupView>,
    group_from_path: Option<Seq<char>>,
) -> (Seq<char>, Seq<char>) {
    match group_from_path {
        Some(gp) => (
            gp,
            match find_group(groups, gp) {
                Some(i) => groups[i].group_description,
                None => gp,
            },
        ),
        None => spec_match_group(name, description, keywords, groups),
    }
}

/// What the decoded `name` and `description` of a `SKILL.md` give: the
/// trimmed name and the trimmed, whitespace-collapsed description, both
/// required, the keywords of the description and the skill's group.
pub open spec fn spec_parse_skill_fields(
    name: Seq<char>,
    description: Seq<char>,
    groups: Seq<ManagedGroupView>,
    max_keywords: usize,
    group_from_path: Option<Seq<char>>,
    skill_path: Seq<char>,
    updated_at_ms_bits: u64,
) -> Result<ParsedView, ParseSkillError> {
    let n = trim_ws(name);
    let d = spec_normalize_description(trim_ws(description));
    if n.len() == 0 {
        Err(ParseSkillError::MissingName)
    } else if d.len() == 0 {
        Err(ParseSkillError::MissingDescription)
    } else {
        let kws = spec_derive_keywords(d, max_keywords);
        let (g, gd) = spec_skill_group(n, d, kws, groups, group_from_path);
        Ok(
            ParsedView {
                skill_name: n,
                description: d,
                group: g,
                group_description: gd,
                keywords: kws,
                skill_path,
                updated_at_ms_bits,
            },
        )
    }
}

pub open spec fn opt_str_view(o: Option<&str>) -> Option<Seq<char>> {
    match o {
        Some(s) => Some(s@),
        None => None,
    }
}

/// Builds the parsed skill from its decoded frontmatter fields.
pub fn parse_skill_fields(
    name: &str,
    description: &str,
    managed_groups: &Vec<ManagedGroupRecord>,
    max_keywords: usize,
    group_from_path: Option<&str>,
    skill_path: String,
    updated_at_ms_bits: u64,
) -> (r: Result<ParsedSkill, ParseSkillError>)
    ensures
        match r {
            Ok(p) => spec_parse_skill_fields(
                name@,
                description@,
                groups_view(managed_groups@),
                max_keywords,
                opt_str_view(group_from_path),
                skill_path@,
                updated_at_ms_bits,
            ) == Ok::<ParsedView, ParseSkillError>(p@),
            Err(e) => spec_parse_skill_fields(
                name@,
                description@,
                groups_view(managed_groups@),
                max_keywords,
                opt_str_view(group_from_path),
                skill_path@,
                updated_at_ms_bits,
            ) == Err::<ParsedView, ParseSkillError>(e),
        },
{
    let skill_name = crate::text::trim_string(name);
    if skill_name.as_str().is_empty() {
        return Err(ParseSkillError::MissingName);
    }
    let trimmed = crate::text::trim_string(description);
    let normalized = normalize_description(trimmed.as_str());
    if normalized.as_str().is_empty() {
        return Err(ParseSkillError::MissingDescription);
    }
    let keywords = derive_keywords(normalized.as_str(), max_keywords);
    let (group, group_description) = match group_from_path {
        Some(gp) => {
            let gpc = chars_of(gp);
            let desc = match find_group_index(managed_groups, &gpc) {
                Some(i) => {
                    assert(groups_view(managed_groups@)[i as int] == managed_groups@[i as int]@);
                    managed_groups[i].group_description.clone()
                },
                None => String::from_str(gp),
            };
            (String::from_str(gp), desc)
        },
        None => match_managed_group(skill_name.as_str(), normalized.as_str(), &keywords, managed_groups),
    };
    let parsed = ParsedSkill {
        skill_name,
        description: normalized,
        group,
        group_description,
        keywords,
        skill_path,
        updated_at_ms_bits,
    };
    assert(spec_parse_skill_fields(
        name@,
        description@,
        groups_view(managed_groups@),
        max_keywords,
        opt_str_view(group_from_path),
        skill_path@,
        updated_at_ms_bits,
    ) =~= Ok::<ParsedView, ParseSkillError>(parsed@));
    Ok(parsed)
}

} // verus!
