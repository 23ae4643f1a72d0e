//! The skill registry: package ids, `SKILL.md` rewrites, install candidate
//! selection, the in-memory index and its queries, governance checks and
//! the group catalog.
//!
//! Walking directories, copying packages and writing the index files happen
//! outside this crate, around these decisions.

use crate::config::{
    default_index_policy, default_install_policy, IndexPolicy, InstallPolicy,
    SkillShelfStorageLayout,
};
use crate::model::{
    entries_view, groups_view, issues_view, items_view, records_view, strings_view, EntryView,
    GroupListItem, GroupSkillIndexEntry, GroupSkillsResult, GroupSkillsView, IssueView,
    ItemView, ManagedGroupRecord,
    ManagedGroupView, ParsedSkill, ParsedView, RecordView, RegistryIssue, SkillRecord,
};
use crate::parser::opt_str_view;
use crate::search::{chars_less, chars_lt, lemma_strings_view_push};
use crate::text::{
    append_chars, char_lowercase, chars_of, is_ascii_alnum, is_ascii_alphanumeric, lowercase,
    lowercase_char, matches_at, occurs_in, runs, split_runs, str_lowercase, string_of,
    trim_string, trim_ws, Separator,
};
use vstd::prelude::*;

verus! {

// ---------------------------------------------------------------------------
// Package ids
// ---------------------------------------------------------------------------

/// The lowercase form of each character, one after another.
pub open spec fn chars_lowercased(s: Seq<char>) -> Seq<char> {
    s.map_values(|c: char| char_lowercase(c)).flatten_alt()
}

pub open spec fn id_char(c: char) -> bool {
    is_ascii_alnum(c) || c == '-' || c == '_'
}

/// Scanning for an id: kept characters, and whether the last emitted
/// character was a substituted dash.
pub open spec fn id_scan(s: Seq<char>) -> (Seq<char>, bool)
    decreases s.len(),
{
    if s.len() == 0 {
        (Seq::empty(), false)
    } else {
        let (out, dash) = id_scan(s.drop_last());
        let c = s.last();
        if id_char(c) {
            (out.push(c), false)
        } else if !dash {
            (out.push('-'), true)
        } else {
            (out, dash)
        }
    }
}

pub open spec fn strip_dashes_start(s: Seq<char>) -> Seq<char>
    decreases s.len(),
{
    if s.len() > 0 && s[0] == '-' {
        strip_dashes_start(s.drop_first())
    } else {
        s
    }
}

pub open spec fn strip_dashes_end(s: Seq<char>) -> Seq<char>
    decreases s.len(),
{
    if s.len() > 0 && s.last() == '-' {
        strip_dashes_end(s.drop_last())
    } else {
        s
    }
}

/// A package id: lowercase, ASCII letters, digits, `-` and `_` kept, each
/// run of other characters turned into one `-`, and no `-` at either end.
pub open spec fn spec_sanitize_id(value: Seq<char>) -> Seq<char> {
    strip_dashes_end(strip_dashes_start(id_scan(chars_lowercased(value)).0))
}

proof fn lemma_strip_dashes_start_skip(s: Seq<char>, i: int)
    requires
        0 <= i <= s.len(),
        forall|k: int| 0 <= k < i ==> #[trigger] s[k] == '-',
        i == s.len() || s[i] != '-',
    ensures
        strip_dashes_start(s) == s.skip(i),
    decreases i,
{
    if i > 0 {
        assert forall|k: int| 0 <= k < i - 1 implies #[trigger] s.drop_first()[k] == '-' by {
            assert(s.drop_first()[k] == s[k + 1]);
        }
        if i < s.len() {
            assert(s.drop_first()[i - 1] == s[i]);
        }
        lemma_strip_dashes_start_skip(s.drop_first(), i - 1);
        assert(s.drop_first().skip(i - 1) =~= s.skip(i));
    } else {
        assert(s.skip(0) =~= s);
    }
}

proof fn lemma_strip_dashes_end_take(s: Seq<char>, j: int)
    requires
        0 <= j <= s.len(),
        forall|k: int| j <= k < s.len() ==> #[trigger] s[k] == '-',
        j == 0 || s[j - 1] != '-',
    ensures
        strip_dashes_end(s) == s.take(j),
    decreases s.len() - j,
{
    if j < s.len() {
        assert forall|k: int| j <= k < s.len() - 1 implies #[trigger] s.drop_last()[k] == '-' by {
            assert(s.drop_last()[k] == s[k]);
        }
        if j > 0 {
            assert(s.drop_last()[j - 1] == s[j - 1]);
        }
        lemma_strip_dashes_end_take(s.drop_last(), j);
        assert(s.drop_last().take(j) =~= s.take(j));
    } else {
        assert(s.take(j) =~= s);
    }
}

fn strip_dashes(s: &Vec<char>) -> (r: Vec<char>)
    ensures
        r@ == strip_dashes_end(strip_dashes_start(s@)),
{
    let mut start: usize = 0;
    while start < s.len() && s[start] == '-'
        invariant
            start <= s.len(),
            forall|k: int| 0 <= k < start ==> #[trigger] s@[k] == '-',
        decreases s.len() - start,
    {
        start = start + 1;
    }
    proof {
        lemma_strip_dashes_start_skip(s@, start as int);
    }
    let ghost t = s@.skip(start as int);
    let mut end: usize = s.len();
    while end > start && s[end - 1] == '-'
        invariant
            start <= end <= s.len(),
            t == s@.skip(start as int),
            forall|k: int| end - start <= k < t.len() ==> #[trigger] t[k] == '-',
        decreases end - start,
    {
        end = end - 1;
    }
    proof {
        lemma_strip_dashes_end_take(t, end - start);
    }
    let mut out: Vec<char> = Vec::new();
    let mut i: usize = start;
    while i < end
        invariant
            start <= i <= end <= s.len(),
            out@ == s@.subrange(start as int, i as int),
        decreases end - i,
    {
        out.push(s[i]);
        i = i + 1;
        assert(out@ =~= s@.subrange(start as int, i as int));
    }
    assert(out@ =~= t.take(end - start));
    out
}

/// Turns a directory or file name into a package id.
pub fn sanitize_id(value: &str) -> (r: String)
    ensures
        r@ == spec_sanitize_id(value@),
{
    let chars = chars_of(value);
    let ghost per = chars@.map_values(|c: char| char_lowercase(c));
    let mut out: Vec<char> = Vec::new();
    let mut dash = false;
    let mut i: usize = 0;
    while i < chars.len()
        invariant
            i <= chars.len(),
            per == chars@.map_values(|c: char| char_lowercase(c)),
            (out@, dash) == id_scan(per.take(i as int).flatten_alt()),
        decreases chars.len() - i,
    {
        let lc = lowercase_char(chars[i]);
        let ghost base = per.take(i as int).flatten_alt();
        assert(per.take(i + 1).drop_last() =~= per.take(i as int));
        assert(per.take(i + 1).flatten_alt() == base + lc@);
        let mut j: usize = 0;
        while j < lc.len()
            invariant
                j <= lc.len(),
                (out@, dash) == id_scan(base + lc@.take(j as int)),
            decreases lc.len() - j,
        {
            let c = lc[j];
            assert((base + lc@.take(j + 1)).drop_last() =~= base + lc@.take(j as int));
            if is_ascii_alphanumeric(c) || c == '-' || c == '_' {
                out.push(c);
                dash = false;
            } else if !dash {
                out.push('-');
                dash = true;
            }
            j = j + 1;
        }
        assert(lc@.take(lc.len() as int) =~= lc@);
        i = i + 1;
    }
    assert(per.take(chars.len() as int) =~= per);
    let trimmed = strip_dashes(&out);
    string_of(&trimmed)
}

// ---------------------------------------------------------------------------
// Rewriting the group of a SKILL.md
// ---------------------------------------------------------------------------

/// The first position at which `pat` occurs in `hay`.
pub open spec fn first_occurrence(hay: Seq<char>, pat: Seq<char>) -> Option<int>
    decreases hay.len(),
{
    if pat.len() > hay.len() {
        None
    } else if hay.take(pat.len() as int) == pat {
        Some(0)
    } else if hay.len() == 0 {
        None
    } else {
        match first_occurrence(hay.drop_first(), pat) {
            Some(i) => Some(i + 1),
            None => None,
        }
    }
}

proof fn lemma_first_occurrence_at(hay: Seq<char>, pat: Seq<char>, i: int)
    requires
        0 <= i <= hay.len(),
        forall|k: int|
            0 <= k < i && k + pat.len() <= hay.len() ==> #[trigger] hay.subrange(k, k + pat.len())
                != pat,
        i + pat.len() > hay.len() || hay.subrange(i, i + pat.len()) == pat,
    ensures
        first_occurrence(hay, pat) == if i + pat.len() <= hay.len() {
            Some(i)
        } else {
            None::<int>
        },
    decreases i,
{
    if pat.len() > hay.len() {
    } else if i == 0 {
        assert(hay.take(pat.len() as int) =~= hay.subrange(0, pat.len() as int));
    } else {
        assert(hay.take(pat.len() as int) =~= hay.subrange(0, pat.len() as int));
        let t = hay.drop_first();
        assert forall|k: int|
            0 <= k < i - 1 && k + pat.len() <= t.len() implies #[trigger] t.subrange(
            k,
            k + pat.len(),
        ) != pat by {
            assert(t.subrange(k, k + pat.len()) =~= hay.subrange(k + 1, k + 1 + pat.len()));
        }
        if i + pat.len() <= hay.len() {
            assert(t.subrange(i - 1, i - 1 + pat.len()) =~= hay.subrange(i, i + pat.len()));
        }
        lemma_first_occurrence_at(t, pat, i - 1);
        assert(hay.subrange(0int, 0int + pat.len()) != pat);
        assert(hay.take(pat.len() as int) != pat);
    }
}

/// The first position at which `pat` occurs in `hay`.
pub fn find_first(hay: &Vec<char>, pat: &Vec<char>) -> (r: Option<usize>)
    ensures
        match r {
            Some(i) => first_occurrence(hay@, pat@) == Some(i as int) && i + pat.len() <= hay.len(),
            None => first_occurrence(hay@, pat@) is None,
        },
{
    if pat.len() > hay.len() {
        proof {
            lemma_first_occurrence_at(hay@, pat@, 0);
        }
        return None;
    }
    if pat.len() == 0 {
        proof {
            assert(hay@.subrange(0, 0) =~= pat@);
            lemma_first_occurrence_at(hay@, pat@, 0);
        }
        return Some(0);
    }
    let last = hay.len() - pat.len();
    let mut i: usize = 0;
    while i <= last
        invariant
            last == hay.len() - pat.len(),
            1 <= pat.len() <= hay.len(),
            i <= last + 1,
            forall|k: int|
                0 <= k < i && k + pat.len() <= hay.len() ==> #[trigger] hay@.subrange(
                    k,
                    k + pat.len(),
                ) != pat@,
        decreases last + 1 - i,
    {
        if matches_at(pat, hay, i) {
            proof {
                lemma_first_occurrence_at(hay@, pat@, i as int);
            }
            return Some(i);
        }
        if i == last {
            proof {
                lemma_first_occurrence_at(hay@, pat@, (i + 1) as int);
            }
            return None;
        }
        i = i + 1;
    }
    proof {
        lemma_first_occurrence_at(hay@, pat@, i as int);
    }
    None
}

/// The frontmatter with its `group:` line replaced, or one appended.
pub open spec fn regroup_frontmatter(fm: Seq<char>, group: Seq<char>) -> Seq<char> {
    match first_occurrence(fm, "\ngroup:"@) {
        Some(ls) => {
            let line_end = match first_occurrence(fm.skip(ls + 1), seq!['\n']) {
                Some(e) => ls + 1 + e,
                None => fm.len() as int,
            };
            fm.take(ls) + "\ngroup: "@ + group + fm.skip(line_end)
        },
        None => fm + "\ngroup: "@ + group,
    }
}

/// A `SKILL.md` with its frontmatter `group` set: a file without
/// frontmatter gets one in front; an unclosed frontmatter is an error.
pub open spec fn spec_set_skill_group(content: Seq<char>, group: Seq<char>) -> Option<Seq<char>> {
    if !crate::text::is_prefix("---"@, content) {
        Some("---\ngroup: "@ + group + "\n---\n"@ + content)
    } else {
        let rest = content.skip(3);
        match first_occurrence(rest, "\n---"@) {
            Some(p) => Some(
                "---\n"@ + regroup_frontmatter(rest.take(p), group) + "\n---"@ + rest.skip(p + 4),
            ),
            None => None,
        }
    }
}

fn subrange_chars(s: &Vec<char>, from: usize, to: usize) -> (r: Vec<char>)
    requires
        from <= to <= s.len(),
    ensures
        r@ == s@.subrange(from as int, to as int),
{
    let mut out: Vec<char> = Vec::new();
    let mut i: usize = from;
    while i < to
        invariant
            from <= i <= to <= s.len(),
            out@ == s@.subrange(from as int, i as int),
        decreases to - i,
    {
        out.push(s[i]);
        i = i + 1;
        assert(out@ =~= s@.subrange(from as int, i as int));
    }
    out
}

/// Rewrites the `group` field of a `SKILL.md`; `None` when its frontmatter
/// is never closed.
pub fn set_skill_group(content: &str, new_group: &str) -> (r: Option<String>)
    ensures
        match r {
            Some(s) => spec_set_skill_group(content@, new_group@) == Some(s@),
            None => spec_set_skill_group(content@, new_group@) is None,
        },
{
    proof {
        reveal_strlit("---");
        reveal_strlit("\n---");
        reveal_strlit("\ngroup:");
    }
    let c = chars_of(content);
    let g = chars_of(new_group);
    let dashes = chars_of("---");
    if !crate::text::starts_with(&c, &dashes) {
        let mut out = chars_of("---\ngroup: ");
        append_chars(&mut out, &g);
        append_chars(&mut out, &chars_of("\n---\n"));
        append_chars(&mut out, &c);
        return Some(string_of(&out));
    }
    let rest = subrange_chars(&c, 3, c.len());
    assert(rest@ =~= c@.skip(3));
    let close = chars_of("\n---");
    match find_first(&rest, &close) {
        None => None,
        Some(p) => {
            let fm = subrange_chars(&rest, 0, p);
            assert(fm@ =~= rest@.take(p as int));
            let marker = chars_of("\ngroup:");
            let mut new_fm: Vec<char> = Vec::new();
            match find_first(&fm, &marker) {
                Some(ls) => {
                    let tail = subrange_chars(&fm, ls + 1, fm.len());
                    assert(tail@ =~= fm@.skip(ls + 1));
                    let mut nl: Vec<char> = Vec::new();
                    nl.push('\n');
                    assert(nl@ =~= seq!['\n']);
                    let line_end = match find_first(&tail, &nl) {
                        Some(e) => ls + 1 + e,
                        None => fm.len(),
                    };
                    new_fm = subrange_chars(&fm, 0, ls);
                    assert(new_fm@ =~= fm@.take(ls as int));
                    append_chars(&mut new_fm, &chars_of("\ngroup: "));
                    append_chars(&mut new_fm, &g);
                    let after_line = subrange_chars(&fm, line_end, fm.len());
                    assert(after_line@ =~= fm@.skip(line_end as int));
                    append_chars(&mut new_fm, &after_line);
                },
                None => {
                    append_chars(&mut new_fm, &fm);
                    append_chars(&mut new_fm, &chars_of("\ngroup: "));
                    append_chars(&mut new_fm, &g);
                },
            }
            assert(new_fm@ =~= regroup_frontmatter(fm@, g@));
            let mut out = chars_of("---\n");
            append_chars(&mut out, &new_fm);
            append_chars(&mut out, &chars_of("\n---"));
            let after = subrange_chars(&rest, p + 4, rest.len());
            assert(after@ =~= rest@.skip(p + 4));
            append_chars(&mut out, &after);
            Some(string_of(&out))
        },
    }
}


// ---------------------------------------------------------------------------
// Code-point order
// ---------------------------------------------------------------------------

/// No string sorts before itself.
pub proof fn lemma_chars_lt_irreflexive(a: Seq<char>)
    ensures
        !chars_lt(a, a),
    decreases a.len(),
{
    if a.len() > 0 {
        lemma_chars_lt_irreflexive(a.drop_first());
    }
}

/// Code-point order is transitive.
pub proof fn lemma_chars_lt_transitive(a: Seq<char>, b: Seq<char>, c: Seq<char>)
    requires
        chars_lt(a, b),
        chars_lt(b, c),
    ensures
        chars_lt(a, c),
    decreases a.len(),
{
    if a.len() > 0 && b.len() > 0 && c.len() > 0 && a[0] == b[0] && b[0] == c[0] {
        lemma_chars_lt_transitive(a.drop_first(), b.drop_first(), c.drop_first());
    }
}

/// Of two different strings, one sorts before the other.
pub proof fn lemma_chars_lt_total(a: Seq<char>, b: Seq<char>)
    ensures
        a == b || chars_lt(a, b) || chars_lt(b, a),
    decreases a.len(),
{
    if a.len() > 0 && b.len() > 0 && a[0] == b[0] {
        lemma_chars_lt_total(a.drop_first(), b.drop_first());
        if a.drop_first() == b.drop_first() {
            assert(a.drop_first().len() == a.len() - 1);
            assert(b.drop_first().len() == b.len() - 1);
            assert(a.len() == b.len());
            assert forall|i: int| 0 <= i < a.len() implies a[i] == b[i] by {
                if i > 0 {
                    assert(a[i] == a.drop_first()[i - 1]);
                    assert(b[i] == b.drop_first()[i - 1]);
                }
            }
            assert(a =~= b);
        }
    } else if a.len() == 0 && b.len() == 0 {
        assert(a =~= b);
    } else if a.len() > 0 && b.len() > 0 {
        assert((a[0] as int) != (b[0] as int));
    }
}

// ---------------------------------------------------------------------------
// The in-memory index
// ---------------------------------------------------------------------------

/// The key under which a record is indexed: `group/skill_id`.
pub open spec fn key_of(r: RecordView) -> Seq<char> {
    r.group + seq!['/'] + r.skill_id
}

/// Records in strictly increasing key order: one record per key.
pub open spec fn keys_sorted(recs: Seq<RecordView>) -> bool {
    forall|i: int, j: int|
        0 <= i < j < recs.len() ==> chars_lt(key_of(#[trigger] recs[i]), key_of(#[trigger] recs[j]))
}

/// The index of the first record that satisfies `pred`.
pub open spec fn first_where(recs: Seq<RecordView>, pred: spec_fn(RecordView) -> bool) -> Option<
    int,
>
    decreases recs.len(),
{
    if recs.len() == 0 {
        None
    } else if pred(recs[0]) {
        Some(0)
    } else {
        match first_where(recs.drop_first(), pred) {
            Some(i) => Some(i + 1),
            None => None,
        }
    }
}

proof fn lemma_first_where_at(recs: Seq<RecordView>, pred: spec_fn(RecordView) -> bool, i: int)
    requires
        0 <= i <= recs.len(),
        forall|k: int| 0 <= k < i ==> !pred(#[trigger] recs[k]),
        i == recs.len() || pred(recs[i]),
    ensures
        first_where(recs, pred) == if i < recs.len() {
            Some(i)
        } else {
            None::<int>
        },
    decreases i,
{
    if i > 0 {
        assert(!pred(recs[0]));
        assert forall|k: int| 0 <= k < i - 1 implies !pred(#[trigger] recs.drop_first()[k]) by {
            assert(recs.drop_first()[k] == recs[k + 1]);
        }
        if i < recs.len() {
            assert(recs.drop_first()[i - 1] == recs[i]);
        }
        lemma_first_where_at(recs.drop_first(), pred, i - 1);
    }
}

proof fn lemma_first_where_found(recs: Seq<RecordView>, pred: spec_fn(RecordView) -> bool)
    ensures
        match first_where(recs, pred) {
            Some(i) => 0 <= i < recs.len() && pred(recs[i]) && forall|k: int|
                0 <= k < i ==> !pred(#[trigger] recs[k]),
            None => forall|k: int| 0 <= k < recs.len() ==> !pred(#[trigger] recs[k]),
        },
    decreases recs.len(),
{
    if recs.len() > 0 && !pred(recs[0]) {
        let rest = recs.drop_first();
        lemma_first_where_found(rest, pred);
        assert forall|k: int| 1 <= k < recs.len() implies recs[k] == #[trigger] rest[k - 1] by {}
        match first_where(rest, pred) {
            Some(i) => {
                assert forall|k: int| 0 <= k < i + 1 implies !pred(#[trigger] recs[k]) by {
                    if k > 0 {
                        assert(recs[k] == rest[k - 1]);
                    }
                }
            },
            None => {
                assert forall|k: int| 0 <= k < recs.len() implies !pred(#[trigger] recs[k]) by {
                    if k > 0 {
                        assert(recs[k] == rest[k - 1]);
                    }
                }
            },
        }
    }
}

/// The record stored for a parsed skill file.
pub open spec fn record_from(p: ParsedView, skill_id: Seq<char>) -> RecordView {
    RecordView {
        skill_id: skill_id,
        skill_name: p.skill_name,
        description: p.description,
        group: p.group,
        group_description: p.group_description,
        keywords: p.keywords,
        skill_path: p.skill_path,
        updated_at_ms_bits: p.updated_at_ms_bits,
        status: "ready"@,
    }
}

/// The part of an id after its last `/`, or the whole id.
pub open spec fn last_segment(id: Seq<char>) -> Seq<char>
    decreases id.len(),
{
    if id.len() == 0 {
        id
    } else if id.last() == '/' {
        Seq::empty()
    } else {
        last_segment(id.drop_last()).push(id.last())
    }
}

/// `get_by_id`: the record under that composite key, else the first record
/// whose skill id is the id's last `/` segment.
pub open spec fn spec_get_by_id(recs: Seq<RecordView>, id: Seq<char>) -> Option<RecordView> {
    match first_where(recs, |r: RecordView| key_of(r) == id) {
        Some(i) => Some(recs[i]),
        None => match first_where(recs, |r: RecordView| r.skill_id == last_segment(id)) {
            Some(i) => Some(recs[i]),
            None => None,
        },
    }
}

/// How names are compared: trimmed and lowercased.
pub open spec fn name_norm(s: Seq<char>) -> Seq<char> {
    str_lowercase(trim_ws(s))
}

/// `get_by_name`: the first record whose normalised name is the normalised
/// query.
pub open spec fn spec_get_by_name(recs: Seq<RecordView>, name: Seq<char>) -> Option<RecordView> {
    match first_where(recs, |r: RecordView| name_norm(r.skill_name) == name_norm(name)) {
        Some(i) => Some(recs[i]),
        None => None,
    }
}

/// The skill registry: the group catalog, one record per `group/skill_id`
/// in key order, and the files that could not be indexed.
#[derive(Debug)]
pub struct SkillRegistry {
    pub layout: SkillShelfStorageLayout,
    pub install_policy: InstallPolicy,
    pub index_policy: IndexPolicy,
    pub managed_groups: Vec<ManagedGroupRecord>,
    pub skill_records: Vec<SkillRecord>,
    pub issues: Vec<RegistryIssue>,
}

fn copy_string(s: &String) -> (r: String)
    ensures
        r@ == s@,
{
    string_of(&chars_of(s.as_str()))
}

fn copy_strings(v: &Vec<String>) -> (r: Vec<String>)
    ensures
        strings_view(r@) == strings_view(v@),
{
    let mut out: Vec<String> = Vec::new();
    let mut i: usize = 0;
    while i < v.len()
        invariant
            i <= v.len(),
            strings_view(out@) == strings_view(v@).take(i as int),
        decreases v.len() - i,
    {
        let s = copy_string(&v[i]);
        proof {
            lemma_strings_view_push(out@, s);
        }
        out.push(s);
        i = i + 1;
        assert(strings_view(v@).take(i as int) =~= strings_view(v@).take(i - 1).push(v@[i - 1]@));
    }
    assert(strings_view(v@).take(v.len() as int) =~= strings_view(v@));
    out
}

/// A copy of a record with the same view.
pub fn copy_record(r: &SkillRecord) -> (c: SkillRecord)
    ensures
        c@ == r@,
{
    let c = SkillRecord {
        skill_id: copy_string(&r.skill_id),
        skill_name: copy_string(&r.skill_name),
        description: copy_string(&r.description),
        group: copy_string(&r.group),
        group_description: copy_string(&r.group_description),
        keywords: copy_strings(&r.keywords),
        skill_path: copy_string(&r.skill_path),
        updated_at_ms_bits: r.updated_at_ms_bits,
        status: copy_string(&r.status),
    };
    assert(c@ =~= r@);
    c
}

proof fn lemma_records_view_push(v: Seq<SkillRecord>, x: SkillRecord)
    ensures
        records_view(v.push(x)) == records_view(v).push(x@),
{
    assert(records_view(v.push(x)) =~= records_view(v).push(x@));
}

fn key_chars(r: &SkillRecord) -> (k: Vec<char>)
    ensures
        k@ == key_of(r@),
{
    let mut k = chars_of(r.group.as_str());
    k.push('/');
    append_chars(&mut k, &chars_of(r.skill_id.as_str()));
    k
}

impl SkillRegistry {
    pub open spec fn records(&self) -> Seq<RecordView> {
        records_view(self.skill_records@)
    }

    pub open spec fn groups(&self) -> Seq<ManagedGroupView> {
        groups_view(self.managed_groups@)
    }

    /// One record per key, in key order.
    pub open spec fn wf(&self) -> bool {
        keys_sorted(self.records())
    }

    pub fn new(layout: SkillShelfStorageLayout) -> (r: SkillRegistry)
        ensures
            r.wf(),
            r.layout == layout,
            r.install_policy.accept_package_directories,
            r.install_policy.accept_raw_markdown,
            r.install_policy.package_precedence@ == "package-first"@,
            r.install_policy.raw_markdown_requires_frontmatter,
            r.index_policy.default_search_result_limit == 8,
            r.index_policy.max_keywords_per_skill == 12,
            r.index_policy.max_related_skills == 5,
            r.managed_groups@.len() == 0,
            r.skill_records@.len() == 0,
            r.issues@.len() == 0,
    {
        Self::with_policies(layout, default_install_policy(), default_index_policy())
    }

    pub fn with_policies(
        layout: SkillShelfStorageLayout,
        install_policy: InstallPolicy,
        index_policy: IndexPolicy,
    ) -> (r: SkillRegistry)
        ensures
            r.wf(),
            r.layout == layout,
            r.install_policy == install_policy,
            r.index_policy == index_policy,
            r.managed_groups@.len() == 0,
            r.skill_records@.len() == 0,
            r.issues@.len() == 0,
    {
        SkillRegistry {
            layout,
            install_policy,
            index_policy,
            managed_groups: Vec::new(),
            skill_records: Vec::new(),
            issues: Vec::new(),
        }
    }

    /// The number of indexed skills.
    pub fn size(&self) -> (n: usize)
        ensures
            n == self.records().len(),
    {
        self.skill_records.len()
    }

    /// Every record, in key order.
    pub fn list_skill_records(&self) -> (v: Vec<SkillRecord>)
        ensures
            records_view(v@) == self.records(),
    {
        let mut out: Vec<SkillRecord> = Vec::new();
        let mut i: usize = 0;
        while i < self.skill_records.len()
            invariant
                i <= self.skill_records.len(),
                records_view(out@) == self.records().take(i as int),
            decreases self.skill_records.len() - i,
        {
            let c = copy_record(&self.skill_records[i]);
            proof {
                lemma_records_view_push(out@, c);
            }
            out.push(c);
            i = i + 1;
            assert(records_view(out@) =~= self.records().take(i as int));
        }
        assert(self.records().take(i as int) =~= self.records());
        out
    }

    /// The position of `key`: every earlier record's key sorts before it,
    /// and the record there, if any, does not.
    fn key_position(&self, key: &Vec<char>) -> (p: usize)
        ensures
            p <= self.records().len(),
            forall|k: int| 0 <= k < p ==> chars_lt(key_of(#[trigger] self.records()[k]), key@),
            p < self.records().len() ==> !chars_lt(key_of(self.records()[p as int]), key@),
    {
        let mut i: usize = 0;
        while i < self.skill_records.len()
            invariant
                i <= self.skill_records.len(),
                forall|k: int| 0 <= k < i ==> chars_lt(key_of(#[trigger] self.records()[k]), key@),
            decreases self.skill_records.len() - i,
        {
            let k = key_chars(&self.skill_records[i]);
            if !chars_less(&k, key) {
                return i;
            }
            i = i + 1;
        }
        i
    }

    /// Puts a record under its key, replacing the one there.
    pub fn upsert_record(&mut self, rec: SkillRecord)
        requires
            old(self).wf(),
        ensures
            final(self).wf(),
            final(self).records().contains(rec@),
            forall|r: RecordView|
                #[trigger] old(self).records().contains(r) && key_of(r) != key_of(rec@)
                    ==> final(self).records().contains(r),
            forall|r: RecordView|
                #[trigger] final(self).records().contains(r) ==> r == rec@ || (old(
                    self,
                ).records().contains(r) && key_of(r) != key_of(rec@)),
            final(self).managed_groups == old(self).managed_groups,
            final(self).issues == old(self).issues,
            final(self).layout == old(self).layout,
            final(self).install_policy == old(self).install_policy,
            final(self).index_policy == old(self).index_policy,
    {
        let key = key_chars(&rec);
        let p = self.key_position(&key);
        let ghost old_recs = self.records();
        let ghost x = rec@;
        let found = p < self.skill_records.len() && {
            let kp = key_chars(&self.skill_records[p]);
            crate::text::chars_eq(&kp, &key)
        };
        if found {
            self.skill_records.set(p, rec);
            proof {
                let nr = self.records();
                assert(nr =~= old_recs.update(p as int, x));
                assert forall|i: int, j: int| 0 <= i < j < nr.len() implies chars_lt(
                    key_of(#[trigger] nr[i]),
                    key_of(#[trigger] nr[j]),
                ) by {
                    assert(key_of(nr[i]) == key_of(old_recs[i]));
                    assert(key_of(nr[j]) == key_of(old_recs[j]));
                }
                assert(nr[p as int] == x);
                assert forall|r: RecordView|
                    #[trigger] old_recs.contains(r) && key_of(r) != key_of(x) implies nr.contains(
                    r,
                ) by {
                    let i = choose|i: int| 0 <= i < old_recs.len() && old_recs[i] == r;
                    assert(i != p);
                    assert(nr[i] == r);
                }
                assert forall|r: RecordView| #[trigger] nr.contains(r) implies r == x || (
                old_recs.contains(r) && key_of(r) != key_of(x)) by {
                    let i = choose|i: int| 0 <= i < nr.len() && nr[i] == r;
                    if i != p {
                        assert(old_recs[i] == r);
                        if i < p {
                            lemma_chars_lt_irreflexive(key_of(x));
                        } else {
                            lemma_chars_lt_irreflexive(key_of(x));
                        }
                    }
                }
            }
        } else {
            self.skill_records.insert(p, rec);
            proof {
                let nr = self.records();
                assert(nr =~= old_recs.insert(p as int, x));
                if p < old_recs.len() {
                    lemma_chars_lt_total(key_of(old_recs[p as int]), key_of(x));
                }
                assert forall|i: int, j: int| 0 <= i < j < nr.len() implies chars_lt(
                    key_of(#[trigger] nr[i]),
                    key_of(#[trigger] nr[j]),
                ) by {
                    if j < p {
                        assert(nr[i] == old_recs[i] && nr[j] == old_recs[j]);
                    } else if j == p {
                        assert(nr[i] == old_recs[i]);
                    } else if i == p {
                        assert(nr[j] == old_recs[j - 1]);
                        if j - 1 > p {
                            lemma_chars_lt_transitive(
                                key_of(x),
                                key_of(old_recs[p as int]),
                                key_of(old_recs[j - 1]),
                            );
                        }
                    } else if i < p {
                        assert(nr[i] == old_recs[i] && nr[j] == old_recs[j - 1]);
                        lemma_chars_lt_transitive(
                            key_of(old_recs[i]),
                            key_of(x),
                            key_of(old_recs[p as int]),
                        );
                        if j - 1 > p {
                            lemma_chars_lt_transitive(
                                key_of(old_recs[i]),
                                key_of(old_recs[p as int]),
                                key_of(old_recs[j - 1]),
                            );
                        }
                    } else {
                        assert(nr[i] == old_recs[i - 1] && nr[j] == old_recs[j - 1]);
                    }
                }
                assert(nr[p as int] == x);
                assert forall|r: RecordView|
                    #[trigger] old_recs.contains(r) && key_of(r) != key_of(x) implies nr.contains(
                    r,
                ) by {
                    let i = choose|i: int| 0 <= i < old_recs.len() && old_recs[i] == r;
                    if i < p {
                        assert(nr[i] == r);
                    } else {
                        assert(nr[i + 1] == r);
                    }
                }
                assert forall|r: RecordView| #[trigger] nr.contains(r) implies r == x || (
                old_recs.contains(r) && key_of(r) != key_of(x)) by {
                    let i = choose|i: int| 0 <= i < nr.len() && nr[i] == r;
                    if i < p {
                        assert(old_recs[i] == r);
                        lemma_chars_lt_irreflexive(key_of(x));
                    } else if i > p {
                        assert(old_recs[i - 1] == r);
                        if i - 1 == p {
                        } else {
                            lemma_chars_lt_transitive(
                                key_of(x),
                                key_of(old_recs[p as int]),
                                key_of(old_recs[i - 1]),
                            );
                        }
                        lemma_chars_lt_irreflexive(key_of(x));
                    }
                }
            }
        }
    }

    /// Indexes a parsed skill file under `group/skill_id`, as `ready`.
    pub fn upsert_in_memory(&mut self, parsed: ParsedSkill, skill_id: String)
        requires
            old(self).wf(),
        ensures
            final(self).wf(),
            final(self).records().contains(record_from(parsed@, skill_id@)),
            forall|r: RecordView|
                #[trigger] old(self).records().contains(r) && key_of(r) != key_of(
                    record_from(parsed@, skill_id@),
                ) ==> final(self).records().contains(r),
            forall|r: RecordView|
                #[trigger] final(self).records().contains(r) ==> r == record_from(
                    parsed@,
                    skill_id@,
                ) || (old(self).records().contains(r) && key_of(r) != key_of(
                    record_from(parsed@, skill_id@),
                )),
            final(self).managed_groups == old(self).managed_groups,
            final(self).issues == old(self).issues,
            final(self).layout == old(self).layout,
            final(self).install_policy == old(self).install_policy,
            final(self).index_policy == old(self).index_policy,
    {
        let rec = SkillRecord {
            skill_id,
            skill_name: parsed.skill_name,
            description: parsed.description,
            group: parsed.group,
            group_description: parsed.group_description,
            keywords: parsed.keywords,
            skill_path: parsed.skill_path,
            updated_at_ms_bits: parsed.updated_at_ms_bits,
            status: String::from_str("ready"),
        };
        assert(rec@ =~= record_from(parsed@, skill_id@));
        self.upsert_record(rec);
    }

    /// The record under a composite `group/skill_id` key, else the first
    /// record whose skill id is the id's last segment.
    pub fn get_by_id(&self, id: &str) -> (r: Option<SkillRecord>)
        ensures
            match r {
                Some(rec) => spec_get_by_id(self.records(), id@) == Some(rec@),
                None => spec_get_by_id(self.records(), id@) is None,
            },
    {
        let target = chars_of(id);
        let ghost recs = self.records();
        let mut i: usize = 0;
        while i < self.skill_records.len()
            invariant
                i <= self.skill_records.len(),
                recs == self.records(),
                target@ == id@,
                forall|k: int| 0 <= k < i ==> key_of(#[trigger] recs[k]) != id@,
            decreases self.skill_records.len() - i,
        {
            let k = key_chars(&self.skill_records[i]);
            if crate::text::chars_eq(&k, &target) {
                proof {
                    lemma_first_where_at(recs, |r: RecordView| key_of(r) == id@, i as int);
                }
                return Some(copy_record(&self.skill_records[i]));
            }
            i = i + 1;
        }
        proof {
            lemma_first_where_at(recs, |r: RecordView| key_of(r) == id@, i as int);
        }
        let bare = last_segment_chars(&target);
        let mut j: usize = 0;
        while j < self.skill_records.len()
            invariant
                j <= self.skill_records.len(),
                recs == self.records(),
                bare@ == last_segment(id@),
                first_where(recs, |r: RecordView| key_of(r) == id@) is None,
                forall|k: int| 0 <= k < j ==> (#[trigger] recs[k]).skill_id != last_segment(id@),
            decreases self.skill_records.len() - j,
        {
            let sid = chars_of(self.skill_records[j].skill_id.as_str());
            if crate::text::chars_eq(&sid, &bare) {
                proof {
                    lemma_first_where_at(
                        recs,
                        |r: RecordView| r.skill_id == last_segment(id@),
                        j as int,
                    );
                }
                return Some(copy_record(&self.skill_records[j]));
            }
            j = j + 1;
        }
        proof {
            lemma_first_where_at(recs, |r: RecordView| r.skill_id == last_segment(id@), j as int);
        }
        None
    }

    /// The first record whose trimmed, lowercased name is the trimmed,
    /// lowercased query.
    pub fn get_by_name(&self, skill_name: &str) -> (r: Option<SkillRecord>)
        ensures
            match r {
                Some(rec) => spec_get_by_name(self.records(), skill_name@) == Some(rec@),
                None => spec_get_by_name(self.records(), skill_name@) is None,
            },
    {
        let normalized = chars_of(lowercase(trim_string(skill_name).as_str()).as_str());
        let ghost recs = self.records();
        let ghost pred = |r: RecordView| name_norm(r.skill_name) == name_norm(skill_name@);
        let mut i: usize = 0;
        while i < self.skill_records.len()
            invariant
                i <= self.skill_records.len(),
                recs == self.records(),
                normalized@ == name_norm(skill_name@),
                pred == (|r: RecordView| name_norm(r.skill_name) == name_norm(skill_name@)),
                forall|k: int| 0 <= k < i ==> !pred(#[trigger] recs[k]),
            decreases self.skill_records.len() - i,
        {
            let candidate = chars_of(
                lowercase(trim_string(self.skill_records[i].skill_name.as_str()).as_str()).as_str(),
            );
            if crate::text::chars_eq(&candidate, &normalized) {
                proof {
                    lemma_first_where_at(recs, pred, i as int);
                }
                return Some(copy_record(&self.skill_records[i]));
            }
            i = i + 1;
        }
        proof {
            lemma_first_where_at(recs, pred, i as int);
        }
        None
    }
}

/// The part of an id after its last `/`.
pub fn last_segment_chars(id: &Vec<char>) -> (r: Vec<char>)
    ensures
        r@ == last_segment(id@),
{
    let mut start: usize = id.len();
    assert(id@.take(start as int) =~= id@);
    assert(id@.skip(start as int) =~= Seq::<char>::empty());
    assert(last_segment(id@) + Seq::<char>::empty() =~= last_segment(id@));
    while start > 0 && id[start - 1] != '/'
        invariant
            start <= id.len(),
            last_segment(id@) == last_segment(id@.take(start as int)) + id@.skip(start as int),
        decreases start,
    {
        let ghost t = id@.take(start as int);
        assert(t.drop_last() =~= id@.take(start - 1));
        assert(id@.skip(start - 1) =~= seq![t.last()] + id@.skip(start as int));
        start = start - 1;
    }
    proof {
        if start == 0 {
            assert(id@.take(0) =~= Seq::<char>::empty());
        }
        assert(id@.skip(start as int) + Seq::<char>::empty() =~= id@.skip(start as int));
    }
    let mut out: Vec<char> = Vec::new();
    let mut i: usize = start;
    while i < id.len()
        invariant
            start <= i <= id.len(),
            out@ == id@.subrange(start as int, i as int),
        decreases id.len() - i,
    {
        out.push(id[i]);
        i = i + 1;
        assert(out@ =~= id@.subrange(start as int, i as int));
    }
    assert(out@ =~= id@.skip(start as int));
    out
}


// ---------------------------------------------------------------------------
// Rebuilding the index
// ---------------------------------------------------------------------------

/// What scanning one `SKILL.md` gave: a parsed skill with the id of its
/// package directory, or the reason it could not be indexed.
#[derive(Debug, Clone, PartialEq, Eq)]
pub enum ScannedSkill {
    Parsed { skill: ParsedSkill, skill_id: String },
    Failed(RegistryIssue),
}

pub open spec fn scanned_record(s: ScannedSkill) -> Option<RecordView> {
    match s {
        ScannedSkill::Parsed { skill, skill_id } => Some(record_from(skill@, skill_id@)),
        ScannedSkill::Failed(_) => None,
    }
}

/// The issues among the scan results, in order.
pub open spec fn scanned_issues(s: Seq<ScannedSkill>) -> Seq<IssueView>
    decreases s.len(),
{
    if s.len() == 0 {
        Seq::empty()
    } else {
        let prev = scanned_issues(s.drop_last());
        match s.last() {
            ScannedSkill::Failed(issue) => prev.push(issue@),
            ScannedSkill::Parsed { .. } => prev,
        }
    }
}

/// The scan result at `j` is a parsed skill that no later one overrides.
pub open spec fn survives(s: Seq<ScannedSkill>, j: int) -> bool {
    &&& 0 <= j < s.len()
    &&& scanned_record(s[j]) is Some
    &&& forall|k: int|
        j < k < s.len() && #[trigger] scanned_record(s[k]) is Some ==> key_of(
            scanned_record(s[k])->0,
        ) != key_of(scanned_record(s[j])->0)
}

impl SkillRegistry {
    /// Every issue of the last rebuild, in order.
    pub fn list_issues(&self) -> (v: Vec<RegistryIssue>)
        ensures
            issues_view(v@) == issues_view(self.issues@),
    {
        let mut out: Vec<RegistryIssue> = Vec::new();
        let mut i: usize = 0;
        while i < self.issues.len()
            invariant
                i <= self.issues.len(),
                issues_view(out@) == issues_view(self.issues@).take(i as int),
            decreases self.issues.len() - i,
        {
            let issue = RegistryIssue {
                path: copy_string(&self.issues[i].path),
                message: copy_string(&self.issues[i].message),
            };
            assert(issues_view(out@.push(issue)) =~= issues_view(out@).push(issue@));
            out.push(issue);
            i = i + 1;
            assert(issues_view(out@) =~= issues_view(self.issues@).take(i as int));
        }
        assert(issues_view(self.issues@).take(i as int) =~= issues_view(self.issues@));
        out
    }

    /// Rebuilds the index from a fresh group catalog and the scan of every
    /// `SKILL.md`: each parsed skill is indexed under its key, a later one
    /// replacing an earlier one of the same key, and each failure becomes an
    /// issue.
    pub fn rebuild_from(&mut self, managed_groups: Vec<ManagedGroupRecord>, scanned: Vec<ScannedSkill>)
        ensures
            final(self).wf(),
            final(self).managed_groups == managed_groups,
            issues_view(final(self).issues@) == scanned_issues(scanned@),
            forall|r: RecordView| #[trigger]
                final(self).records().contains(r) <==> exists|j: int|
                    survives(scanned@, j) && scanned_record(#[trigger] scanned@[j]) == Some(r),
            final(self).layout == old(self).layout,
            final(self).install_policy == old(self).install_policy,
            final(self).index_policy == old(self).index_policy,
    {
        self.managed_groups = managed_groups;
        self.skill_records = Vec::new();
        self.issues = Vec::new();
        let mut i: usize = 0;
        while i < scanned.len()
            invariant
                i <= scanned.len(),
                self.wf(),
                self.managed_groups == managed_groups,
                self.layout == old(self).layout,
                self.install_policy == old(self).install_policy,
                self.index_policy == old(self).index_policy,
                issues_view(self.issues@) == scanned_issues(scanned@.take(i as int)),
                forall|r: RecordView| #[trigger]
                    self.records().contains(r) <==> exists|j: int|
                        survives(scanned@.take(i as int), j) && scanned_record(
                            #[trigger] scanned@.take(i as int)[j],
                        ) == Some(r),
            decreases scanned.len() - i,
        {
            let ghost before = scanned@.take(i as int);
            let ghost after = scanned@.take(i + 1);
            let ghost old_recs = self.records();
            assert(after.drop_last() =~= before);
            assert forall|j: int| 0 <= j < i implies #[trigger] after[j] == before[j] by {}
            match &scanned[i] {
                ScannedSkill::Parsed { skill, skill_id } => {
                    let ghost x = record_from(skill@, skill_id@);
                    let p = ParsedSkill {
                        skill_name: copy_string(&skill.skill_name),
                        description: copy_string(&skill.description),
                        group: copy_string(&skill.group),
                        group_description: copy_string(&skill.group_description),
                        keywords: copy_strings(&skill.keywords),
                        skill_path: copy_string(&skill.skill_path),
                        updated_at_ms_bits: skill.updated_at_ms_bits,
                    };
                    assert(p@ =~= skill@);
                    self.upsert_in_memory(p, copy_string(skill_id));
                    proof {
                        assert(scanned_record(after[i as int]) == Some(x));
                        assert forall|r: RecordView| #[trigger]
                            self.records().contains(r) implies exists|j: int|
                                survives(after, j) && scanned_record(#[trigger] after[j]) == Some(
                                    r,
                                ) by {
                            if r == x {
                                assert(survives(after, i as int));
                            } else {
                                assert(old_recs.contains(r) && key_of(r) != key_of(x));
                                let j = choose|j: int|
                                    survives(before, j) && scanned_record(#[trigger] before[j])
                                        == Some(r);
                                assert(after[j] == before[j]);
                                assert forall|k: int|
                                    j < k < after.len() && #[trigger] scanned_record(
                                        after[k],
                                    ) is Some implies key_of(scanned_record(after[k])->0) != key_of(
                                    scanned_record(after[j])->0,
                                ) by {
                                    if k < i {
                                        assert(after[k] == before[k]);
                                    }
                                }
                                assert(survives(after, j));
                            }
                        }
                        assert forall|r: RecordView|
                            (exists|j: int|
                                survives(after, j) && scanned_record(#[trigger] after[j]) == Some(
                                    r,
                                )) implies #[trigger] self.records().contains(r) by {
                            let j = choose|j: int|
                                survives(after, j) && scanned_record(#[trigger] after[j]) == Some(
                                    r,
                                );
                            if j == i {
                                assert(r == x);
                            } else {
                                assert(after[j] == before[j]);
                                assert(key_of(r) != key_of(x));
                                assert forall|k: int|
                                    j < k < before.len() && #[trigger] scanned_record(
                                        before[k],
                                    ) is Some implies key_of(scanned_record(before[k])->0)
                                    != key_of(scanned_record(before[j])->0) by {
                                    assert(after[k] == before[k]);
                                }
                                assert(survives(before, j));
                                assert(old_recs.contains(r));
                            }
                        }
                    }
                },
                ScannedSkill::Failed(issue) => {
                    let copy = RegistryIssue {
                        path: copy_string(&issue.path),
                        message: copy_string(&issue.message),
                    };
                    self.issues.push(copy);
                    proof {
                        assert(issues_view(self.issues@) =~= scanned_issues(before).push(
                            issue@,
                        ));
                        assert(scanned_record(after[i as int]) is None);
                        assert forall|r: RecordView| #[trigger]
                            self.records().contains(r) implies exists|j: int|
                                survives(after, j) && scanned_record(#[trigger] after[j]) == Some(
                                    r,
                                ) by {
                            let j = choose|j: int|
                                survives(before, j) && scanned_record(#[trigger] before[j])
                                    == Some(r);
                            assert(after[j] == before[j]);
                            assert forall|k: int|
                                j < k < after.len() && #[trigger] scanned_record(
                                    after[k],
                                ) is Some implies key_of(scanned_record(after[k])->0) != key_of(
                                scanned_record(after[j])->0,
                            ) by {
                                if k < i {
                                    assert(after[k] == before[k]);
                                }
                            }
                            assert(survives(after, j));
                        }
                        assert forall|r: RecordView|
                            (exists|j: int|
                                survives(after, j) && scanned_record(#[trigger] after[j]) == Some(
                                    r,
                                )) implies #[trigger] self.records().contains(r) by {
                            let j = choose|j: int|
                                survives(after, j) && scanned_record(#[trigger] after[j]) == Some(
                                    r,
                                );
                            assert(j != i);
                            assert(after[j] == before[j]);
                            assert forall|k: int|
                                j < k < before.len() && #[trigger] scanned_record(
                                    before[k],
                                ) is Some implies key_of(scanned_record(before[k])->0) != key_of(
                                scanned_record(before[j])->0,
                            ) by {
                                assert(after[k] == before[k]);
                            }
                            assert(survives(before, j));
                        }
                    }
                },
            }
            i = i + 1;
        }
        assert(scanned@.take(scanned.len() as int) =~= scanned@);
    }
}


// ---------------------------------------------------------------------------
// Groups
// ---------------------------------------------------------------------------

/// The last catalog entry of that group: a later entry of a name replaces
/// an earlier one.
pub open spec fn managed_index(groups: Seq<ManagedGroupView>, g: Seq<char>) -> Option<int>
    decreases groups.len(),
{
    if groups.len() == 0 {
        None
    } else if groups.last().group == g {
        Some(groups.len() - 1)
    } else {
        managed_index(groups.drop_last(), g)
    }
}

proof fn lemma_managed_index(groups: Seq<ManagedGroupView>, g: Seq<char>)
    ensures
        match managed_index(groups, g) {
            Some(i) => 0 <= i < groups.len() && groups[i].group == g,
            None => forall|k: int| 0 <= k < groups.len() ==> (#[trigger] groups[k]).group != g,
        },
    decreases groups.len(),
{
    if groups.len() > 0 && groups.last().group != g {
        let d = groups.drop_last();
        lemma_managed_index(d, g);
        match managed_index(d, g) {
            Some(i) => {
                assert(groups[i] == d[i]);
            },
            None => {
                assert forall|k: int| 0 <= k < groups.len() implies (#[trigger] groups[k]).group != g by {
                    if k < groups.len() - 1 {
                        assert(groups[k] == d[k]);
                    }
                }
            },
        }
    }
}

/// A group is known when the catalog has it or a record is filed under it.
pub open spec fn group_known(groups: Seq<ManagedGroupView>, recs: Seq<RecordView>, g: Seq<char>) -> bool {
    managed_index(groups, g) is Some || first_where(recs, |r: RecordView| r.group == g) is Some
}

/// A group's description: the catalog's, else that of its first record.
pub open spec fn group_desc(groups: Seq<ManagedGroupView>, recs: Seq<RecordView>, g: Seq<char>) -> Seq<char> {
    match managed_index(groups, g) {
        Some(i) => groups[i].group_description,
        None => match first_where(recs, |r: RecordView| r.group == g) {
            Some(i) => recs[i].group_description,
            None => Seq::empty(),
        },
    }
}

pub open spec fn items_sorted(items: Seq<ItemView>) -> bool {
    forall|i: int, j: int|
        0 <= i < j < items.len() ==> chars_lt((#[trigger] items[i]).group, (#[trigger] items[j]).group)
}

/// The group list: every known group once, in name order, with its
/// description.
pub open spec fn is_group_list(items: Seq<ItemView>, groups: Seq<ManagedGroupView>, recs: Seq<RecordView>) -> bool {
    &&& items_sorted(items)
    &&& forall|i: int|
        0 <= i < items.len() ==> group_known(groups, recs, (#[trigger] items[i]).group)
            && items[i].group_description == group_desc(groups, recs, items[i].group)
    &&& forall|g: Seq<char>|
        #[trigger] group_known(groups, recs, g) ==> exists|i: int|
            0 <= i < items.len() && (#[trigger] items[i]).group == g
}

proof fn lemma_first_where_push(recs: Seq<RecordView>, pred: spec_fn(RecordView) -> bool, x: RecordView)
    ensures
        first_where(recs.push(x), pred) == match first_where(recs, pred) {
            Some(i) => Some(i),
            None => if pred(x) {
                Some(recs.len() as int)
            } else {
                None::<int>
            },
        },
{
    lemma_first_where_found(recs, pred);
    let t = recs.push(x);
    match first_where(recs, pred) {
        Some(i) => {
            assert forall|k: int| 0 <= k < i implies !pred(#[trigger] t[k]) by {
                assert(t[k] == recs[k]);
            }
            assert(t[i] == recs[i]);
            lemma_first_where_at(t, pred, i);
        },
        None => {
            assert forall|k: int| 0 <= k < recs.len() implies !pred(#[trigger] t[k]) by {
                assert(t[k] == recs[k]);
            }
            if pred(x) {
                lemma_first_where_at(t, pred, recs.len() as int);
            } else {
                lemma_first_where_at(t, pred, t.len() as int);
            }
        },
    }
}

fn item_position(items: &Vec<GroupListItem>, g: &Vec<char>) -> (p: usize)
    ensures
        p <= items.len(),
        forall|k: int| 0 <= k < p ==> chars_lt((#[trigger] items_view(items@)[k]).group, g@),
        p < items.len() ==> !chars_lt(items_view(items@)[p as int].group, g@),
{
    let mut i: usize = 0;
    while i < items.len()
        invariant
            i <= items.len(),
            forall|k: int| 0 <= k < i ==> chars_lt((#[trigger] items_view(items@)[k]).group, g@),
        decreases items.len() - i,
    {
        let k = chars_of(items[i].group.as_str());
        if !chars_less(&k, g) {
            return i;
        }
        i = i + 1;
    }
    i
}

proof fn lemma_items_insert(items: Seq<ItemView>, p: int, x: ItemView)
    requires
        items_sorted(items),
        0 <= p <= items.len(),
        forall|k: int| 0 <= k < p ==> chars_lt((#[trigger] items[k]).group, x.group),
        p < items.len() ==> chars_lt(x.group, items[p].group),
    ensures
        items_sorted(items.insert(p, x)),
{
    let nr = items.insert(p, x);
    assert forall|i: int, j: int| 0 <= i < j < nr.len() implies chars_lt(
        (#[trigger] nr[i]).group,
        (#[trigger] nr[j]).group,
    ) by {
        if j < p {
            assert(nr[i] == items[i] && nr[j] == items[j]);
        } else if j == p {
            assert(nr[i] == items[i]);
        } else if i == p {
            assert(nr[j] == items[j - 1]);
            if j - 1 > p {
                lemma_chars_lt_transitive(x.group, items[p].group, items[j - 1].group);
            }
        } else if i < p {
            assert(nr[i] == items[i] && nr[j] == items[j - 1]);
            lemma_chars_lt_transitive(items[i].group, x.group, items[p].group);
            if j - 1 > p {
                lemma_chars_lt_transitive(items[i].group, items[p].group, items[j - 1].group);
            }
        } else {
            assert(nr[i] == items[i - 1] && nr[j] == items[j - 1]);
        }
    }
}

/// The group list after filing `x`: `x` replaced the item of its name at
/// `p`, or went in there.
proof fn lemma_put_update(o: Seq<ItemView>, p: int, x: ItemView)
    requires
        items_sorted(o),
        0 <= p < o.len(),
        o[p].group == x.group,
    ensures
        items_sorted(o.update(p, x)),
        forall|i: int| 0 <= i < o.len() && i != p ==> (#[trigger] o[i]).group != x.group,
        forall|i: int|
            0 <= i < o.len() && i != p ==> o.update(p, x)[i] == #[trigger] o[i],
{
    let n = o.update(p, x);
    assert forall|i: int, j: int| 0 <= i < j < n.len() implies chars_lt(
        (#[trigger] n[i]).group,
        (#[trigger] n[j]).group,
    ) by {
        assert(n[i].group == o[i].group);
        assert(n[j].group == o[j].group);
    }
    assert forall|i: int| 0 <= i < o.len() && i != p implies (#[trigger] o[i]).group != x.group by {
        lemma_chars_lt_irreflexive(x.group);
    }
}

proof fn lemma_put_insert(o: Seq<ItemView>, p: int, x: ItemView)
    requires
        items_sorted(o),
        0 <= p <= o.len(),
        forall|k: int| 0 <= k < p ==> chars_lt((#[trigger] o[k]).group, x.group),
        p < o.len() ==> !chars_lt(o[p].group, x.group) && o[p].group != x.group,
    ensures
        items_sorted(o.insert(p, x)),
        forall|i: int| 0 <= i < o.len() ==> (#[trigger] o[i]).group != x.group,
{
    if p < o.len() {
        lemma_chars_lt_total(o[p].group, x.group);
    }
    lemma_items_insert(o, p, x);
    assert forall|k: int| 0 <= k < o.len() implies (#[trigger] o[k]).group != x.group by {
        lemma_chars_lt_irreflexive(x.group);
        if k > p {
            lemma_chars_lt_transitive(x.group, o[p].group, o[k].group);
        }
    }
}

/// Files a group under its name: a new name goes in at its place; a known
/// one gets the description when `overwrite` is set.
fn put_item(items: &mut Vec<GroupListItem>, g: &String, desc: &String, overwrite: bool)
    requires
        items_sorted(items_view(old(items)@)),
    ensures
        items_sorted(items_view(final(items)@)),
        ({
            let o = items_view(old(items)@);
            let n = items_view(final(items)@);
            let had = exists|k: int| 0 <= k < o.len() && (#[trigger] o[k]).group == g@;
            &&& exists|i: int| 0 <= i < n.len() && (#[trigger] n[i]).group == g@
            &&& forall|i: int|
                0 <= i < n.len() && (#[trigger] n[i]).group == g@ ==> if overwrite || !had {
                    n[i].group_description == desc@
                } else {
                    o.contains(n[i])
                }
            &&& forall|i: int| 0 <= i < n.len() && (#[trigger] n[i]).group != g@ ==> o.contains(n[i])
            &&& forall|k: int| 0 <= k < o.len() && (#[trigger] o[k]).group != g@ ==> n.contains(o[k])
        }),
{
    let gc = chars_of(g.as_str());
    let p = item_position(items, &gc);
    let ghost o = items_view(items@);
    let item = GroupListItem { group: copy_string(g), group_description: copy_string(desc) };
    let ghost x = item@;
    let found = p < items.len() && {
        let k = chars_of(items[p].group.as_str());
        crate::text::chars_eq(&k, &gc)
    };
    if found {
        proof {
            lemma_put_update(o, p as int, x);
        }
        if overwrite {
            items.set(p, item);
            proof {
                let n = items_view(items@);
                assert(n =~= o.update(p as int, x));
                assert(n[p as int].group == g@);
                assert forall|k: int| 0 <= k < o.len() && (#[trigger] o[k]).group != g@ implies n.contains(o[k]) by {
                    assert(n[k] == o[k]);
                }
                assert forall|i: int| 0 <= i < n.len() && (#[trigger] n[i]).group != g@ implies o.contains(n[i]) by {
                    assert(n[i] == o[i]);
                }
            }
        } else {
            proof {
                assert(o[p as int].group == g@);
                assert forall|i: int| 0 <= i < o.len() implies o.contains(#[trigger] o[i]) by {}
            }
        }
    } else {
        items.insert(p, item);
        proof {
            lemma_put_insert(o, p as int, x);
            let n = items_view(items@);
            assert(n =~= o.insert(p as int, x));
            assert(n[p as int] == x);
            assert forall|k: int| 0 <= k < o.len() && (#[trigger] o[k]).group != g@ implies n.contains(o[k]) by {
                if k < p {
                    assert(n[k] == o[k]);
                } else {
                    assert(n[k + 1] == o[k]);
                }
            }
            assert forall|i: int| 0 <= i < n.len() && (#[trigger] n[i]).group != g@ implies o.contains(n[i]) by {
                if i < p {
                    assert(n[i] == o[i]);
                } else if i > p {
                    assert(n[i] == o[i - 1]);
                }
            }
        }
    }
}

proof fn lemma_managed_index_push(groups: Seq<ManagedGroupView>, x: ManagedGroupView, g: Seq<char>)
    ensures
        managed_index(groups.push(x), g) == if x.group == g {
            Some(groups.len() as int)
        } else {
            managed_index(groups, g)
        },
{
    assert(groups.push(x).drop_last() =~= groups);
}

proof fn lemma_known_push(groups: Seq<ManagedGroupView>, recs: Seq<RecordView>, x: RecordView, g: Seq<char>)
    ensures
        group_known(groups, recs.push(x), g) == (group_known(groups, recs, g) || x.group == g),
        group_known(groups, recs, g) ==> group_desc(groups, recs.push(x), g) == group_desc(
            groups,
            recs,
            g,
        ),
        !group_known(groups, recs, g) && x.group == g ==> group_desc(groups, recs.push(x), g)
            == x.group_description,
{
    lemma_first_where_push(recs, |r: RecordView| r.group == g, x);
    assert(recs.push(x)[recs.len() as int] == x);
    match first_where(recs, |r: RecordView| r.group == g) {
        Some(i) => {
            lemma_first_where_found(recs, |r: RecordView| r.group == g);
            assert(recs.push(x)[i] == recs[i]);
        },
        None => {},
    }
}

fn copy_item(it: &GroupListItem) -> (c: GroupListItem)
    ensures
        c@ == it@,
{
    GroupListItem { group: copy_string(&it.group), group_description: copy_string(&it.group_description) }
}

impl SkillRegistry {
    /// Every known group once, in name order: the catalog's groups with
    /// their descriptions, and the groups that records are filed under.
    pub fn list_groups(&self) -> (v: Vec<GroupListItem>)
        ensures
            is_group_list(items_view(v@), self.groups(), self.records()),
    {
        let ghost groups = self.groups();
        let ghost recs = self.records();
        let mut items: Vec<GroupListItem> = Vec::new();
        let mut k: usize = 0;
        while k < self.managed_groups.len()
            invariant
                k <= self.managed_groups.len(),
                groups == self.groups(),
                items_sorted(items_view(items@)),
                forall|i: int|
                    0 <= i < items@.len() ==> {
                        let it = #[trigger] items_view(items@)[i];
                        &&& managed_index(groups.take(k as int), it.group) is Some
                        &&& it.group_description == groups[managed_index(
                            groups.take(k as int),
                            it.group,
                        )->0].group_description
                    },
                forall|g: Seq<char>|
                    #[trigger] managed_index(groups.take(k as int), g) is Some ==> exists|i: int|
                        0 <= i < items@.len() && (#[trigger] items_view(items@)[i]).group == g,
            decreases self.managed_groups.len() - k,
        {
            let ghost o = items_view(items@);
            let ghost x = groups[k as int];
            let ghost gp = groups.take(k as int);
            assert(groups.take(k + 1) =~= gp.push(x));
            put_item(&mut items, &self.managed_groups[k].group, &self.managed_groups[k].group_description, true);
            proof {
                let n = items_view(items@);
                let gn = groups.take(k + 1);
                assert forall|i: int| 0 <= i < n.len() implies {
                    let it = #[trigger] n[i];
                    &&& managed_index(gn, it.group) is Some
                    &&& it.group_description == groups[managed_index(gn, it.group)->0].group_description
                } by {
                    lemma_managed_index_push(gp, x, n[i].group);
                    if n[i].group != x.group {
                        let j = choose|j: int| 0 <= j < o.len() && o[j] == n[i];
                        assert(o[j] == n[i]);
                        lemma_managed_index(gp, n[i].group);
                    }
                }
                assert forall|g: Seq<char>| #[trigger] managed_index(gn, g) is Some implies exists|i: int|
                    0 <= i < n.len() && (#[trigger] n[i]).group == g by {
                    lemma_managed_index_push(gp, x, g);
                    if g != x.group {
                        assert(managed_index(gp, g) is Some);
                        let j = choose|j: int| 0 <= j < o.len() && (#[trigger] o[j]).group == g;
                        assert(n.contains(o[j]));
                    }
                }
            }
            k = k + 1;
        }
        assert(groups.take(k as int) =~= groups);
        let mut m: usize = 0;
        assert(recs.take(0) =~= Seq::<RecordView>::empty());
        assert forall|g: Seq<char>| group_known(groups, recs.take(0), g) == (managed_index(groups, g) is Some)
            && group_desc(groups, recs.take(0), g) == match managed_index(groups, g) {
                Some(i) => groups[i].group_description,
                None => Seq::<char>::empty(),
            } by {}
        while m < self.skill_records.len()
            invariant
                m <= self.skill_records.len(),
                groups == self.groups(),
                recs == self.records(),
                items_sorted(items_view(items@)),
                forall|i: int|
                    0 <= i < items@.len() ==> {
                        let it = #[trigger] items_view(items@)[i];
                        &&& group_known(groups, recs.take(m as int), it.group)
                        &&& it.group_description == group_desc(groups, recs.take(m as int), it.group)
                    },
                forall|g: Seq<char>|
                    #[trigger] group_known(groups, recs.take(m as int), g) ==> exists|i: int|
                        0 <= i < items@.len() && (#[trigger] items_view(items@)[i]).group == g,
            decreases self.skill_records.len() - m,
        {
            let ghost o = items_view(items@);
            let ghost x = recs[m as int];
            let ghost rp = recs.take(m as int);
            assert(recs.take(m + 1) =~= rp.push(x));
            put_item(&mut items, &self.skill_records[m].group, &self.skill_records[m].group_description, false);
            proof {
                let n = items_view(items@);
                let rn = recs.take(m + 1);
                assert forall|i: int| 0 <= i < n.len() implies {
                    let it = #[trigger] n[i];
                    &&& group_known(groups, rn, it.group)
                    &&& it.group_description == group_desc(groups, rn, it.group)
                } by {
                    lemma_known_push(groups, rp, x, n[i].group);
                    if n[i].group != x.group {
                        let j = choose|j: int| 0 <= j < o.len() && o[j] == n[i];
                        assert(o[j] == n[i]);
                    } else {
                        if exists|j: int| 0 <= j < o.len() && (#[trigger] o[j]).group == x.group {
                            let j = choose|j: int| 0 <= j < o.len() && o[j] == n[i];
                            assert(o[j] == n[i]);
                        } else {
                            if group_known(groups, rp, x.group) {
                                let j = choose|j: int| 0 <= j < o.len() && (#[trigger] o[j]).group == x.group;
                            }
                        }
                    }
                }
                assert forall|g: Seq<char>| #[trigger] group_known(groups, rn, g) implies exists|i: int|
                    0 <= i < n.len() && (#[trigger] n[i]).group == g by {
                    lemma_known_push(groups, rp, x, g);
                    if g != x.group {
                        assert(group_known(groups, rp, g));
                        let j = choose|j: int| 0 <= j < o.len() && (#[trigger] o[j]).group == g;
                        assert(n.contains(o[j]));
                    }
                }
            }
            m = m + 1;
        }
        assert(recs.take(m as int) =~= recs);
        items
    }
}

// ---------------------------------------------------------------------------
// A group's skills
// ---------------------------------------------------------------------------

pub open spec fn entry_of(r: RecordView) -> EntryView {
    EntryView {
        skill_id: r.skill_id,
        skill_name: r.skill_name,
        description: r.description,
        keywords: r.keywords,
        skill_path: r.skill_path,
    }
}

/// The entries of the records filed under `g`, in record order.
pub open spec fn group_entries(recs: Seq<RecordView>, g: Seq<char>) -> Seq<EntryView>
    decreases recs.len(),
{
    if recs.len() == 0 {
        Seq::empty()
    } else {
        let prev = group_entries(recs.drop_last(), g);
        if recs.last().group == g {
            prev.push(entry_of(recs.last()))
        } else {
            prev
        }
    }
}

/// The entries of another skill id than `id`.
pub open spec fn without_skill(es: Seq<EntryView>, id: Seq<char>) -> Seq<EntryView>
    decreases es.len(),
{
    if es.len() == 0 {
        Seq::empty()
    } else {
        let prev = without_skill(es.drop_last(), id);
        if es.last().skill_id != id {
            prev.push(es.last())
        } else {
            prev
        }
    }
}

/// Where an entry goes in a name-sorted list: after every entry whose name
/// does not sort after its own, so that equal names keep their order.
pub open spec fn name_insert_pos(sorted: Seq<EntryView>, x: EntryView) -> int
    decreases sorted.len(),
{
    if sorted.len() == 0 {
        0
    } else if chars_lt(x.skill_name, sorted[0].skill_name) {
        0
    } else {
        1 + name_insert_pos(sorted.drop_first(), x)
    }
}

/// The stable sort of entries by name.
pub open spec fn sort_by_name(s: Seq<EntryView>) -> Seq<EntryView>
    decreases s.len(),
{
    if s.len() == 0 {
        Seq::empty()
    } else {
        let sorted = sort_by_name(s.drop_last());
        sorted.insert(name_insert_pos(sorted, s.last()), s.last())
    }
}

pub open spec fn take_at_most<A>(s: Seq<A>, limit: usize) -> Seq<A> {
    if limit < s.len() {
        s.take(limit as int)
    } else {
        s
    }
}

/// `list_related_skills`: the other skills of the resolved skill's group,
/// by name, at most `limit` of them; none for an unknown skill.
pub open spec fn spec_related(recs: Seq<RecordView>, skill_id: Seq<char>, limit: usize) -> Seq<
    EntryView,
> {
    match spec_get_by_id(recs, skill_id) {
        Some(rec) => take_at_most(
            sort_by_name(without_skill(group_entries(recs, rec.group), rec.skill_id)),
            limit,
        ),
        None => Seq::empty(),
    }
}

proof fn lemma_name_insert_pos_at(sorted: Seq<EntryView>, x: EntryView, j: int)
    requires
        0 <= j <= sorted.len(),
        forall|k: int| 0 <= k < j ==> !chars_lt(x.skill_name, (#[trigger] sorted[k]).skill_name),
        j == sorted.len() || chars_lt(x.skill_name, sorted[j].skill_name),
    ensures
        name_insert_pos(sorted, x) == j,
    decreases j,
{
    if j > 0 {
        assert(!chars_lt(x.skill_name, sorted[0].skill_name));
        assert forall|k: int| 0 <= k < j - 1 implies !chars_lt(
            x.skill_name,
            (#[trigger] sorted.drop_first()[k]).skill_name,
        ) by {
            assert(sorted.drop_first()[k] == sorted[k + 1]);
        }
        if j < sorted.len() {
            assert(sorted.drop_first()[j - 1] == sorted[j]);
        }
        lemma_name_insert_pos_at(sorted.drop_first(), x, j - 1);
    }
}

fn copy_entry(e: &GroupSkillIndexEntry) -> (c: GroupSkillIndexEntry)
    ensures
        c@ == e@,
{
    let c = GroupSkillIndexEntry {
        skill_id: copy_string(&e.skill_id),
        skill_name: copy_string(&e.skill_name),
        description: copy_string(&e.description),
        keywords: copy_strings(&e.keywords),
        skill_path: copy_string(&e.skill_path),
    };
    assert(c@ =~= e@);
    c
}

fn entry_from_record(r: &SkillRecord) -> (e: GroupSkillIndexEntry)
    ensures
        e@ == entry_of(r@),
{
    let e = GroupSkillIndexEntry {
        skill_id: copy_string(&r.skill_id),
        skill_name: copy_string(&r.skill_name),
        description: copy_string(&r.description),
        keywords: copy_strings(&r.keywords),
        skill_path: copy_string(&r.skill_path),
    };
    assert(e@ =~= entry_of(r@));
    e
}

/// Sorts entries by name, keeping entries of equal names in order.
pub fn sort_entries_by_name(v: Vec<GroupSkillIndexEntry>) -> (r: Vec<GroupSkillIndexEntry>)
    ensures
        entries_view(r@) == sort_by_name(entries_view(v@)),
{
    let ghost s = entries_view(v@);
    let mut out: Vec<GroupSkillIndexEntry> = Vec::new();
    let mut i: usize = 0;
    while i < v.len()
        invariant
            i <= v.len(),
            s == entries_view(v@),
            entries_view(out@) == sort_by_name(s.take(i as int)),
        decreases v.len() - i,
    {
        let x = copy_entry(&v[i]);
        let xn = chars_of(x.skill_name.as_str());
        let ghost sorted = entries_view(out@);
        let mut j: usize = 0;
        while j < out.len()
            invariant
                j <= out.len(),
                sorted == entries_view(out@),
                xn@ == x@.skill_name,
                forall|k: int| 0 <= k < j ==> !chars_lt(x@.skill_name, (#[trigger] sorted[k]).skill_name),
            ensures
                j <= out.len(),
                forall|k: int| 0 <= k < j ==> !chars_lt(x@.skill_name, (#[trigger] sorted[k]).skill_name),
                j == out.len() || chars_lt(x@.skill_name, sorted[j as int].skill_name),
            decreases out.len() - j,
        {
            let on = chars_of(out[j].skill_name.as_str());
            if chars_less(&xn, &on) {
                break;
            }
            j = j + 1;
        }
        proof {
            lemma_name_insert_pos_at(sorted, x@, j as int);
            assert(s.take(i + 1).drop_last() =~= s.take(i as int));
            assert(s.take(i + 1).last() == x@);
        }
        out.insert(j, x);
        assert(entries_view(out@) =~= sorted.insert(j as int, x@));
        i = i + 1;
    }
    assert(s.take(i as int) =~= s);
    out
}

proof fn lemma_group_entries_step(recs: Seq<RecordView>, g: Seq<char>, i: int)
    requires
        0 <= i < recs.len(),
    ensures
        group_entries(recs.take(i + 1), g) == if recs[i].group == g {
            group_entries(recs.take(i), g).push(entry_of(recs[i]))
        } else {
            group_entries(recs.take(i), g)
        },
{
    assert(recs.take(i + 1).drop_last() =~= recs.take(i));
}

proof fn lemma_without_skill_push(es: Seq<EntryView>, id: Seq<char>, e: EntryView)
    ensures
        without_skill(es.push(e), id) == if e.skill_id != id {
            without_skill(es, id).push(e)
        } else {
            without_skill(es, id)
        },
{
    assert(es.push(e).drop_last() =~= es);
}

impl SkillRegistry {
    /// The entries of the records filed under `g`, other than those of skill
    /// id `exclude`, in key order.
    fn entries_of_group(&self, g: &Vec<char>, exclude: Option<&Vec<char>>) -> (r: Vec<GroupSkillIndexEntry>)
        ensures
            entries_view(r@) == match exclude {
                Some(id) => without_skill(group_entries(self.records(), g@), id@),
                None => group_entries(self.records(), g@),
            },
    {
        let ghost recs = self.records();
        let mut out: Vec<GroupSkillIndexEntry> = Vec::new();
        let mut i: usize = 0;
        assert(recs.take(0) =~= Seq::<RecordView>::empty());
        while i < self.skill_records.len()
            invariant
                i <= self.skill_records.len(),
                recs == self.records(),
                entries_view(out@) == match exclude {
                    Some(id) => without_skill(group_entries(recs.take(i as int), g@), id@),
                    None => group_entries(recs.take(i as int), g@),
                },
            decreases self.skill_records.len() - i,
        {
            proof {
                lemma_group_entries_step(recs, g@, i as int);
            }
            let rg = chars_of(self.skill_records[i].group.as_str());
            if crate::text::chars_eq(&rg, g) {
                let keep = match exclude {
                    Some(id) => {
                        let sid = chars_of(self.skill_records[i].skill_id.as_str());
                        !crate::text::chars_eq(&sid, id)
                    },
                    None => true,
                };
                proof {
                    if let Some(id) = exclude {
                        lemma_without_skill_push(
                            group_entries(recs.take(i as int), g@),
                            id@,
                            entry_of(recs[i as int]),
                        );
                    }
                }
                if keep {
                    let e = entry_from_record(&self.skill_records[i]);
                    assert(entries_view(out@.push(e)) =~= entries_view(out@).push(e@));
                    out.push(e);
                }
            }
            i = i + 1;
        }
        assert(recs.take(i as int) =~= recs);
        out
    }

    /// The other skills of a skill's group, by name, at most `limit`; none
    /// when the skill is unknown.
    pub fn list_related_skills(&self, skill_id: &str, limit: usize) -> (v: Vec<GroupSkillIndexEntry>)
        ensures
            entries_view(v@) == spec_related(self.records(), skill_id@, limit),
    {
        match self.get_by_id(skill_id) {
            None => Vec::new(),
            Some(record) => {
                let g = chars_of(record.group.as_str());
                let id = chars_of(record.skill_id.as_str());
                let related = self.entries_of_group(&g, Some(&id));
                let mut sorted = sort_entries_by_name(related);
                sorted.truncate(limit);
                proof {
                    let full = sort_by_name(
                        without_skill(group_entries(self.records(), record@.group), record@.skill_id),
                    );
                    assert(entries_view(sorted@) =~= take_at_most(full, limit));
                }
                sorted
            },
        }
    }
}

/// The text a group filter looks in: the lowercased name and description.
pub open spec fn filter_text(e: EntryView) -> Seq<char> {
    str_lowercase(e.skill_name) + seq![' '] + str_lowercase(e.description)
}

/// An entry matches a normalised query when its text holds the query, or
/// one of the query's runs of ASCII letters, digits and CJK ideographs.
pub open spec fn entry_matches(e: EntryView, nq: Seq<char>) -> bool {
    let text = filter_text(e);
    let toks = runs(nq, Separator::NonTokenChar);
    occurs_in(nq, text) || exists|k: int| 0 <= k < toks.len() && occurs_in(#[trigger] toks[k], text)
}

pub open spec fn matching(es: Seq<EntryView>, nq: Seq<char>) -> Seq<EntryView>
    decreases es.len(),
{
    if es.len() == 0 {
        Seq::empty()
    } else {
        let prev = matching(es.drop_last(), nq);
        if entry_matches(es.last(), nq) {
            prev.push(es.last())
        } else {
            prev
        }
    }
}

/// `list_group_skills`: nothing for an unknown group; otherwise the group,
/// its description and its skills by name, narrowed to those matching the
/// query when a query that is not blank is given.
pub open spec fn spec_group_skills(
    groups: Seq<ManagedGroupView>,
    recs: Seq<RecordView>,
    group: Seq<char>,
    query: Option<Seq<char>>,
) -> Option<GroupSkillsView> {
    if !group_known(groups, recs, group) {
        None
    } else {
        let all = group_entries(recs, group);
        let picked = match query {
            Some(q) => if trim_ws(q).len() > 0 {
                matching(all, str_lowercase(trim_ws(q)))
            } else {
                all
            },
            None => all,
        };
        Some(
            GroupSkillsView {
                group: group,
                group_description: group_desc(groups, recs, group),
                skills: sort_by_name(picked),
            },
        )
    }
}

/// Whether an entry matches a normalised query and its runs.
fn entry_matches_exec(e: &GroupSkillIndexEntry, nq: &Vec<char>, toks: &Vec<Vec<char>>) -> (r: bool)
    requires
        toks@.len() == runs(nq@, Separator::NonTokenChar).len(),
        forall|k: int| 0 <= k < toks@.len() ==> #[trigger] toks@[k]@ == runs(nq@, Separator::NonTokenChar)[k],
    ensures
        r == entry_matches(e@, nq@),
{
    let mut text = chars_of(lowercase(e.skill_name.as_str()).as_str());
    text.push(' ');
    append_chars(&mut text, &chars_of(lowercase(e.description.as_str()).as_str()));
    assert(text@ =~= filter_text(e@));
    if crate::text::contains(&text, nq) {
        return true;
    }
    let ghost rs = runs(nq@, Separator::NonTokenChar);
    let mut k: usize = 0;
    while k < toks.len()
        invariant
            k <= toks@.len(),
            toks@.len() == rs.len(),
            rs == runs(nq@, Separator::NonTokenChar),
            text@ == filter_text(e@),
            forall|j: int| 0 <= j < toks@.len() ==> #[trigger] toks@[j]@ == rs[j],
            forall|j: int| 0 <= j < k ==> !occurs_in(#[trigger] rs[j], text@),
        decreases toks.len() - k,
    {
        if crate::text::contains(&text, &toks[k]) {
            assert(occurs_in(rs[k as int], text@));
            return true;
        }
        k = k + 1;
    }
    false
}

impl SkillRegistry {
    /// A group's skills by name, narrowed by a query that is not blank;
    /// `None` for a group that is not known.
    pub fn list_group_skills(&self, group: &str, query: Option<&str>) -> (r: Option<GroupSkillsResult>)
        ensures
            match r {
                Some(res) => spec_group_skills(self.groups(), self.records(), group@, opt_str_view(query))
                    == Some(res@),
                None => spec_group_skills(self.groups(), self.records(), group@, opt_str_view(query))
                    is None,
            },
    {
        let gc = chars_of(group);
        let items = self.list_groups();
        let ghost iv = items_view(items@);
        let mut i: usize = 0;
        while i < items.len()
            invariant
                i <= items@.len(),
                iv == items_view(items@),
                gc@ == group@,
                forall|k: int| 0 <= k < i ==> (#[trigger] iv[k]).group != group@,
            ensures
                i <= items@.len(),
                forall|k: int| 0 <= k < i ==> (#[trigger] iv[k]).group != group@,
                i < items@.len() ==> iv[i as int].group == group@,
            decreases items.len() - i,
        {
            let ig = chars_of(items[i].group.as_str());
            if crate::text::chars_eq(&ig, &gc) {
                break;
            }
            i = i + 1;
        }
        if i == items.len() {
            assert(!group_known(self.groups(), self.records(), group@));
            return None;
        }
        assert(iv[i as int].group == group@);
        let all = self.entries_of_group(&gc, None);
        let picked = match query {
            Some(q) => {
                let tq = trim_string(q);
                let tqc = chars_of(tq.as_str());
                if tqc.len() > 0 {
                    let nq = chars_of(lowercase(tq.as_str()).as_str());
                    let toks = split_runs(&nq, Separator::NonTokenChar);
                    let ghost es = entries_view(all@);
                    let mut out: Vec<GroupSkillIndexEntry> = Vec::new();
                    let mut j: usize = 0;
                    assert(es.take(0) =~= Seq::<EntryView>::empty());
                    while j < all.len()
                        invariant
                            j <= all@.len(),
                            es == entries_view(all@),
                            nq@ == str_lowercase(trim_ws(q@)),
                            toks@.len() == runs(nq@, Separator::NonTokenChar).len(),
                            forall|k: int| 0 <= k < toks@.len() ==> #[trigger] toks@[k]@ == runs(nq@, Separator::NonTokenChar)[k],
                            entries_view(out@) == matching(es.take(j as int), nq@),
                        decreases all.len() - j,
                    {
                        assert(es.take(j + 1).drop_last() =~= es.take(j as int));
                        if entry_matches_exec(&all[j], &nq, &toks) {
                            let e = copy_entry(&all[j]);
                            assert(entries_view(out@.push(e)) =~= entries_view(out@).push(e@));
                            out.push(e);
                        }
                        j = j + 1;
                    }
                    assert(es.take(j as int) =~= es);
                    out
                } else {
                    all
                }
            },
            None => all,
        };
        let skills = sort_entries_by_name(picked);
        let res = GroupSkillsResult {
            group: copy_string(&items[i].group),
            group_description: copy_string(&items[i].group_description),
            skills,
        };
        Some(res)
    }
}

// ---------------------------------------------------------------------------
// The group catalog
// ---------------------------------------------------------------------------

/// Where a catalog entry goes in a list sorted by group: after every entry
/// whose group does not sort after its own.
pub open spec fn group_insert_pos(sorted: Seq<ManagedGroupView>, x: ManagedGroupView) -> int
    decreases sorted.len(),
{
    if sorted.len() == 0 {
        0
    } else if chars_lt(x.group, sorted[0].group) {
        0
    } else {
        1 + group_insert_pos(sorted.drop_first(), x)
    }
}

/// The stable sort of catalog entries by group.
pub open spec fn sort_groups(s: Seq<ManagedGroupView>) -> Seq<ManagedGroupView>
    decreases s.len(),
{
    if s.len() == 0 {
        Seq::empty()
    } else {
        let sorted = sort_groups(s.drop_last());
        sorted.insert(group_insert_pos(sorted, s.last()), s.last())
    }
}

proof fn lemma_group_insert_pos_at(sorted: Seq<ManagedGroupView>, x: ManagedGroupView, j: int)
    requires
        0 <= j <= sorted.len(),
        forall|k: int| 0 <= k < j ==> !chars_lt(x.group, (#[trigger] sorted[k]).group),
        j == sorted.len() || chars_lt(x.group, sorted[j].group),
    ensures
        group_insert_pos(sorted, x) == j,
    decreases j,
{
    if j > 0 {
        assert(!chars_lt(x.group, sorted[0].group));
        assert forall|k: int| 0 <= k < j - 1 implies !chars_lt(
            x.group,
            (#[trigger] sorted.drop_first()[k]).group,
        ) by {
            assert(sorted.drop_first()[k] == sorted[k + 1]);
        }
        if j < sorted.len() {
            assert(sorted.drop_first()[j - 1] == sorted[j]);
        }
        lemma_group_insert_pos_at(sorted.drop_first(), x, j - 1);
    }
}

/// A copy of a catalog entry with the same view.
pub fn copy_group(g: &ManagedGroupRecord) -> (c: ManagedGroupRecord)
    ensures
        c@ == g@,
{
    ManagedGroupRecord {
        group: copy_string(&g.group),
        group_description: copy_string(&g.group_description),
        keywords: copy_strings(&g.keywords),
        aliases: copy_strings(&g.aliases),
        source: copy_string(&g.source),
    }
}

/// Sorts catalog entries by group, keeping entries of one group in order.
pub fn sort_groups_by_name(v: &Vec<ManagedGroupRecord>) -> (r: Vec<ManagedGroupRecord>)
    ensures
        groups_view(r@) == sort_groups(groups_view(v@)),
{
    let ghost s = groups_view(v@);
    let mut out: Vec<ManagedGroupRecord> = Vec::new();
    let mut i: usize = 0;
    while i < v.len()
        invariant
            i <= v.len(),
            s == groups_view(v@),
            groups_view(out@) == sort_groups(s.take(i as int)),
        decreases v.len() - i,
    {
        let x = copy_group(&v[i]);
        let xn = chars_of(x.group.as_str());
        let ghost sorted = groups_view(out@);
        let mut j: usize = 0;
        while j < out.len()
            invariant
                j <= out.len(),
                sorted == groups_view(out@),
                xn@ == x@.group,
                forall|k: int| 0 <= k < j ==> !chars_lt(x@.group, (#[trigger] sorted[k]).group),
            ensures
                j <= out.len(),
                forall|k: int| 0 <= k < j ==> !chars_lt(x@.group, (#[trigger] sorted[k]).group),
                j == out.len() || chars_lt(x@.group, sorted[j as int].group),
            decreases out.len() - j,
        {
            let on = chars_of(out[j].group.as_str());
            if chars_less(&xn, &on) {
                break;
            }
            j = j + 1;
        }
        proof {
            lemma_group_insert_pos_at(sorted, x@, j as int);
            assert(s.take(i + 1).drop_last() =~= s.take(i as int));
            assert(s.take(i + 1).last() == x@);
        }
        out.insert(j, x);
        assert(groups_view(out@) =~= sorted.insert(j as int, x@));
        i = i + 1;
    }
    assert(s.take(i as int) =~= s);
    out
}

impl SkillRegistry {
    /// The group catalog sorted by group.
    pub fn list_managed_groups(&self) -> (v: Vec<ManagedGroupRecord>)
        ensures
            groups_view(v@) == sort_groups(self.groups()),
    {
        sort_groups_by_name(&self.managed_groups)
    }
}

// ---------------------------------------------------------------------------
// Resolving a skill
// ---------------------------------------------------------------------------

/// A skill named by id, else by name.
pub open spec fn spec_resolve(recs: Seq<RecordView>, skill: Seq<char>) -> Option<RecordView> {
    match spec_get_by_id(recs, skill) {
        Some(r) => Some(r),
        None => spec_get_by_name(recs, skill),
    }
}

/// `"<prefix><value>"`.
pub fn prefixed(prefix: &str, value: &str) -> (r: String)
    ensures
        r@ == prefix@ + value@,
{
    let mut c = chars_of(prefix);
    append_chars(&mut c, &chars_of(value));
    string_of(&c)
}

impl SkillRegistry {
    /// The skill named by id or by name, or `unknown skill: <skill>`.
    pub fn resolve_single_skill(&self, skill: &str) -> (r: Result<SkillRecord, String>)
        ensures
            match r {
                Ok(rec) => spec_resolve(self.records(), skill@) == Some(rec@),
                Err(e) => spec_resolve(self.records(), skill@) is None && e@ == "unknown skill: "@
                    + skill@,
            },
    {
        match self.get_by_id(skill) {
            Some(r) => Ok(r),
            None => match self.get_by_name(skill) {
                Some(r) => Ok(r),
                None => Err(prefixed("unknown skill: ", skill)),
            },
        }
    }

    /// The records a validation covers: the one named, or all of them.
    pub fn validation_targets(&self, skill: Option<&str>) -> (r: Result<Vec<SkillRecord>, String>)
        ensures
            match skill {
                Some(s) => match r {
                    Ok(v) => v@.len() == 1 && spec_resolve(self.records(), s@) == Some(v@[0]@),
                    Err(e) => spec_resolve(self.records(), s@) is None && e@ == "unknown skill: "@
                        + s@,
                },
                None => r is Ok && records_view(r->Ok_0@) == self.records(),
            },
    {
        match skill {
            Some(s) => match self.resolve_single_skill(s) {
                Ok(rec) => {
                    let mut v: Vec<SkillRecord> = Vec::new();
                    v.push(rec);
                    Ok(v)
                },
                Err(e) => Err(e),
            },
            None => Ok(self.list_skill_records()),
        }
    }
}

// ---------------------------------------------------------------------------
// Laws of the index
// ---------------------------------------------------------------------------

/// A record in the index is what `get_by_id` finds under its composite
/// `group/skill_id` key: what is indexed can be read back.
pub proof fn lemma_indexed_record_found(recs: Seq<RecordView>, x: RecordView)
    requires
        keys_sorted(recs),
        recs.contains(x),
    ensures
        spec_get_by_id(recs, key_of(x)) == Some(x),
{
    let pred = |r: RecordView| key_of(r) == key_of(x);
    let i = choose|i: int| 0 <= i < recs.len() && recs[i] == x;
    lemma_first_where_found(recs, pred);
    assert(pred(recs[i]));
    let j = first_where(recs, pred)->0;
    if j != i {
        lemma_chars_lt_irreflexive(key_of(x));
        if j < i {
            assert(chars_lt(key_of(recs[j]), key_of(recs[i])));
        } else {
            assert(chars_lt(key_of(recs[i]), key_of(recs[j])));
        }
    }
}

/// Entries sorted by name: no entry's name sorts before the one ahead of it.
pub open spec fn name_ordered(s: Seq<EntryView>) -> bool {
    forall|i: int, j: int|
        0 <= i && j == i + 1 && j < s.len() ==> !chars_lt(
            (#[trigger] s[j]).skill_name,
            (#[trigger] s[i]).skill_name,
        )
}

proof fn lemma_name_insert_pos_props(sorted: Seq<EntryView>, x: EntryView)
    ensures
        0 <= name_insert_pos(sorted, x) <= sorted.len(),
        forall|k: int|
            0 <= k < name_insert_pos(sorted, x) ==> !chars_lt(x.skill_name, (#[trigger] sorted[k]).skill_name),
        name_insert_pos(sorted, x) == sorted.len() || chars_lt(
            x.skill_name,
            sorted[name_insert_pos(sorted, x)].skill_name,
        ),
    decreases sorted.len(),
{
    if sorted.len() > 0 && !chars_lt(x.skill_name, sorted[0].skill_name) {
        let rest = sorted.drop_first();
        lemma_name_insert_pos_props(rest, x);
        assert forall|k: int| 0 <= k < name_insert_pos(sorted, x) implies !chars_lt(
            x.skill_name,
            (#[trigger] sorted[k]).skill_name,
        ) by {
            if k > 0 {
                assert(sorted[k] == rest[k - 1]);
            }
        }
        if name_insert_pos(rest, x) < rest.len() {
            assert(sorted[name_insert_pos(sorted, x)] == rest[name_insert_pos(rest, x)]);
        }
    }
}

/// Sorting by name yields a name-ordered list that holds the same entries.
pub proof fn lemma_sort_by_name_ordered(s: Seq<EntryView>)
    ensures
        name_ordered(sort_by_name(s)),
        sort_by_name(s).to_multiset() == s.to_multiset(),
    decreases s.len(),
{
    broadcast use vstd::seq_lib::to_multiset_insert, vstd::seq_lib::to_multiset_build;

    if s.len() > 0 {
        let sorted = sort_by_name(s.drop_last());
        lemma_sort_by_name_ordered(s.drop_last());
        let x = s.last();
        let p = name_insert_pos(sorted, x);
        lemma_name_insert_pos_props(sorted, x);
        let r = sorted.insert(p, x);
        assert forall|i: int, j: int| 0 <= i && j == i + 1 && j < r.len() implies !chars_lt(
            (#[trigger] r[j]).skill_name,
            (#[trigger] r[i]).skill_name,
        ) by {
            if j < p {
                assert(r[i] == sorted[i] && r[j] == sorted[j]);
            } else if j == p {
                assert(r[i] == sorted[i] && r[j] == x);
            } else if i == p {
                assert(r[i] == x && r[j] == sorted[p]);
                crate::search::lemma_chars_lt_asymmetric(x.skill_name, sorted[p].skill_name);
            } else {
                assert(r[i] == sorted[i - 1] && r[j] == sorted[j - 1]);
            }
        }
        assert(s.drop_last().push(x) =~= s);
    } else {
        assert(sort_by_name(s) =~= s);
    }
}

proof fn lemma_without_skill_excludes(es: Seq<EntryView>, id: Seq<char>)
    ensures
        forall|k: int| 0 <= k < without_skill(es, id).len() ==> (#[trigger] without_skill(es, id)[k]).skill_id != id,
    decreases es.len(),
{
    if es.len() > 0 {
        lemma_without_skill_excludes(es.drop_last(), id);
        let prev = without_skill(es.drop_last(), id);
        if es.last().skill_id != id {
            assert forall|k: int| 0 <= k < prev.push(es.last()).len() implies (#[trigger] prev.push(
                es.last(),
            )[k]).skill_id != id by {
                if k < prev.len() {
                    assert(prev.push(es.last())[k] == prev[k]);
                }
            }
        }
    }
}

/// The related skills of a skill never include the skill itself, come in
/// name order, and are at most `limit`.
pub proof fn lemma_related_skills(recs: Seq<RecordView>, skill_id: Seq<char>, limit: usize)
    ensures
        spec_related(recs, skill_id, limit).len() <= limit,
        name_ordered(spec_related(recs, skill_id, limit)),
        match spec_get_by_id(recs, skill_id) {
            Some(rec) => forall|k: int|
                0 <= k < spec_related(recs, skill_id, limit).len() ==> (#[trigger] spec_related(
                    recs,
                    skill_id,
                    limit,
                )[k]).skill_id != rec.skill_id,
            None => spec_related(recs, skill_id, limit).len() == 0,
        },
{
    match spec_get_by_id(recs, skill_id) {
        Some(rec) => {
            let w = without_skill(group_entries(recs, rec.group), rec.skill_id);
            let sorted = sort_by_name(w);
            lemma_sort_by_name_ordered(w);
            lemma_without_skill_excludes(group_entries(recs, rec.group), rec.skill_id);
            let out = spec_related(recs, skill_id, limit);
            assert forall|k: int| 0 <= k < out.len() implies (#[trigger] out[k]).skill_id != rec.skill_id by {
                assert(out[k] == sorted[k]);
                vstd::seq_lib::to_multiset_contains(sorted, sorted[k]);
                vstd::seq_lib::to_multiset_contains(w, sorted[k]);
                assert(w.contains(sorted[k]));
            }
            assert forall|i: int, j: int| 0 <= i && j == i + 1 && j < out.len() implies !chars_lt(
                (#[trigger] out[j]).skill_name,
                (#[trigger] out[i]).skill_name,
            ) by {
                assert(out[i] == sorted[i] && out[j] == sorted[j]);
            }
        },
        None => {},
    }
}

/// The skills `list_group_skills` lists for a group come in name order.
pub proof fn lemma_group_skills_ordered(
    groups: Seq<ManagedGroupView>,
    recs: Seq<RecordView>,
    group: Seq<char>,
    query: Option<Seq<char>>,
)
    ensures
        match spec_group_skills(groups, recs, group, query) {
            Some(res) => name_ordered(res.skills) && res.group == group,
            None => !group_known(groups, recs, group),
        },
{
    match spec_group_skills(groups, recs, group, query) {
        Some(res) => {
            let all = group_entries(recs, group);
            let picked = match query {
                Some(q) => if trim_ws(q).len() > 0 {
                    matching(all, str_lowercase(trim_ws(q)))
                } else {
                    all
                },
                None => all,
            };
            lemma_sort_by_name_ordered(picked);
        },
        None => {},
    }
}

proof fn lemma_group_entries_has(recs: Seq<RecordView>, g: Seq<char>, m: int)
    requires
        0 <= m < recs.len(),
        recs[m].group == g,
    ensures
        group_entries(recs, g).contains(entry_of(recs[m])),
    decreases recs.len(),
{
    let prev = group_entries(recs.drop_last(), g);
    if m == recs.len() - 1 {
        assert(group_entries(recs, g) == prev.push(entry_of(recs[m])));
        assert(group_entries(recs, g)[prev.len() as int] == entry_of(recs[m]));
    } else {
        assert(recs.drop_last()[m] == recs[m]);
        lemma_group_entries_has(recs.drop_last(), g, m);
        let k = choose|k: int| 0 <= k < prev.len() && prev[k] == entry_of(recs[m]);
        if recs.last().group == g {
            assert(prev.push(entry_of(recs.last()))[k] == prev[k]);
        }
    }
}

proof fn lemma_matching_keeps(es: Seq<EntryView>, nq: Seq<char>, e: EntryView)
    requires
        es.contains(e),
        entry_matches(e, nq),
    ensures
        matching(es, nq).contains(e),
    decreases es.len(),
{
    let prev = matching(es.drop_last(), nq);
    if es.last() == e {
        assert(matching(es, nq) == prev.push(e));
        assert(matching(es, nq)[prev.len() as int] == e);
    } else {
        let k = choose|k: int| 0 <= k < es.len() && es[k] == e;
        assert(k < es.len() - 1);
        assert(es.drop_last()[k] == e);
        lemma_matching_keeps(es.drop_last(), nq, e);
        let j = choose|j: int| 0 <= j < prev.len() && prev[j] == e;
        if entry_matches(es.last(), nq) {
            assert(prev.push(es.last())[j] == e);
        }
    }
}

proof fn lemma_occurs_in_concat(nq: Seq<char>, a: Seq<char>, b: Seq<char>)
    ensures
        occurs_in(nq, a) ==> occurs_in(nq, a + b),
        occurs_in(nq, b) ==> occurs_in(nq, a + b),
{
    if occurs_in(nq, a) {
        let i = choose|i: int| 0 <= i <= a.len() - nq.len() && #[trigger] a.subrange(i, i + nq.len()) == nq;
        assert((a + b).subrange(i, i + nq.len()) =~= a.subrange(i, i + nq.len()));
    }
    if occurs_in(nq, b) {
        let i = choose|i: int| 0 <= i <= b.len() - nq.len() && #[trigger] b.subrange(i, i + nq.len()) == nq;
        let j = a.len() + i;
        assert((a + b).subrange(j, j + nq.len()) =~= b.subrange(i, i + nq.len()));
    }
}

/// A skill filed under a group whose lowercased name, or lowercased
/// description, holds the trimmed and lowercased query (one that is not
/// blank) is among the skills `list_group_skills` lists for that group and
/// query.
pub proof fn lemma_query_hit_listed(
    groups: Seq<ManagedGroupView>,
    recs: Seq<RecordView>,
    group: Seq<char>,
    q: Seq<char>,
    m: int,
)
    requires
        0 <= m < recs.len(),
        recs[m].group == group,
        trim_ws(q).len() > 0,
        occurs_in(str_lowercase(trim_ws(q)), str_lowercase(recs[m].skill_name)) || occurs_in(
            str_lowercase(trim_ws(q)),
            str_lowercase(recs[m].description),
        ),
    ensures
        match spec_group_skills(groups, recs, group, Some(q)) {
            Some(res) => res.skills.contains(entry_of(recs[m])),
            None => false,
        },
{
    let pred = |r: RecordView| r.group == group;
    lemma_first_where_found(recs, pred);
    assert(pred(recs[m]));
    assert(group_known(groups, recs, group));
    let nq = str_lowercase(trim_ws(q));
    let e = entry_of(recs[m]);
    let name = str_lowercase(e.skill_name);
    lemma_occurs_in_concat(nq, name, seq![' ']);
    lemma_occurs_in_concat(nq, name + seq![' '], str_lowercase(e.description));
    assert(filter_text(e) == name + seq![' '] + str_lowercase(e.description));
    assert(occurs_in(nq, filter_text(e)));
    assert(entry_matches(e, nq));
    let all = group_entries(recs, group);
    lemma_group_entries_has(recs, group, m);
    lemma_matching_keeps(all, nq, e);
    let picked = matching(all, nq);
    lemma_sort_by_name_ordered(picked);
    vstd::seq_lib::to_multiset_contains(picked, e);
    vstd::seq_lib::to_multiset_contains(sort_by_name(picked), e);
}

proof fn lemma_id_scan_keeps(t: Seq<char>)
    requires
        forall|i: int| 0 <= i < t.len() ==> id_char(#[trigger] t[i]),
    ensures
        id_scan(t).0 == t,
        !id_scan(t).1,
    decreases t.len(),
{
    if t.len() > 0 {
        let d = t.drop_last();
        assert forall|i: int| 0 <= i < d.len() implies id_char(#[trigger] d[i]) by {
            assert(d[i] == t[i]);
        }
        lemma_id_scan_keeps(d);
        assert(id_char(t[t.len() - 1]));
        assert(d.push(t.last()) =~= t);
    }
}

/// A text that already is an id stays as it is: lowercase ASCII letters,
/// digits, `-` and `_` all survive, in order, when no `-` starts or ends
/// the text.
pub proof fn lemma_sanitize_keeps_id(value: Seq<char>)
    requires
        chars_lowercased(value) == value,
        forall|i: int| 0 <= i < value.len() ==> id_char(#[trigger] value[i]),
        value.len() > 0 ==> value[0] != '-' && value.last() != '-',
    ensures
        spec_sanitize_id(value) == value,
{
    lemma_id_scan_keeps(value);
    if value.len() > 0 {
        assert(strip_dashes_start(value) == value);
        assert(strip_dashes_end(value) == value);
    }
}

/// Every character of a package id is an ASCII letter or digit, `-` or
/// `_`, and the id neither starts nor ends with `-`.
pub proof fn lemma_sanitized_id_shape(value: Seq<char>)
    ensures
        forall|i: int| 0 <= i < spec_sanitize_id(value).len() ==> id_char(#[trigger] spec_sanitize_id(value)[i]),
        spec_sanitize_id(value).len() > 0 ==> spec_sanitize_id(value)[0] != '-'
            && spec_sanitize_id(value).last() != '-',
{
    let scanned = id_scan(chars_lowercased(value)).0;
    lemma_id_scan_chars(chars_lowercased(value));
    let a = strip_dashes_start(scanned);
    lemma_strip_start_suffix(scanned);
    let b = strip_dashes_end(a);
    lemma_strip_end_prefix(a);
    assert forall|i: int| 0 <= i < b.len() implies id_char(#[trigger] b[i]) by {
        let k = choose|k: int| 0 <= k <= scanned.len() && a == scanned.skip(k);
        assert(b[i] == a[i]);
        assert(a[i] == scanned[k + i]);
    }
}

proof fn lemma_id_scan_chars(s: Seq<char>)
    ensures
        forall|i: int| 0 <= i < id_scan(s).0.len() ==> id_char(#[trigger] id_scan(s).0[i]),
    decreases s.len(),
{
    if s.len() > 0 {
        lemma_id_scan_chars(s.drop_last());
        let (out, dash) = id_scan(s.drop_last());
        assert forall|i: int| 0 <= i < id_scan(s).0.len() implies id_char(#[trigger] id_scan(s).0[i]) by {
            if i < out.len() {
                if id_char(s.last()) {
                    assert(out.push(s.last())[i] == out[i]);
                } else if !dash {
                    assert(out.push('-')[i] == out[i]);
                }
            }
        }
    }
}

proof fn lemma_strip_start_suffix(s: Seq<char>)
    ensures
        exists|k: int| 0 <= k <= s.len() && strip_dashes_start(s) == s.skip(k),
        strip_dashes_start(s).len() > 0 ==> strip_dashes_start(s)[0] != '-',
    decreases s.len(),
{
    if s.len() > 0 && s[0] == '-' {
        lemma_strip_start_suffix(s.drop_first());
        let k = choose|k: int| 0 <= k <= s.drop_first().len() && strip_dashes_start(s.drop_first()) == s.drop_first().skip(k);
        assert(s.drop_first().skip(k) =~= s.skip(k + 1));
    } else {
        assert(s.skip(0) =~= s);
    }
}

proof fn lemma_strip_end_prefix(s: Seq<char>)
    ensures
        exists|k: int| 0 <= k <= s.len() && strip_dashes_end(s) == s.take(k),
        strip_dashes_end(s).len() > 0 ==> strip_dashes_end(s).last() != '-',
        s.len() > 0 && s[0] != '-' && strip_dashes_end(s).len() > 0 ==> strip_dashes_end(s)[0] == s[0],
    decreases s.len(),
{
    if s.len() > 0 && s.last() == '-' {
        lemma_strip_end_prefix(s.drop_last());
        let k = choose|k: int| 0 <= k <= s.drop_last().len() && strip_dashes_end(s.drop_last()) == s.drop_last().take(k);
        assert(s.drop_last().take(k) =~= s.take(k));
    } else {
        assert(s.take(s.len() as int) =~= s);
    }
}

// ---------------------------------------------------------------------------
// Browsing the shelf
// ---------------------------------------------------------------------------

/// A group as the shelf catalog shows it: name, description and how many
/// skills it holds.
#[derive(Debug, Clone, PartialEq, Eq)]
pub struct GroupSummary {
    pub group: String,
    pub description: String,
    pub skill_count: usize,
}

/// A skill as a group listing shows it.
#[derive(Debug, Clone, PartialEq, Eq)]
pub struct SkillSummary {
    pub skill_id: String,
    pub skill_name: String,
    pub description: String,
}

impl SkillRegistry {
    /// Every known group in name order, with its description and the number
    /// of skills filed under it.
    pub fn browse_groups(&self) -> (v: Vec<GroupSummary>)
        ensures
            ({
                let items = Seq::new(
                    v@.len(),
                    |i: int| ItemView { group: v@[i].group@, group_description: v@[i].description@ },
                );
                is_group_list(items, self.groups(), self.records())
            }),
            forall|i: int|
                0 <= i < v@.len() ==> (#[trigger] v@[i]).skill_count == group_entries(
                    self.records(),
                    v@[i].group@,
                ).len(),
    {
        let items = self.list_groups();
        let ghost iv = items_view(items@);
        let mut out: Vec<GroupSummary> = Vec::new();
        let mut i: usize = 0;
        while i < items.len()
            invariant
                i <= items@.len(),
                iv == items_view(items@),
                out@.len() == i,
                forall|k: int|
                    0 <= k < i ==> (#[trigger] out@[k]).group@ == iv[k].group && out@[k].description@
                        == iv[k].group_description && out@[k].skill_count == group_entries(
                        self.records(),
                        iv[k].group,
                    ).len(),
            decreases items.len() - i,
        {
            let g = chars_of(items[i].group.as_str());
            let n = self.count_group_records(&g);
            out.push(
                GroupSummary {
                    group: copy_string(&items[i].group),
                    description: copy_string(&items[i].group_description),
                    skill_count: n,
                },
            );
            i = i + 1;
        }
        proof {
            let sv = Seq::new(
                out@.len(),
                |i: int| ItemView { group: out@[i].group@, group_description: out@[i].description@ },
            );
            assert(sv =~= iv);
        }
        out
    }

    /// A group's skills as `browse_shelf` lists them: the group listing
    /// narrowed by the query, at most `limit` skills;
    /// `unknown group: <group>` for a group that is not known.
    pub fn browse_group(&self, group: &str, query: Option<&str>, limit: usize) -> (r: Result<
        (GroupSkillsResult, Vec<SkillSummary>),
        String,
    >)
        ensures
            match spec_group_skills(self.groups(), self.records(), group@, opt_str_view(query)) {
                None => r is Err && r->Err_0@ == "unknown group: "@ + group@,
                Some(res) => r is Ok && r->Ok_0.0@ == res && r->Ok_0.1@.len() == take_at_most(
                    res.skills,
                    limit,
                ).len() && forall|i: int|
                    0 <= i < r->Ok_0.1@.len() ==> (#[trigger] r->Ok_0.1@[i]).skill_id@
                        == res.skills[i].skill_id && r->Ok_0.1@[i].skill_name@
                        == res.skills[i].skill_name && r->Ok_0.1@[i].description@
                        == res.skills[i].description,
            },
    {
        match self.list_group_skills(group, query) {
            None => Err(prefixed("unknown group: ", group)),
            Some(res) => {
                let ghost sv = entries_view(res.skills@);
                let mut out: Vec<SkillSummary> = Vec::new();
                let mut i: usize = 0;
                while i < res.skills.len() && i < limit
                    invariant
                        i <= res.skills@.len(),
                        i <= limit,
                        sv == entries_view(res.skills@),
                        out@.len() == i,
                        forall|k: int|
                            0 <= k < i ==> (#[trigger] out@[k]).skill_id@ == sv[k].skill_id
                                && out@[k].skill_name@ == sv[k].skill_name && out@[k].description@
                                == sv[k].description,
                    decreases res.skills.len() - i,
                {
                    out.push(
                        SkillSummary {
                            skill_id: copy_string(&res.skills[i].skill_id),
                            skill_name: copy_string(&res.skills[i].skill_name),
                            description: copy_string(&res.skills[i].description),
                        },
                    );
                    i = i + 1;
                }
                Ok((res, out))
            },
        }
    }
}

} // verus!
