//! Installing skills: which files are candidates, which candidate of an id
//! is kept, which group a candidate goes to, and what the answer says.
//!
//! Walking the source tree, reading files and copying packages happen
//! around these decisions.

use crate::config::InstallPolicy;
use crate::model::{
    groups_view, opt_string_view, ManagedGroupRecord, ManagedGroupView, SkillInstallFailure,
    SkillNeedsClassification,
};
use crate::catalog::first_group;
use crate::parser::{
    frontmatter_field, opt_str_view, parse_frontmatter_fields, spec_frontmatter_entries, spec_frontmatter_field,
};
use crate::registry::{lemma_chars_lt_total, lemma_chars_lt_irreflexive, lemma_chars_lt_transitive};
use crate::search::{chars_less, chars_lt};
use crate::text::{
    append_chars, ascii_lower, chars_eq, chars_of, lowercase, str_lowercase, string_of,
    to_ascii_lowercase, trim_string, trim_ws,
};
use vstd::prelude::*;

verus! {

pub const SKILL_FILENAME: &'static str = "SKILL.md";

// ---------------------------------------------------------------------------
// Raw markdown candidates
// ---------------------------------------------------------------------------

/// The index of the last `.` of a file name.
pub open spec fn last_dot(name: Seq<char>) -> Option<int>
    decreases name.len(),
{
    if name.len() == 0 {
        None
    } else if name.last() == '.' {
        Some(name.len() - 1)
    } else {
        last_dot(name.drop_last())
    }
}

/// `Path::file_stem` and `Path::extension` of a file name: split at the last
/// `.`, unless that dot starts the name or the name is `..`.
pub open spec fn split_extension(name: Seq<char>) -> (Seq<char>, Option<Seq<char>>) {
    if name == ".."@ {
        (name, None)
    } else {
        match last_dot(name) {
            Some(i) => if i == 0 {
                (name, None)
            } else {
                (name.take(i), Some(name.skip(i + 1)))
            },
            None => (name, None),
        }
    }
}

/// File stems that are never installed as skills.
pub open spec fn excluded_basename(stem: Seq<char>) -> bool {
    ||| stem == "readme"@
    ||| stem == "contributing"@
    ||| stem == "license"@
    ||| stem == "upstream"@
    ||| stem == "catalog"@
    ||| stem == "agent-list"@
    ||| stem == "quickstart"@
    ||| stem == "executive-brief"@
}

pub open spec fn is_md_extension(ext: Seq<char>) -> bool {
    ext.len() == 2 && ascii_lower(ext[0]) == 'm' && ascii_lower(ext[1]) == 'd'
}

/// A raw markdown candidate: a `.md` file (in any ASCII case) whose
/// lowercased stem is not one of the excluded names.
pub open spec fn spec_markdown_candidate(name: Seq<char>) -> bool {
    let (stem, ext) = split_extension(name);
    match ext {
        Some(e) => is_md_extension(e) && !excluded_basename(str_lowercase(stem)),
        None => false,
    }
}

fn last_dot_exec(name: &Vec<char>) -> (r: Option<usize>)
    ensures
        match r {
            Some(i) => last_dot(name@) == Some(i as int) && i < name@.len(),
            None => last_dot(name@) is None,
        },
{
    let mut i: usize = name.len();
    assert(name@.take(i as int) =~= name@);
    while i > 0
        invariant
            i <= name@.len(),
            last_dot(name@) == last_dot(name@.take(i as int)),
        decreases i,
    {
        let ghost t = name@.take(i as int);
        assert(t.drop_last() =~= name@.take(i - 1));
        if name[i - 1] == '.' {
            return Some(i - 1);
        }
        i = i - 1;
    }
    None
}

fn subrange(s: &Vec<char>, from: usize, to: usize) -> (r: Vec<char>)
    requires
        from <= to <= s@.len(),
    ensures
        r@ == s@.subrange(from as int, to as int),
{
    let mut out: Vec<char> = Vec::new();
    let mut i: usize = from;
    while i < to
        invariant
            from <= i <= to <= s@.len(),
            out@ == s@.subrange(from as int, i as int),
        decreases to - i,
    {
        out.push(s[i]);
        i = i + 1;
        assert(out@ =~= s@.subrange(from as int, i as int));
    }
    out
}

fn is_excluded_basename(stem: &Vec<char>) -> (r: bool)
    ensures
        r == excluded_basename(stem@),
{
    chars_eq(stem, &chars_of("readme")) || chars_eq(stem, &chars_of("contributing")) || chars_eq(
        stem,
        &chars_of("license"),
    ) || chars_eq(stem, &chars_of("upstream")) || chars_eq(stem, &chars_of("catalog"))
        || chars_eq(stem, &chars_of("agent-list")) || chars_eq(stem, &chars_of("quickstart"))
        || chars_eq(stem, &chars_of("executive-brief"))
}

/// Whether a file, by its name, is a raw markdown candidate.
pub fn is_markdown_candidate(file_name: &str) -> (r: bool)
    ensures
        r == spec_markdown_candidate(file_name@),
{
    let name = chars_of(file_name);
    proof {
        reveal_strlit("..");
    }
    let dotdot = chars_of("..");
    if chars_eq(&name, &dotdot) {
        return false;
    }
    match last_dot_exec(&name) {
        None => false,
        Some(i) => {
            if i == 0 {
                return false;
            }
            let len = name.len();
            assert(i < len);
            let ext = subrange(&name, i + 1, len);
            assert(ext@ =~= name@.skip(i + 1));
            let stem = subrange(&name, 0, i);
            assert(stem@ =~= name@.take(i as int));
            if ext.len() != 2 {
                return false;
            }
            if !(to_ascii_lowercase(ext[0]) == 'm' && to_ascii_lowercase(ext[1]) == 'd') {
                return false;
            }
            let lowered = chars_of(lowercase(string_of(&stem).as_str()).as_str());
            !is_excluded_basename(&lowered)
        },
    }
}

pub open spec fn spec_name_and_description(name: Option<Seq<char>>, description: Option<Seq<char>>) -> bool {
    &&& match name {
        Some(n) => trim_ws(n).len() > 0,
        None => false,
    }
    &&& match description {
        Some(d) => trim_ws(d).len() > 0,
        None => false,
    }
}

/// Whether the text of a `SKILL.md` declares a name and a description that
/// are not blank; a frontmatter that does not decode declares neither.
pub open spec fn spec_declares_name_and_description(raw: Seq<char>) -> bool {
    match spec_frontmatter_entries(raw) {
        Ok(entries) => spec_name_and_description(
            spec_frontmatter_field(entries, "name"@),
            spec_frontmatter_field(entries, "description"@),
        ),
        Err(_) => false,
    }
}

fn opt_as_str(o: &Option<String>) -> (r: Option<&str>)
    ensures
        opt_str_view(r) == opt_string_view(*o),
{
    match o {
        Some(s) => Some(s.as_str()),
        None => None,
    }
}

pub fn declares_name_and_description(raw: &str) -> (r: bool)
    ensures
        r == spec_declares_name_and_description(raw@),
{
    match parse_frontmatter_fields(raw) {
        Ok(entries) => {
            let n = frontmatter_field(&entries, "name");
            let d = frontmatter_field(&entries, "description");
            has_name_and_description(opt_as_str(&n), opt_as_str(&d))
        },
        Err(_) => false,
    }
}

/// A raw markdown file may become a package when its frontmatter decodes
/// and declares a name and a description; else the decode error, or
/// `raw markdown candidate is missing required frontmatter name/description`.
pub fn markdown_package_check(raw: &str) -> (r: Result<(), String>)
    ensures
        match spec_frontmatter_entries(raw@) {
            Err(e) => r is Err && r->Err_0@ == e,
            Ok(_) => if spec_declares_name_and_description(raw@) {
                r is Ok
            } else {
                r is Err && r->Err_0@
                    == "raw markdown candidate is missing required frontmatter name/description"@
            },
        },
{
    let entries = parse_frontmatter_fields(raw)?;
    let n = frontmatter_field(&entries, "name");
    let d = frontmatter_field(&entries, "description");
    if has_name_and_description(opt_as_str(&n), opt_as_str(&d)) {
        Ok(())
    } else {
        Err(String::from_str("raw markdown candidate is missing required frontmatter name/description"))
    }
}

/// Whether a frontmatter has both a name and a description that are not
/// blank.
pub fn has_name_and_description(name: Option<&str>, description: Option<&str>) -> (r: bool)
    ensures
        r == (match name {
            Some(n) => trim_ws(n@).len() > 0,
            None => false,
        } && match description {
            Some(d) => trim_ws(d@).len() > 0,
            None => false,
        }),
{
    let n_ok = match name {
        Some(n) => chars_of(trim_string(n).as_str()).len() > 0,
        None => false,
    };
    let d_ok = match description {
        Some(d) => chars_of(trim_string(d).as_str()).len() > 0,
        None => false,
    };
    n_ok && d_ok
}

/// Whether a file found under the source is a raw markdown candidate the
/// policy accepts, before any frontmatter check.
pub fn accepts_raw_file(policy: &InstallPolicy, file_name: &str) -> (r: bool)
    ensures
        r == (file_name@ != SKILL_FILENAME@ && policy.accept_raw_markdown
            && spec_markdown_candidate(file_name@)),
{
    proof {
        reveal_strlit("SKILL.md");
    }
    let name = chars_of(file_name);
    if chars_eq(&name, &chars_of(SKILL_FILENAME)) {
        return false;
    }
    policy.accept_raw_markdown && is_markdown_candidate(file_name)
}

// ---------------------------------------------------------------------------
// Choosing one candidate per id
// ---------------------------------------------------------------------------

#[derive(Debug, Clone, Copy, PartialEq, Eq, Structural)]
pub enum InstallableKind {
    Package,
    Markdown,
}

/// A candidate: a package directory or a raw markdown file, and the id it
/// installs under.
#[derive(Debug, Clone, PartialEq, Eq)]
pub struct InstallableSource {
    pub kind: InstallableKind,
    pub source_path: String,
    pub skill_id: String,
}

pub struct SourceView {
    pub kind: InstallableKind,
    pub source_path: Seq<char>,
    pub skill_id: Seq<char>,
}

impl View for InstallableSource {
    type V = SourceView;

    open spec fn view(&self) -> SourceView {
        SourceView { kind: self.kind, source_path: self.source_path@, skill_id: self.skill_id@ }
    }
}

pub open spec fn sources_view(v: Seq<InstallableSource>) -> Seq<SourceView> {
    v.map_values(|s: InstallableSource| s@)
}

/// The candidate kept for an id: the first of that id, unless a package of
/// that id comes after a raw markdown file, in which case the first such
/// package.
pub open spec fn chosen(items: Seq<SourceView>, id: Seq<char>) -> Option<int>
    decreases items.len(),
{
    if items.len() == 0 {
        None
    } else {
        let prev = chosen(items.drop_last(), id);
        if items.last().skill_id != id {
            prev
        } else {
            match prev {
                None => Some(items.len() - 1),
                Some(j) => if items[j].kind == InstallableKind::Markdown && items.last().kind
                    == InstallableKind::Package {
                    Some(items.len() - 1)
                } else {
                    Some(j)
                },
            }
        }
    }
}

proof fn lemma_chosen_bounds(items: Seq<SourceView>, id: Seq<char>)
    ensures
        match chosen(items, id) {
            Some(j) => 0 <= j < items.len() && items[j].skill_id == id,
            None => forall|k: int| 0 <= k < items.len() ==> (#[trigger] items[k]).skill_id != id,
        },
    decreases items.len(),
{
    if items.len() > 0 {
        let d = items.drop_last();
        lemma_chosen_bounds(d, id);
        match chosen(d, id) {
            Some(j) => {
                assert(items[j] == d[j]);
            },
            None => {
                assert forall|k: int| 0 <= k < items.len() - 1 implies (#[trigger] items[k]).skill_id != id by {
                    assert(items[k] == d[k]);
                }
            },
        }
    }
}

/// One candidate per id, in id order: what `dedupe_installables` keeps.
pub open spec fn is_deduped(out: Seq<SourceView>, items: Seq<SourceView>) -> bool {
    &&& forall|i: int, j: int|
        0 <= i < j < out.len() ==> chars_lt((#[trigger] out[i]).skill_id, (#[trigger] out[j]).skill_id)
    &&& forall|i: int|
        0 <= i < out.len() ==> (#[trigger] chosen(items, out[i].skill_id)) is Some
            && out[i] == items[chosen(items, out[i].skill_id)->0]
    &&& forall|k: int| 0 <= k < items.len() ==> exists|i: int|
        0 <= i < out.len() && (#[trigger] out[i]).skill_id == (#[trigger] items[k]).skill_id
}

fn copy_source(s: &InstallableSource) -> (c: InstallableSource)
    ensures
        c@ == s@,
{
    InstallableSource {
        kind: s.kind,
        source_path: string_of(&chars_of(s.source_path.as_str())),
        skill_id: string_of(&chars_of(s.skill_id.as_str())),
    }
}

proof fn lemma_sources_insert(o: Seq<SourceView>, p: int, x: SourceView)
    requires
        forall|i: int, j: int|
            0 <= i < j < o.len() ==> chars_lt((#[trigger] o[i]).skill_id, (#[trigger] o[j]).skill_id),
        0 <= p <= o.len(),
        forall|k: int| 0 <= k < p ==> chars_lt((#[trigger] o[k]).skill_id, x.skill_id),
        p < o.len() ==> !chars_lt(o[p].skill_id, x.skill_id) && o[p].skill_id != x.skill_id,
    ensures
        forall|i: int, j: int|
            0 <= i < j < o.insert(p, x).len() ==> chars_lt(
                (#[trigger] o.insert(p, x)[i]).skill_id,
                (#[trigger] o.insert(p, x)[j]).skill_id,
            ),
        forall|k: int| 0 <= k < o.len() ==> (#[trigger] o[k]).skill_id != x.skill_id,
{
    let n = o.insert(p, x);
    if p < o.len() {
        lemma_chars_lt_total(o[p].skill_id, x.skill_id);
    }
    lemma_chars_lt_irreflexive(x.skill_id);
    assert forall|i: int, j: int| 0 <= i < j < n.len() implies chars_lt(
        (#[trigger] n[i]).skill_id,
        (#[trigger] n[j]).skill_id,
    ) by {
        if j < p {
            assert(n[i] == o[i] && n[j] == o[j]);
        } else if j == p {
            assert(n[i] == o[i]);
        } else if i == p {
            assert(n[j] == o[j - 1]);
            if j - 1 > p {
                lemma_chars_lt_transitive(x.skill_id, o[p].skill_id, o[j - 1].skill_id);
            }
        } else if i < p {
            assert(n[i] == o[i] && n[j] == o[j - 1]);
            lemma_chars_lt_transitive(o[i].skill_id, x.skill_id, o[p].skill_id);
            if j - 1 > p {
                lemma_chars_lt_transitive(o[i].skill_id, o[p].skill_id, o[j - 1].skill_id);
            }
        } else {
            assert(n[i] == o[i - 1] && n[j] == o[j - 1]);
        }
    }
    assert forall|k: int| 0 <= k < o.len() implies (#[trigger] o[k]).skill_id != x.skill_id by {
        if k > p {
            lemma_chars_lt_transitive(x.skill_id, o[p].skill_id, o[k].skill_id);
        }
    }
}

/// Keeps one candidate per id, in id order; a package replaces a raw
/// markdown file of the same id.
pub fn dedupe_installables(installables: Vec<InstallableSource>) -> (r: Vec<InstallableSource>)
    ensures
        is_deduped(sources_view(r@), sources_view(installables@)),
{
    let ghost items = sources_view(installables@);
    let mut out: Vec<InstallableSource> = Vec::new();
    let mut n: usize = 0;
    assert(items.take(0) =~= Seq::<SourceView>::empty());
    while n < installables.len()
        invariant
            n <= installables@.len(),
            items == sources_view(installables@),
            is_deduped(sources_view(out@), items.take(n as int)),
        decreases installables.len() - n,
    {
        let ghost o = sources_view(out@);
        let ghost pre = items.take(n as int);
        let ghost post = items.take(n + 1);
        let ghost x = items[n as int];
        assert(post.drop_last() =~= pre);
        assert(post.last() == x);
        assert forall|k: int| 0 <= k < n implies #[trigger] post[k] == pre[k] by {}
        let id = chars_of(installables[n].skill_id.as_str());
        // the position of this id among the kept candidates
        let mut p: usize = 0;
        while p < out.len()
            invariant
                p <= out@.len(),
                o == sources_view(out@),
                id@ == x.skill_id,
                forall|k: int| 0 <= k < p ==> chars_lt((#[trigger] o[k]).skill_id, id@),
            ensures
                p <= out@.len(),
                forall|k: int| 0 <= k < p ==> chars_lt((#[trigger] o[k]).skill_id, id@),
                p < out@.len() ==> !chars_lt(o[p as int].skill_id, id@),
            decreases out.len() - p,
        {
            let k = chars_of(out[p].skill_id.as_str());
            if !chars_less(&k, &id) {
                break;
            }
            p = p + 1;
        }
        let found = p < out.len() && chars_eq(&chars_of(out[p].skill_id.as_str()), &id);
        proof {
            lemma_chars_lt_irreflexive(id@);
            lemma_chosen_bounds(pre, x.skill_id);
            // ids other than x's keep their choice
            assert forall|sid: Seq<char>| sid != x.skill_id implies chosen(post, sid) == chosen(pre, sid) by {}
        }
        if found {
            proof {
                assert(o[p as int].skill_id == x.skill_id);
                assert forall|k: int| 0 <= k < o.len() && k != p implies (#[trigger] o[k]).skill_id != x.skill_id by {
                    if k > p {
                    }
                }
            }
            if out[p].kind == InstallableKind::Markdown && installables[n].kind == InstallableKind::Package {
                let c = copy_source(&installables[n]);
                out.set(p, c);
                proof {
                    let nv = sources_view(out@);
                    assert(nv =~= o.update(p as int, x));
                    assert(chosen(post, x.skill_id) == Some(n as int));
                    assert forall|i: int, j: int| 0 <= i < j < nv.len() implies chars_lt(
                        (#[trigger] nv[i]).skill_id,
                        (#[trigger] nv[j]).skill_id,
                    ) by {
                        assert(nv[i].skill_id == o[i].skill_id);
                        assert(nv[j].skill_id == o[j].skill_id);
                    }
                    assert forall|i: int| 0 <= i < nv.len() implies (#[trigger] chosen(post, nv[i].skill_id)) is Some
                        && nv[i] == post[chosen(post, nv[i].skill_id)->0] by {
                        if i != p {
                            assert(nv[i] == o[i]);
                            lemma_chosen_bounds(pre, o[i].skill_id);
                        }
                    }
                    assert forall|k: int| 0 <= k < post.len() implies exists|i: int|
                        0 <= i < nv.len() && (#[trigger] nv[i]).skill_id == (#[trigger] post[k]).skill_id by {
                        if k < n {
                            let i = choose|i: int| 0 <= i < o.len() && (#[trigger] o[i]).skill_id == pre[k].skill_id;
                            assert(nv[i].skill_id == o[i].skill_id);
                        } else {
                            assert(nv[p as int].skill_id == post[k].skill_id);
                        }
                    }
                }
            } else {
                proof {
                    let j = chosen(pre, x.skill_id)->0;
                    assert(o[p as int] == pre[j]);
                    assert(chosen(post, x.skill_id) == Some(j));
                    assert(post[j] == pre[j]);
                    assert forall|i: int| 0 <= i < o.len() implies (#[trigger] chosen(post, o[i].skill_id)) is Some
                        && o[i] == post[chosen(post, o[i].skill_id)->0] by {
                        lemma_chosen_bounds(pre, o[i].skill_id);
                    }
                    assert forall|k: int| 0 <= k < post.len() implies exists|i: int|
                        0 <= i < o.len() && (#[trigger] o[i]).skill_id == (#[trigger] post[k]).skill_id by {
                        if k < n {
                            let i = choose|i: int| 0 <= i < o.len() && (#[trigger] o[i]).skill_id == pre[k].skill_id;
                        } else {
                            assert(o[p as int].skill_id == post[k].skill_id);
                        }
                    }
                }
            }
        } else {
            let c = copy_source(&installables[n]);
            out.insert(p, c);
            proof {
                let nv = sources_view(out@);
                assert(nv =~= o.insert(p as int, x));
                lemma_sources_insert(o, p as int, x);
                // no kept candidate had this id, so none in the prefix did
                assert(chosen(pre, x.skill_id) is None) by {
                    if chosen(pre, x.skill_id) is Some {
                        let j = chosen(pre, x.skill_id)->0;
                        let i = choose|i: int| 0 <= i < o.len() && (#[trigger] o[i]).skill_id == pre[j].skill_id;
                    }
                }
                assert(chosen(post, x.skill_id) == Some(n as int));
                assert forall|i: int| 0 <= i < nv.len() implies (#[trigger] chosen(post, nv[i].skill_id)) is Some
                    && nv[i] == post[chosen(post, nv[i].skill_id)->0] by {
                    if i < p {
                        assert(nv[i] == o[i]);
                        lemma_chosen_bounds(pre, o[i].skill_id);
                    } else if i > p {
                        assert(nv[i] == o[i - 1]);
                        lemma_chosen_bounds(pre, o[i - 1].skill_id);
                    }
                }
                assert forall|k: int| 0 <= k < post.len() implies exists|i: int|
                    0 <= i < nv.len() && (#[trigger] nv[i]).skill_id == (#[trigger] post[k]).skill_id by {
                    if k < n {
                        let i = choose|i: int| 0 <= i < o.len() && (#[trigger] o[i]).skill_id == pre[k].skill_id;
                        if i < p {
                            assert(nv[i] == o[i]);
                        } else {
                            assert(nv[i + 1] == o[i]);
                        }
                    } else {
                        assert(nv[p as int].skill_id == post[k].skill_id);
                    }
                }
            }
        }
        n = n + 1;
    }
    assert(items.take(n as int) =~= items);
    out
}

// ---------------------------------------------------------------------------
// The group a candidate goes to
// ---------------------------------------------------------------------------

pub open spec fn unknown_group_message(g: Seq<char>) -> Seq<char> {
    "unknown group: "@ + g
        + ". create it first with manage_group create before calling install_skills again"@
}

/// The group an explicit `group` argument sends a candidate to: an empty
/// skill id is refused; a group that is not blank must be in the catalog;
/// a blank or missing one leaves the choice to the frontmatter.
pub fn explicit_install_group(
    groups: &Vec<ManagedGroupRecord>,
    skill_id: &str,
    explicit_group: Option<&str>,
) -> (r: Result<Option<String>, String>)
    ensures
        skill_id@.len() == 0 ==> r is Err && r->Err_0@ == "skill id is empty after normalization"@,
        skill_id@.len() > 0 ==> match explicit_group {
            Some(g) => if trim_ws(g@).len() > 0 {
                if first_group(groups_view(groups@), trim_ws(g@)) is Some {
                    r is Ok && r->Ok_0 is Some && r->Ok_0->0@ == trim_ws(g@)
                } else {
                    r is Err && r->Err_0@ == unknown_group_message(trim_ws(g@))
                }
            } else {
                r == Ok::<Option<String>, String>(None)
            },
            None => r == Ok::<Option<String>, String>(None),
        },
{
    if chars_of(skill_id).len() == 0 {
        return Err(String::from_str("skill id is empty after normalization"));
    }
    match explicit_group {
        Some(g) => {
            let t = trim_string(g);
            let tc = chars_of(t.as_str());
            if tc.len() > 0 {
                require_managed_group(groups, &tc)
            } else {
                Ok(None)
            }
        },
        None => Ok(None),
    }
}

fn require_managed_group(groups: &Vec<ManagedGroupRecord>, g: &Vec<char>) -> (r: Result<
    Option<String>,
    String,
>)
    ensures
        if first_group(groups_view(groups@), g@) is Some {
            r is Ok && r->Ok_0 is Some && r->Ok_0->0@ == g@
        } else {
            r is Err && r->Err_0@ == unknown_group_message(g@)
        },
{
    let ghost gv = groups_view(groups@);
    let mut i: usize = 0;
    while i < groups.len()
        invariant
            i <= groups@.len(),
            gv == groups_view(groups@),
            forall|k: int| 0 <= k < i ==> (#[trigger] gv[k]).group != g@,
        decreases groups.len() - i,
    {
        let c = chars_of(groups[i].group.as_str());
        if chars_eq(&c, g) {
            proof {
                crate::catalog::lemma_first_group_at(gv, g@, i as int);
            }
            return Ok(Some(string_of(g)));
        }
        i = i + 1;
    }
    proof {
        crate::catalog::lemma_first_group_at(gv, g@, i as int);
    }
    let mut msg = chars_of("unknown group: ");
    append_chars(&mut msg, g);
    append_chars(
        &mut msg,
        &chars_of(". create it first with manage_group create before calling install_skills again"),
    );
    Err(string_of(&msg))
}

/// The group a candidate's frontmatter sends it to: only a package's
/// frontmatter `group` counts, and it must be in the catalog; otherwise
/// the candidate needs classification (`Ok(None)`).
pub fn frontmatter_install_group(
    groups: &Vec<ManagedGroupRecord>,
    kind: InstallableKind,
    frontmatter_group: Option<&str>,
) -> (r: Result<Option<String>, String>)
    ensures
        match (kind, frontmatter_group) {
            (InstallableKind::Package, Some(g)) => if trim_ws(g@).len() > 0 {
                if first_group(groups_view(groups@), trim_ws(g@)) is Some {
                    r is Ok && r->Ok_0 is Some && r->Ok_0->0@ == trim_ws(g@)
                } else {
                    r is Err && r->Err_0@ == unknown_group_message(trim_ws(g@))
                }
            } else {
                r == Ok::<Option<String>, String>(None)
            },
            _ => r == Ok::<Option<String>, String>(None),
        },
{
    match kind {
        InstallableKind::Package => match frontmatter_group {
            Some(g) => {
                let t = trim_string(g);
                let tc = chars_of(t.as_str());
                if tc.len() > 0 {
                    require_managed_group(groups, &tc)
                } else {
                    Ok(None)
                }
            },
            None => Ok(None),
        },
        InstallableKind::Markdown => Ok(None),
    }
}

/// A candidate that needs a group: its id, where it came from and its
/// trimmed description (empty when there is none).
pub fn needs_classification(skill_id: &str, source_path: &str, description: Option<&str>) -> (r:
    SkillNeedsClassification)
    ensures
        r.skill_id@ == skill_id@,
        r.source_path@ == source_path@,
        r.description@ == match description {
            Some(d) => trim_ws(d@),
            None => Seq::<char>::empty(),
        },
{
    SkillNeedsClassification {
        skill_id: string_of(&chars_of(skill_id)),
        source_path: string_of(&chars_of(source_path)),
        description: match description {
            Some(d) => trim_string(d),
            None => String::new(),
        },
    }
}

/// The failure reported when a source holds no candidate at all.
pub fn no_candidates_failure(source_path: &str) -> (r: SkillInstallFailure)
    ensures
        r.source_path@ == source_path@,
        r.status@ == "failed"@,
        r.message@ == "no installable skill package or raw markdown candidate found under sourcePath"@,
{
    SkillInstallFailure {
        source_path: string_of(&chars_of(source_path)),
        status: String::from_str("failed"),
        message: String::from_str(
            "no installable skill package or raw markdown candidate found under sourcePath",
        ),
    }
}

// ---------------------------------------------------------------------------
// Asking for a classification
// ---------------------------------------------------------------------------

pub open spec fn group_line(g: ManagedGroupView) -> Seq<char> {
    "- **"@ + g.group + "**: "@ + g.group_description
}

/// The catalog's lines, one per group, joined with newlines.
pub open spec fn group_lines(groups: Seq<ManagedGroupView>) -> Seq<char>
    decreases groups.len(),
{
    if groups.len() == 0 {
        Seq::empty()
    } else if groups.len() == 1 {
        group_line(groups[0])
    } else {
        group_lines(groups.drop_last()) + "\n"@ + group_line(groups.last())
    }
}

/// The prompt that asks for a group for one skill.
pub open spec fn spec_prompt(skill_id: Seq<char>, description: Seq<char>, groups: Seq<ManagedGroupView>) -> Seq<char> {
    "Skill \""@ + skill_id + "\" needs group classification.\nDescription: "@ + description
        + "\n\nAvailable groups:\n"@ + group_lines(groups)
        + "\n\nPlease call install_skills again with the most appropriate `group` parameter."@
}

pub fn build_classification_prompt(
    skill_id: &str,
    description: &str,
    groups: &Vec<ManagedGroupRecord>,
) -> (r: String)
    ensures
        r@ == spec_prompt(skill_id@, description@, groups_view(groups@)),
{
    let ghost gv = groups_view(groups@);
    proof {
        reveal_strlit("\n");
    }
    let mut lines: Vec<char> = Vec::new();
    let mut i: usize = 0;
    assert(gv.take(0) =~= Seq::<ManagedGroupView>::empty());
    while i < groups.len()
        invariant
            i <= groups@.len(),
            gv == groups_view(groups@),
            lines@ == group_lines(gv.take(i as int)),
        decreases groups.len() - i,
    {
        let ghost t = gv.take(i + 1);
        assert(t.drop_last() =~= gv.take(i as int));
        assert(t.last() == gv[i as int]);
        if i > 0 {
            lines.push('\n');
        }
        append_chars(&mut lines, &chars_of("- **"));
        append_chars(&mut lines, &chars_of(groups[i].group.as_str()));
        append_chars(&mut lines, &chars_of("**: "));
        append_chars(&mut lines, &chars_of(groups[i].group_description.as_str()));
        proof {
            reveal_strlit("\n");
            assert(gv[i as int].group == groups@[i as int].group@);
            assert(t.len() == i + 1);
            if i == 0 {
                assert(group_lines(t) == group_line(t[0]));
                assert(lines@ =~= group_lines(t));
            } else {
                assert(group_lines(t) == group_lines(t.drop_last()) + "\n"@ + group_line(t.last()));
                assert(lines@ =~= group_lines(t));
            }
        }
        i = i + 1;
    }
    assert(gv.take(i as int) =~= gv);
    let mut out = chars_of("Skill \"");
    append_chars(&mut out, &chars_of(skill_id));
    append_chars(&mut out, &chars_of("\" needs group classification.\nDescription: "));
    append_chars(&mut out, &chars_of(description));
    append_chars(&mut out, &chars_of("\n\nAvailable groups:\n"));
    append_chars(&mut out, &lines);
    append_chars(
        &mut out,
        &chars_of("\n\nPlease call install_skills again with the most appropriate `group` parameter."),
    );
    string_of(&out)
}

/// The prompts for every skill that needs a group, separated by rules.
pub open spec fn prompts_joined(entries: Seq<(Seq<char>, Seq<char>)>, groups: Seq<ManagedGroupView>) -> Seq<char>
    decreases entries.len(),
{
    if entries.len() == 0 {
        Seq::empty()
    } else if entries.len() == 1 {
        spec_prompt(entries[0].0, entries[0].1, groups)
    } else {
        prompts_joined(entries.drop_last(), groups) + "\n\n---\n\n"@ + spec_prompt(
            entries.last().0,
            entries.last().1,
            groups,
        )
    }
}

pub open spec fn classification_entries(v: Seq<SkillNeedsClassification>) -> Seq<(Seq<char>, Seq<char>)> {
    v.map_values(|e: SkillNeedsClassification| (e.skill_id@, e.description@))
}

/// The hint of an install answer: none when nothing needs a group, else
/// every prompt and a closing request.
pub fn classification_hint(
    entries: &Vec<SkillNeedsClassification>,
    groups: &Vec<ManagedGroupRecord>,
) -> (r: Option<String>)
    ensures
        entries@.len() == 0 ==> r is None,
        entries@.len() > 0 ==> r is Some && r->0@ == prompts_joined(
            classification_entries(entries@),
            groups_view(groups@),
        ) + "\n\nPlease call install_skills again with the `group` parameter for each skill listed above."@,
{
    if entries.len() == 0 {
        return None;
    }
    let ghost ev = classification_entries(entries@);
    let mut out: Vec<char> = Vec::new();
    let mut i: usize = 0;
    assert(ev.take(0) =~= Seq::<(Seq<char>, Seq<char>)>::empty());
    while i < entries.len()
        invariant
            i <= entries@.len(),
            ev == classification_entries(entries@),
            out@ == prompts_joined(ev.take(i as int), groups_view(groups@)),
        decreases entries.len() - i,
    {
        let ghost t = ev.take(i + 1);
        assert(t.drop_last() =~= ev.take(i as int));
        assert(t.last() == ev[i as int]);
        if i > 0 {
            append_chars(&mut out, &chars_of("\n\n---\n\n"));
        }
        let p = build_classification_prompt(
            entries[i].skill_id.as_str(),
            entries[i].description.as_str(),
            groups,
        );
        append_chars(&mut out, &chars_of(p.as_str()));
        assert(out@ =~= prompts_joined(t, groups_view(groups@)));
        i = i + 1;
    }
    assert(ev.take(i as int) =~= ev);
    append_chars(
        &mut out,
        &chars_of("\n\nPlease call install_skills again with the `group` parameter for each skill listed above."),
    );
    Some(string_of(&out))
}

/// A package wins: when some candidate of an id is a package, the one kept
/// for that id is a package.
pub proof fn lemma_package_wins(items: Seq<SourceView>, id: Seq<char>)
    requires
        exists|k: int|
            0 <= k < items.len() && (#[trigger] items[k]).skill_id == id && items[k].kind
                == InstallableKind::Package,
    ensures
        chosen(items, id) is Some,
        items[chosen(items, id)->0].kind == InstallableKind::Package,
    decreases items.len(),
{
    let d = items.drop_last();
    lemma_chosen_bounds(d, id);
    lemma_chosen_bounds(items, id);
    if exists|k: int|
        0 <= k < d.len() && (#[trigger] d[k]).skill_id == id && d[k].kind == InstallableKind::Package {
        lemma_package_wins(d, id);
        let j = chosen(d, id)->0;
        assert(items[j] == d[j]);
    } else {
        let k = choose|k: int|
            0 <= k < items.len() && (#[trigger] items[k]).skill_id == id && items[k].kind
                == InstallableKind::Package;
        if k < items.len() - 1 {
            assert(d[k] == items[k]);
        }
        assert(k == items.len() - 1);
        match chosen(d, id) {
            Some(j) => {
                assert(items[j] == d[j]);
                assert(d[j].kind != InstallableKind::Package);
            },
            None => {},
        }
    }
}

// ---------------------------------------------------------------------------
// Walking a source
// ---------------------------------------------------------------------------

/// What an install source path itself is.
#[derive(Debug, Clone, Copy, PartialEq, Eq, Structural)]
pub enum SourceDecision {
    /// A `SKILL.md` file: its directory is the package.
    PackageOfFile,
    /// A raw markdown file to check, then install.
    RawFile,
    /// A directory holding a `SKILL.md`: it is the package.
    PackageDirectory,
    /// A directory to walk for candidates.
    Walk,
    /// Nothing to install.
    Nothing,
}

/// How a source path is taken: a `SKILL.md` file is its directory's
/// package when packages are accepted; another file is a raw markdown
/// candidate when raw markdown is accepted and the name fits; a directory
/// with a `SKILL.md` is a package when packages are accepted; any other
/// directory is walked.
pub fn source_decision(policy: &InstallPolicy, is_file: bool, file_name: &str, has_skill_file: bool) -> (r:
    SourceDecision)
    ensures
        is_file && file_name@ == SKILL_FILENAME@ ==> r == if policy.accept_package_directories {
            SourceDecision::PackageOfFile
        } else {
            SourceDecision::Nothing
        },
        is_file && file_name@ != SKILL_FILENAME@ ==> r == if policy.accept_raw_markdown
            && spec_markdown_candidate(file_name@) {
            SourceDecision::RawFile
        } else {
            SourceDecision::Nothing
        },
        !is_file ==> r == if policy.accept_package_directories && has_skill_file {
            SourceDecision::PackageDirectory
        } else {
            SourceDecision::Walk
        },
{
    if is_file {
        let name = chars_of(file_name);
        if chars_eq(&name, &chars_of(SKILL_FILENAME)) {
            if policy.accept_package_directories {
                SourceDecision::PackageOfFile
            } else {
                SourceDecision::Nothing
            }
        } else if policy.accept_raw_markdown && is_markdown_candidate(file_name) {
            SourceDecision::RawFile
        } else {
            SourceDecision::Nothing
        }
    } else if policy.accept_package_directories && has_skill_file {
        SourceDecision::PackageDirectory
    } else {
        SourceDecision::Walk
    }
}

/// What an entry met while walking a source is.
#[derive(Debug, Clone, Copy, PartialEq, Eq, Structural)]
pub enum EntryDecision {
    /// A hidden entry, not looked into.
    Hidden,
    /// A directory that is a package; it is walked too.
    PackageAndWalk,
    /// A directory to walk.
    Walk,
    /// A raw markdown file to check, then install.
    RawFile,
    /// A file that is not a candidate.
    Ignore,
}

pub open spec fn spec_entry_decision(
    policy: InstallPolicy,
    is_dir: bool,
    name: Seq<char>,
    has_skill_file: bool,
) -> EntryDecision {
    if name.len() > 0 && name[0] == '.' {
        EntryDecision::Hidden
    } else if is_dir {
        if policy.accept_package_directories && has_skill_file {
            EntryDecision::PackageAndWalk
        } else {
            EntryDecision::Walk
        }
    } else if name != SKILL_FILENAME@ && policy.accept_raw_markdown && spec_markdown_candidate(name) {
        EntryDecision::RawFile
    } else {
        EntryDecision::Ignore
    }
}

/// How an entry of a walked source is taken: hidden entries are skipped;
/// a directory is walked, and is a package when it holds a `SKILL.md` and
/// packages are accepted; a file other than `SKILL.md` is a raw markdown
/// candidate when raw markdown is accepted and the name fits.
pub fn entry_decision(policy: &InstallPolicy, is_dir: bool, name: &str, has_skill_file: bool) -> (r:
    EntryDecision)
    ensures
        r == spec_entry_decision(*policy, is_dir, name@, has_skill_file),
{
    let n = chars_of(name);
    if n.len() > 0 && n[0] == '.' {
        EntryDecision::Hidden
    } else if is_dir {
        if policy.accept_package_directories && has_skill_file {
            EntryDecision::PackageAndWalk
        } else {
            EntryDecision::Walk
        }
    } else if accepts_raw_file(policy, name) {
        EntryDecision::RawFile
    } else {
        EntryDecision::Ignore
    }
}

} // verus!
