//! Governance checks over installed skills: which findings a validation
//! reports, how they are graded, and which skills pass.
//!
//! Reading each `SKILL.md` happens outside this crate; `file_check_of`
//! turns the text that was read into what validation checks.

use crate::model::{
    findings_view, passed_view, records_view, FindingView, PassedView, RecordView,
    SkillRecord, SkillValidationIssue, SkillValidationPassed, SkillValidationResult,
    ValidationView,
};
use crate::parser::{frontmatter_field, parse_frontmatter_fields, spec_frontmatter_entries, spec_frontmatter_field};
use crate::registry::{lemma_chars_lt_irreflexive, name_norm};
use crate::search::{chars_less, chars_lt, copy_chars, lemma_vviews_push, vviews};
use crate::text::{append_chars, chars_eq, chars_of, lowercase, string_of, trim_string, trim_ws};
use vstd::prelude::*;

verus! {

/// What reading a record's `SKILL.md` found.
#[derive(Debug, Clone, PartialEq, Eq)]
pub enum FileCheck {
    /// The file is not there.
    Missing,
    /// The file is there but could not be read; validation fails with this.
    Unreadable(String),
    /// The frontmatter decoded; its `name` and `description`, if present.
    Fields { name: Option<String>, description: Option<String> },
    /// The frontmatter did not decode, for this reason.
    Invalid(String),
}

pub enum CheckView {
    Missing,
    Unreadable(Seq<char>),
    Fields(Option<Seq<char>>, Option<Seq<char>>),
    Invalid(Seq<char>),
}

impl View for FileCheck {
    type V = CheckView;

    open spec fn view(&self) -> CheckView {
        match self {
            FileCheck::Missing => CheckView::Missing,
            FileCheck::Unreadable(e) => CheckView::Unreadable(e@),
            FileCheck::Fields { name, description } => CheckView::Fields(
                crate::model::opt_string_view(*name),
                crate::model::opt_string_view(*description),
            ),
            FileCheck::Invalid(e) => CheckView::Invalid(e@),
        }
    }
}

/// What the text of a record's `SKILL.md` gives validation: its `name` and
/// `description` fields when the frontmatter decodes, else why it did not.
pub open spec fn spec_file_check(raw: Seq<char>) -> CheckView {
    match spec_frontmatter_entries(raw) {
        Ok(entries) => CheckView::Fields(
            spec_frontmatter_field(entries, "name"@),
            spec_frontmatter_field(entries, "description"@),
        ),
        Err(e) => CheckView::Invalid(e),
    }
}

pub fn file_check_of(raw: &str) -> (r: FileCheck)
    ensures
        r@ == spec_file_check(raw@),
{
    match parse_frontmatter_fields(raw) {
        Ok(entries) => FileCheck::Fields {
            name: frontmatter_field(&entries, "name"),
            description: frontmatter_field(&entries, "description"),
        },
        Err(e) => FileCheck::Invalid(e),
    }
}

pub open spec fn checks_view(v: Seq<FileCheck>) -> Seq<CheckView> {
    v.map_values(|c: FileCheck| c@)
}

pub open spec fn finding(r: RecordView, code: Seq<char>, severity: Seq<char>, message: Seq<char>) -> FindingView {
    FindingView { skill_id: Some(r.skill_id), path: r.skill_path, code, severity, message }
}

/// A frontmatter field counts when it is there and not blank.
pub open spec fn field_present(f: Option<Seq<char>>) -> bool {
    match f {
        Some(v) => trim_ws(v).len() > 0,
        None => false,
    }
}

pub open spec fn generic_findings(r: RecordView) -> Seq<FindingView> {
    if r.group == "general"@ {
        seq![
            finding(
                r,
                "generic_group"@,
                "review_required"@,
                "skill resolved to generic group and may need manual grouping refinement"@,
            ),
        ]
    } else {
        Seq::empty()
    }
}

/// The findings for one record: a missing file is blocked and nothing else
/// is checked; a frontmatter without name or description, or one that does
/// not decode, is blocked; a record in the `general` group needs review.
pub open spec fn record_findings(r: RecordView, c: CheckView) -> Seq<FindingView> {
    match c {
        CheckView::Missing => seq![
            finding(r, "missing_skill_file"@, "blocked"@, "SKILL.md is missing from package path"@),
        ],
        CheckView::Unreadable(_) => Seq::empty(),
        CheckView::Fields(n, d) => (if field_present(n) && field_present(d) {
            Seq::empty()
        } else {
            seq![
                finding(
                    r,
                    "invalid_frontmatter"@,
                    "blocked"@,
                    "frontmatter missing required name/description"@,
                ),
            ]
        }) + generic_findings(r),
        CheckView::Invalid(msg) => seq![finding(r, "invalid_frontmatter"@, "blocked"@, msg)]
            + generic_findings(r),
    }
}

pub open spec fn all_record_findings(recs: Seq<RecordView>, checks: Seq<CheckView>) -> Seq<
    FindingView,
>
    decreases recs.len(),
{
    if recs.len() == 0 {
        Seq::empty()
    } else {
        all_record_findings(recs.drop_last(), checks.drop_last()) + record_findings(
            recs.last(),
            checks.last(),
        )
    }
}

/// The error of the first file that could not be read.
pub open spec fn first_unreadable(checks: Seq<CheckView>) -> Option<Seq<char>>
    decreases checks.len(),
{
    if checks.len() == 0 {
        None
    } else {
        match checks[0] {
            CheckView::Unreadable(e) => Some(e),
            _ => first_unreadable(checks.drop_first()),
        }
    }
}

/// Where a new name goes in a sorted list of distinct names.
pub open spec fn key_insert_pos(keys: Seq<Seq<char>>, k: Seq<char>) -> int
    decreases keys.len(),
{
    if keys.len() == 0 {
        0
    } else if chars_lt(k, keys[0]) {
        0
    } else {
        1 + key_insert_pos(keys.drop_first(), k)
    }
}

pub open spec fn insert_key(keys: Seq<Seq<char>>, k: Seq<char>) -> Seq<Seq<char>> {
    if keys.contains(k) {
        keys
    } else {
        keys.insert(key_insert_pos(keys, k), k)
    }
}

/// The distinct normalised names of the records, in code-point order.
pub open spec fn name_keys(recs: Seq<RecordView>) -> Seq<Seq<char>>
    decreases recs.len(),
{
    if recs.len() == 0 {
        Seq::empty()
    } else {
        insert_key(name_keys(recs.drop_last()), name_norm(recs.last().skill_name))
    }
}

/// The records whose normalised name is `k`, in order.
pub open spec fn with_name(recs: Seq<RecordView>, k: Seq<char>) -> Seq<RecordView>
    decreases recs.len(),
{
    if recs.len() == 0 {
        Seq::empty()
    } else {
        let prev = with_name(recs.drop_last(), k);
        if name_norm(recs.last().skill_name) == k {
            prev.push(recs.last())
        } else {
            prev
        }
    }
}

pub open spec fn dup_finding(r: RecordView) -> FindingView {
    finding(
        r,
        "duplicate_skill_name"@,
        "review_required"@,
        "duplicate skillName detected: "@ + r.skill_name,
    )
}

/// For each name shared by more than one record, in name order, a finding
/// for each of those records.
pub open spec fn duplicate_findings(keys: Seq<Seq<char>>, recs: Seq<RecordView>) -> Seq<FindingView>
    decreases keys.len(),
{
    if keys.len() == 0 {
        Seq::empty()
    } else {
        let same = with_name(recs, keys.last());
        duplicate_findings(keys.drop_last(), recs) + if same.len() > 1 {
            same.map_values(|r: RecordView| dup_finding(r))
        } else {
            Seq::empty()
        }
    }
}

pub open spec fn with_severity(fs: Seq<FindingView>, sev: Seq<char>) -> Seq<FindingView>
    decreases fs.len(),
{
    if fs.len() == 0 {
        Seq::empty()
    } else {
        let prev = with_severity(fs.drop_last(), sev);
        if fs.last().severity == sev {
            prev.push(fs.last())
        } else {
            prev
        }
    }
}

pub open spec fn mentions(fs: Seq<FindingView>, id: Seq<char>) -> bool {
    exists|i: int| 0 <= i < fs.len() && (#[trigger] fs[i]).skill_id == Some(id)
}

/// The records that no blocked or review finding names.
pub open spec fn passed_records(
    recs: Seq<RecordView>,
    blocked: Seq<FindingView>,
    review: Seq<FindingView>,
) -> Seq<PassedView>
    decreases recs.len(),
{
    if recs.len() == 0 {
        Seq::empty()
    } else {
        let prev = passed_records(recs.drop_last(), blocked, review);
        let r = recs.last();
        if !mentions(blocked, r.skill_id) && !mentions(review, r.skill_id) {
            prev.push(PassedView { skill_id: r.skill_id, skill_path: r.skill_path })
        } else {
            prev
        }
    }
}

/// The validation report for these records and what reading their files
/// found.
pub open spec fn spec_validation(recs: Seq<RecordView>, checks: Seq<CheckView>) -> Result<
    ValidationView,
    Seq<char>,
> {
    match first_unreadable(checks) {
        Some(e) => Err(e),
        None => {
            let issues = all_record_findings(recs, checks) + duplicate_findings(
                name_keys(recs),
                recs,
            );
            let blocked = with_severity(issues, "blocked"@);
            let review = with_severity(issues, "review_required"@);
            Ok(
                ValidationView {
                    passed: passed_records(recs, blocked, review),
                    review_required: review,
                    blocked: blocked,
                    issues: issues,
                },
            )
        },
    }
}

// ---------------------------------------------------------------------------
// Computing the report
// ---------------------------------------------------------------------------

fn make_finding(r: &SkillRecord, code: &str, severity: &str, message: String) -> (f:
    SkillValidationIssue)
    ensures
        f@ == finding(r@, code@, severity@, message@),
{
    SkillValidationIssue {
        skill_id: Some(string_of(&chars_of(r.skill_id.as_str()))),
        path: string_of(&chars_of(r.skill_path.as_str())),
        code: string_of(&chars_of(code)),
        severity: string_of(&chars_of(severity)),
        message,
    }
}

fn push_finding(out: &mut Vec<SkillValidationIssue>, f: SkillValidationIssue)
    ensures
        findings_view(final(out)@) == findings_view(old(out)@).push(f@),
{
    let ghost before = old(out)@;
    out.push(f);
    assert(findings_view(out@) =~= findings_view(before).push(f@));
}

fn field_present_exec(f: &Option<String>) -> (r: bool)
    ensures
        r == field_present(crate::model::opt_string_view(*f)),
{
    match f {
        Some(v) => {
            let t = chars_of(trim_string(v.as_str()).as_str());
            t.len() > 0
        },
        None => false,
    }
}

/// Appends a record's findings.
fn add_record_findings(out: &mut Vec<SkillValidationIssue>, r: &SkillRecord, c: &FileCheck)
    requires
        !(c@ is Unreadable),
    ensures
        findings_view(final(out)@) == findings_view(old(out)@) + record_findings(r@, c@),
{
    let ghost before = findings_view(old(out)@);
    match c {
        FileCheck::Missing => {
            push_finding(
                out,
                make_finding(
                    r,
                    "missing_skill_file",
                    "blocked",
                    String::from_str("SKILL.md is missing from package path"),
                ),
            );
            assert(findings_view(out@) =~= before + record_findings(r@, c@));
            return ;
        },
        FileCheck::Unreadable(_) => {
            return ;
        },
        FileCheck::Fields { name, description } => {
            if !(field_present_exec(name) && field_present_exec(description)) {
                push_finding(
                    out,
                    make_finding(
                        r,
                        "invalid_frontmatter",
                        "blocked",
                        String::from_str("frontmatter missing required name/description"),
                    ),
                );
            }
        },
        FileCheck::Invalid(msg) => {
            push_finding(
                out,
                make_finding(r, "invalid_frontmatter", "blocked", string_of(&chars_of(msg.as_str()))),
            );
        },
    }
    let ghost mid = findings_view(out@);
    let g = chars_of(r.group.as_str());
    let general = chars_of("general");
    if chars_eq(&g, &general) {
        push_finding(
            out,
            make_finding(
                r,
                "generic_group",
                "review_required",
                String::from_str(
                    "skill resolved to generic group and may need manual grouping refinement",
                ),
            ),
        );
    }
    assert(findings_view(out@) =~= before + record_findings(r@, c@));
}

proof fn lemma_key_insert_pos_at(keys: Seq<Seq<char>>, k: Seq<char>, j: int)
    requires
        0 <= j <= keys.len(),
        forall|m: int| 0 <= m < j ==> !chars_lt(k, #[trigger] keys[m]),
        j == keys.len() || chars_lt(k, keys[j]),
    ensures
        key_insert_pos(keys, k) == j,
    decreases j,
{
    if j > 0 {
        assert(!chars_lt(k, keys[0]));
        assert forall|m: int| 0 <= m < j - 1 implies !chars_lt(k, #[trigger] keys.drop_first()[m]) by {
            assert(keys.drop_first()[m] == keys[m + 1]);
        }
        if j < keys.len() {
            assert(keys.drop_first()[j - 1] == keys[j]);
        }
        lemma_key_insert_pos_at(keys.drop_first(), k, j - 1);
    }
}

/// Adds a name to a list of distinct names kept in code-point order.
fn insert_key_exec(keys: &mut Vec<Vec<char>>, k: &Vec<char>)
    ensures
        vviews(final(keys)@) == insert_key(vviews(old(keys)@), k@),
{
    let ghost ks = vviews(keys@);
    let mut i: usize = 0;
    while i < keys.len()
        invariant
            i <= keys.len(),
            ks == vviews(keys@),
            forall|m: int| 0 <= m < i ==> #[trigger] ks[m] != k@,
        decreases keys.len() - i,
    {
        if chars_eq(&keys[i], k) {
            assert(ks[i as int] == k@);
            assert(ks.contains(k@));
            return ;
        }
        i = i + 1;
    }
    assert(!ks.contains(k@));
    let mut j: usize = 0;
    while j < keys.len()
        invariant
            j <= keys.len(),
            ks == vviews(keys@),
            forall|m: int| 0 <= m < j ==> !chars_lt(k@, #[trigger] ks[m]),
        ensures
            j <= keys.len(),
            forall|m: int| 0 <= m < j ==> !chars_lt(k@, #[trigger] ks[m]),
            j == keys.len() || chars_lt(k@, ks[j as int]),
        decreases keys.len() - j,
    {
        if chars_less(k, &keys[j]) {
            break;
        }
        j = j + 1;
    }
    proof {
        lemma_key_insert_pos_at(ks, k@, j as int);
    }
    keys.insert(j, copy_chars(k));
    assert(vviews(keys@) =~= ks.insert(j as int, k@));
}

/// The normalised name of each record.
fn normalized_names(recs: &Vec<SkillRecord>) -> (r: Vec<Vec<char>>)
    ensures
        r@.len() == recs@.len(),
        forall|i: int| 0 <= i < recs@.len() ==> #[trigger] r@[i]@ == name_norm(recs@[i]@.skill_name),
{
    let mut out: Vec<Vec<char>> = Vec::new();
    let mut i: usize = 0;
    while i < recs.len()
        invariant
            i <= recs@.len(),
            out@.len() == i,
            forall|m: int| 0 <= m < i ==> #[trigger] out@[m]@ == name_norm(recs@[m]@.skill_name),
        decreases recs.len() - i,
    {
        let n = chars_of(lowercase(trim_string(recs[i].skill_name.as_str()).as_str()).as_str());
        out.push(n);
        i = i + 1;
    }
    out
}

/// The duplicate-name findings.
fn add_duplicate_findings(
    out: &mut Vec<SkillValidationIssue>,
    recs: &Vec<SkillRecord>,
    norms: &Vec<Vec<char>>,
    keys: &Vec<Vec<char>>,
)
    requires
        norms@.len() == recs@.len(),
        forall|i: int| 0 <= i < recs@.len() ==> #[trigger] norms@[i]@ == name_norm(recs@[i]@.skill_name),
    ensures
        findings_view(final(out)@) == findings_view(old(out)@) + duplicate_findings(
            vviews(keys@),
            records_view(recs@),
        ),
{
    let ghost rv = records_view(recs@);
    let ghost kv = vviews(keys@);
    let ghost base = findings_view(out@);
    let mut k: usize = 0;
    assert(base + duplicate_findings(kv.take(0), rv) =~= base);
    while k < keys.len()
        invariant
            k <= keys@.len(),
            rv == records_view(recs@),
            kv == vviews(keys@),
            norms@.len() == recs@.len(),
            forall|i: int| 0 <= i < recs@.len() ==> #[trigger] norms@[i]@ == name_norm(recs@[i]@.skill_name),
            findings_view(out@) == base + duplicate_findings(kv.take(k as int), rv),
        decreases keys.len() - k,
    {
        let ghost key = kv[k as int];
        // the records carrying this name
        let mut same: Vec<usize> = Vec::new();
        let mut i: usize = 0;
        assert(rv.take(0) =~= Seq::<RecordView>::empty());
        while i < recs.len()
            invariant
                i <= recs@.len(),
                rv == records_view(recs@),
                key == kv[k as int],
                kv == vviews(keys@),
                k < keys@.len(),
                norms@.len() == recs@.len(),
                forall|m: int| 0 <= m < recs@.len() ==> #[trigger] norms@[m]@ == name_norm(recs@[m]@.skill_name),
                same@.len() == with_name(rv.take(i as int), key).len(),
                forall|m: int| 0 <= m < same@.len() ==> #[trigger] same@[m] < recs@.len()
                    && rv[same@[m] as int] == with_name(rv.take(i as int), key)[m],
            decreases recs.len() - i,
        {
            assert(rv.take(i + 1).drop_last() =~= rv.take(i as int));
            assert(rv.take(i + 1).last() == rv[i as int]);
            if chars_eq(&norms[i], &keys[k]) {
                same.push(i);
            }
            i = i + 1;
        }
        assert(rv.take(i as int) =~= rv);
        let ghost sw = with_name(rv, key);
        let ghost before = findings_view(out@);
        if same.len() > 1 {
            let mut j: usize = 0;
            while j < same.len()
                invariant
                    j <= same@.len(),
                    same@.len() == sw.len(),
                    forall|m: int| 0 <= m < same@.len() ==> #[trigger] same@[m] < recs@.len()
                        && rv[same@[m] as int] == sw[m],
                    rv == records_view(recs@),
                    findings_view(out@) == before + sw.take(j as int).map_values(
                        |r: RecordView| dup_finding(r),
                    ),
                decreases same.len() - j,
            {
                let r = &recs[same[j]];
                let mut msg = chars_of("duplicate skillName detected: ");
                append_chars(&mut msg, &chars_of(r.skill_name.as_str()));
                let f = make_finding(r, "duplicate_skill_name", "review_required", string_of(&msg));
                push_finding(out, f);
                j = j + 1;
                assert(sw.take(j as int).map_values(|r: RecordView| dup_finding(r)) =~= sw.take(
                    j - 1,
                ).map_values(|r: RecordView| dup_finding(r)).push(dup_finding(sw[j - 1])));
            }
            assert(sw.take(j as int) =~= sw);
        }
        proof {
            assert(kv.take(k + 1).drop_last() =~= kv.take(k as int));
            assert(kv.take(k + 1).last() == key);
        }
        k = k + 1;
        assert(findings_view(out@) =~= base + duplicate_findings(kv.take(k as int), rv));
    }
    assert(kv.take(k as int) =~= kv);
}

fn copy_finding(f: &SkillValidationIssue) -> (c: SkillValidationIssue)
    ensures
        c@ == f@,
{
    SkillValidationIssue {
        skill_id: match &f.skill_id {
            Some(s) => Some(string_of(&chars_of(s.as_str()))),
            None => None,
        },
        path: string_of(&chars_of(f.path.as_str())),
        code: string_of(&chars_of(f.code.as_str())),
        severity: string_of(&chars_of(f.severity.as_str())),
        message: string_of(&chars_of(f.message.as_str())),
    }
}

/// The findings of one severity, in order.
fn filter_severity(fs: &Vec<SkillValidationIssue>, sev: &str) -> (r: Vec<SkillValidationIssue>)
    ensures
        findings_view(r@) == with_severity(findings_view(fs@), sev@),
{
    let ghost fv = findings_view(fs@);
    let target = chars_of(sev);
    let mut out: Vec<SkillValidationIssue> = Vec::new();
    let mut i: usize = 0;
    assert(fv.take(0) =~= Seq::<FindingView>::empty());
    while i < fs.len()
        invariant
            i <= fs@.len(),
            fv == findings_view(fs@),
            target@ == sev@,
            findings_view(out@) == with_severity(fv.take(i as int), sev@),
        decreases fs.len() - i,
    {
        assert(fv.take(i + 1).drop_last() =~= fv.take(i as int));
        assert(fv.take(i + 1).last() == fv[i as int]);
        let s = chars_of(fs[i].severity.as_str());
        if chars_eq(&s, &target) {
            push_finding(&mut out, copy_finding(&fs[i]));
        }
        i = i + 1;
    }
    assert(fv.take(i as int) =~= fv);
    out
}

/// Whether a finding names this skill id.
fn mentions_exec(fs: &Vec<SkillValidationIssue>, id: &Vec<char>) -> (r: bool)
    ensures
        r == mentions(findings_view(fs@), id@),
{
    let ghost fv = findings_view(fs@);
    let mut i: usize = 0;
    while i < fs.len()
        invariant
            i <= fs@.len(),
            fv == findings_view(fs@),
            forall|m: int| 0 <= m < i ==> (#[trigger] fv[m]).skill_id != Some(id@),
        decreases fs.len() - i,
    {
        match &fs[i].skill_id {
            Some(s) => {
                let sc = chars_of(s.as_str());
                if chars_eq(&sc, id) {
                    assert(fv[i as int].skill_id == Some(id@));
                    return true;
                }
            },
            None => {},
        }
        i = i + 1;
    }
    false
}

/// Validates records given what reading each one's `SKILL.md` found:
/// the error of the first unreadable file, or the report.
pub fn validate_records(recs: &Vec<SkillRecord>, checks: &Vec<FileCheck>) -> (r: Result<
    SkillValidationResult,
    String,
>)
    requires
        checks@.len() == recs@.len(),
    ensures
        match r {
            Ok(res) => spec_validation(records_view(recs@), checks_view(checks@)) == Ok::<
                ValidationView,
                Seq<char>,
            >(res@),
            Err(e) => spec_validation(records_view(recs@), checks_view(checks@)) == Err::<
                ValidationView,
                Seq<char>,
            >(e@),
        },
{
    let ghost rv = records_view(recs@);
    let ghost cv = checks_view(checks@);
    let mut issues: Vec<SkillValidationIssue> = Vec::new();
    let mut keys: Vec<Vec<char>> = Vec::new();
    let norms = normalized_names(recs);
    let mut i: usize = 0;
    assert(rv.take(0) =~= Seq::<RecordView>::empty());
    assert(cv.skip(0) =~= cv);
    while i < recs.len()
        invariant
            i <= recs@.len(),
            checks@.len() == recs@.len(),
            rv == records_view(recs@),
            cv == checks_view(checks@),
            norms@.len() == recs@.len(),
            forall|m: int| 0 <= m < recs@.len() ==> #[trigger] norms@[m]@ == name_norm(recs@[m]@.skill_name),
            first_unreadable(cv) == first_unreadable(cv.skip(i as int)),
            findings_view(issues@) == all_record_findings(rv.take(i as int), cv.take(i as int)),
            vviews(keys@) == name_keys(rv.take(i as int)),
        decreases recs.len() - i,
    {
        assert(cv.skip(i as int)[0] == cv[i as int]);
        match &checks[i] {
            FileCheck::Unreadable(e) => {
                return Err(string_of(&chars_of(e.as_str())));
            },
            _ => {},
        }
        assert(cv.skip(i as int).drop_first() =~= cv.skip(i + 1));
        assert(rv.take(i + 1).drop_last() =~= rv.take(i as int));
        assert(cv.take(i + 1).drop_last() =~= cv.take(i as int));
        assert(rv.take(i + 1).last() == rv[i as int]);
        assert(cv.take(i + 1).last() == cv[i as int]);
        add_record_findings(&mut issues, &recs[i], &checks[i]);
        insert_key_exec(&mut keys, &norms[i]);
        i = i + 1;
    }
    assert(rv.take(i as int) =~= rv);
    assert(cv.take(i as int) =~= cv);
    assert(cv.skip(i as int) =~= Seq::<CheckView>::empty());
    add_duplicate_findings(&mut issues, recs, &norms, &keys);
    let blocked = filter_severity(&issues, "blocked");
    let review = filter_severity(&issues, "review_required");
    let ghost bv = findings_view(blocked@);
    let ghost wv = findings_view(review@);
    let mut passed: Vec<SkillValidationPassed> = Vec::new();
    let mut j: usize = 0;
    while j < recs.len()
        invariant
            j <= recs@.len(),
            rv == records_view(recs@),
            bv == findings_view(blocked@),
            wv == findings_view(review@),
            passed_view(passed@) == passed_records(rv.take(j as int), bv, wv),
        decreases recs.len() - j,
    {
        assert(rv.take(j + 1).drop_last() =~= rv.take(j as int));
        assert(rv.take(j + 1).last() == rv[j as int]);
        let id = chars_of(recs[j].skill_id.as_str());
        if !mentions_exec(&blocked, &id) && !mentions_exec(&review, &id) {
            let p = SkillValidationPassed {
                skill_id: string_of(&id),
                skill_path: string_of(&chars_of(recs[j].skill_path.as_str())),
            };
            let ghost before = passed@;
            passed.push(p);
            assert(passed_view(passed@) =~= passed_view(before).push(p@));
        }
        j = j + 1;
    }
    assert(rv.take(j as int) =~= rv);
    Ok(SkillValidationResult { passed, review_required: review, blocked, issues })
}

// ---------------------------------------------------------------------------
// Laws of validation
// ---------------------------------------------------------------------------

/// Every finding is either blocked or needs review.
pub open spec fn graded(fs: Seq<FindingView>) -> bool {
    forall|i: int|
        0 <= i < fs.len() ==> (#[trigger] fs[i]).severity == "blocked"@ || fs[i].severity
            == "review_required"@
}

proof fn lemma_all_record_findings_graded(recs: Seq<RecordView>, checks: Seq<CheckView>)
    ensures
        graded(all_record_findings(recs, checks)),
    decreases recs.len(),
{
    if recs.len() > 0 {
        lemma_all_record_findings_graded(recs.drop_last(), checks.drop_last());
        let a = all_record_findings(recs.drop_last(), checks.drop_last());
        let b = record_findings(recs.last(), checks.last());
        assert(graded(b));
        assert forall|i: int| 0 <= i < (a + b).len() implies (#[trigger] (a + b)[i]).severity
            == "blocked"@ || (a + b)[i].severity == "review_required"@ by {
            if i < a.len() {
                assert((a + b)[i] == a[i]);
            } else {
                assert((a + b)[i] == b[i - a.len()]);
            }
        }
    }
}

proof fn lemma_duplicate_findings_graded(keys: Seq<Seq<char>>, recs: Seq<RecordView>)
    ensures
        graded(duplicate_findings(keys, recs)),
    decreases keys.len(),
{
    if keys.len() > 0 {
        lemma_duplicate_findings_graded(keys.drop_last(), recs);
        let a = duplicate_findings(keys.drop_last(), recs);
        let same = with_name(recs, keys.last());
        let b = if same.len() > 1 {
            same.map_values(|r: RecordView| dup_finding(r))
        } else {
            Seq::empty()
        };
        assert forall|i: int| 0 <= i < (a + b).len() implies (#[trigger] (a + b)[i]).severity
            == "blocked"@ || (a + b)[i].severity == "review_required"@ by {
            if i < a.len() {
                assert((a + b)[i] == a[i]);
            } else {
                assert((a + b)[i] == b[i - a.len()]);
            }
        }
    }
}

proof fn lemma_severity_split(fs: Seq<FindingView>)
    requires
        graded(fs),
    ensures
        with_severity(fs, "blocked"@).len() + with_severity(fs, "review_required"@).len() == fs.len(),
    decreases fs.len(),
{
    reveal_strlit("blocked");
    reveal_strlit("review_required");
    if fs.len() > 0 {
        let d = fs.drop_last();
        assert forall|i: int| 0 <= i < d.len() implies (#[trigger] d[i]).severity == "blocked"@
            || d[i].severity == "review_required"@ by {
            assert(d[i] == fs[i]);
        }
        lemma_severity_split(d);
        assert(fs.last() == fs[fs.len() - 1]);
        assert("blocked"@.len() != "review_required"@.len());
        assert("blocked"@ != "review_required"@);
    }
}

proof fn lemma_passed_unflagged(recs: Seq<RecordView>, blocked: Seq<FindingView>, review: Seq<FindingView>)
    ensures
        forall|k: int|
            0 <= k < passed_records(recs, blocked, review).len() ==> !mentions(
                blocked,
                (#[trigger] passed_records(recs, blocked, review)[k]).skill_id,
            ) && !mentions(review, passed_records(recs, blocked, review)[k].skill_id),
    decreases recs.len(),
{
    if recs.len() > 0 {
        lemma_passed_unflagged(recs.drop_last(), blocked, review);
        let prev = passed_records(recs.drop_last(), blocked, review);
        let out = passed_records(recs, blocked, review);
        assert forall|k: int| 0 <= k < out.len() implies !mentions(blocked, (#[trigger] out[k]).skill_id)
            && !mentions(review, out[k].skill_id) by {
            if k < prev.len() {
                assert(out[k] == prev[k]);
            }
        }
    }
}

proof fn lemma_key_insert_pos_range(keys: Seq<Seq<char>>, k: Seq<char>)
    ensures
        0 <= key_insert_pos(keys, k) <= keys.len(),
    decreases keys.len(),
{
    if keys.len() > 0 && !chars_lt(k, keys[0]) {
        lemma_key_insert_pos_range(keys.drop_first(), k);
    }
}

proof fn lemma_name_keys_cover(recs: Seq<RecordView>)
    ensures
        forall|j: int| 0 <= j < recs.len() ==> name_keys(recs).contains(name_norm(#[trigger] recs[j].skill_name)),
    decreases recs.len(),
{
    if recs.len() > 0 {
        let rest = recs.drop_last();
        lemma_name_keys_cover(rest);
        let prev = name_keys(rest);
        let k = name_norm(recs.last().skill_name);
        let out = name_keys(recs);
        if !prev.contains(k) {
            let pos = key_insert_pos(prev, k);
            lemma_key_insert_pos_range(prev, k);
            assert(out[pos] == k);
            assert forall|x: Seq<char>| prev.contains(x) implies out.contains(x) by {
                let i = choose|i: int| 0 <= i < prev.len() && prev[i] == x;
                if i < pos {
                    assert(out[i] == x);
                } else {
                    assert(out[i + 1] == x);
                }
            }
        }
        assert forall|j: int| 0 <= j < recs.len() implies out.contains(name_norm(#[trigger] recs[j].skill_name)) by {
            if j < rest.len() {
                assert(rest[j] == recs[j]);
                assert(prev.contains(name_norm(rest[j].skill_name)));
            } else {
                assert(recs[j] == recs.last());
            }
        }
    }
}

proof fn lemma_with_name_members(recs: Seq<RecordView>, k: Seq<char>)
    ensures
        forall|i: int|
            0 <= i < with_name(recs, k).len() ==> exists|j: int|
                0 <= j < recs.len() && recs[j] == #[trigger] with_name(recs, k)[i] && name_norm(
                    recs[j].skill_name,
                ) == k,
        forall|j: int|
            0 <= j < recs.len() && name_norm(recs[j].skill_name) == k ==> with_name(recs, k).contains(
                #[trigger] recs[j],
            ),
    decreases recs.len(),
{
    if recs.len() > 0 {
        let rest = recs.drop_last();
        lemma_with_name_members(rest, k);
        let prev = with_name(rest, k);
        let out = with_name(recs, k);
        assert forall|i: int| 0 <= i < out.len() implies exists|j: int|
            0 <= j < recs.len() && recs[j] == #[trigger] out[i] && name_norm(recs[j].skill_name) == k by {
            if i < prev.len() {
                assert(out[i] == prev[i]);
                let j = choose|j: int| 0 <= j < rest.len() && rest[j] == prev[i] && name_norm(rest[j].skill_name) == k;
                assert(recs[j] == rest[j]);
            } else {
                assert(recs[recs.len() - 1] == out[i]);
            }
        }
        assert forall|j: int| 0 <= j < recs.len() && name_norm(recs[j].skill_name) == k implies out.contains(
            #[trigger] recs[j],
        ) by {
            if j < rest.len() {
                assert(rest[j] == recs[j]);
                assert(prev.contains(rest[j]));
                let i = choose|i: int| 0 <= i < prev.len() && prev[i] == rest[j];
                assert(out[i] == prev[i]);
            } else {
                assert(out[out.len() - 1] == recs[j]);
            }
        }
    }
}

proof fn lemma_with_name_shared(recs: Seq<RecordView>, m: int)
    requires
        0 <= m < recs.len(),
    ensures
        with_name(recs, name_norm(recs[m].skill_name)).len() > 1 <==> exists|n: int|
            0 <= n < recs.len() && n != m && name_norm(#[trigger] recs[n].skill_name) == name_norm(
                recs[m].skill_name,
            ),
    decreases recs.len(),
{
    let k = name_norm(recs[m].skill_name);
    let rest = recs.drop_last();
    let last = recs.len() - 1;
    let x = recs[last];
    lemma_with_name_members(rest, k);
    let prev = with_name(rest, k);
    if m == last {
        if prev.len() >= 1 {
            let j = choose|j: int| 0 <= j < rest.len() && rest[j] == prev[0] && name_norm(rest[j].skill_name) == k;
            assert(recs[j] == rest[j]);
        }
        if exists|n: int| 0 <= n < recs.len() && n != m && name_norm(#[trigger] recs[n].skill_name) == k {
            let n = choose|n: int| 0 <= n < recs.len() && n != m && name_norm(#[trigger] recs[n].skill_name) == k;
            assert(rest[n] == recs[n]);
            assert(prev.contains(rest[n]));
        }
    } else {
        assert(rest[m] == recs[m]);
        lemma_with_name_shared(rest, m);
        assert(prev.contains(rest[m]));
        if name_norm(x.skill_name) == k {
            assert(recs[last] == x);
        } else {
            if exists|n: int| 0 <= n < recs.len() && n != m && name_norm(#[trigger] recs[n].skill_name) == k {
                let n = choose|n: int| 0 <= n < recs.len() && n != m && name_norm(#[trigger] recs[n].skill_name) == k;
                assert(n != last);
                assert(rest[n] == recs[n]);
            }
            if exists|n: int| 0 <= n < rest.len() && n != m && name_norm(#[trigger] rest[n].skill_name) == k {
                let n = choose|n: int| 0 <= n < rest.len() && n != m && name_norm(#[trigger] rest[n].skill_name) == k;
                assert(rest[n] == recs[n]);
            }
        }
    }
}

proof fn lemma_dup_findings_cover(keys: Seq<Seq<char>>, recs: Seq<RecordView>, t: int, r: RecordView)
    requires
        0 <= t < keys.len(),
        with_name(recs, keys[t]).len() > 1,
        with_name(recs, keys[t]).contains(r),
    ensures
        duplicate_findings(keys, recs).contains(dup_finding(r)),
    decreases keys.len(),
{
    let rest = keys.drop_last();
    let prev = duplicate_findings(rest, recs);
    let out = duplicate_findings(keys, recs);
    if t == keys.len() - 1 {
        let same = with_name(recs, keys.last());
        let block = same.map_values(|x: RecordView| dup_finding(x));
        let i = choose|i: int| 0 <= i < same.len() && same[i] == r;
        assert(out == prev + block);
        assert(out[prev.len() + i] == block[i]);
    } else {
        assert(rest[t] == keys[t]);
        lemma_dup_findings_cover(rest, recs, t, r);
        let i = choose|i: int| 0 <= i < prev.len() && prev[i] == dup_finding(r);
        assert(out[i] == prev[i]);
    }
}

proof fn lemma_dup_findings_from(keys: Seq<Seq<char>>, recs: Seq<RecordView>, i: int)
    requires
        0 <= i < duplicate_findings(keys, recs).len(),
    ensures
        exists|r: RecordView|
            with_name(recs, name_norm(r.skill_name)).len() > 1 && with_name(recs, name_norm(r.skill_name)).contains(r)
                && duplicate_findings(keys, recs)[i] == #[trigger] dup_finding(r),
    decreases keys.len(),
{
    let rest = keys.drop_last();
    let prev = duplicate_findings(rest, recs);
    let out = duplicate_findings(keys, recs);
    if i < prev.len() {
        lemma_dup_findings_from(rest, recs, i);
        assert(out[i] == prev[i]);
    } else {
        let k = keys.last();
        let same = with_name(recs, k);
        assert(same.len() > 1);
        let block = same.map_values(|x: RecordView| dup_finding(x));
        assert(out == prev + block);
        let j = i - prev.len();
        assert(out[i] == block[j]);
        lemma_with_name_members(recs, k);
        let jj = choose|jj: int| 0 <= jj < recs.len() && recs[jj] == #[trigger] same[j] && name_norm(recs[jj].skill_name) == k;
        assert(same.contains(same[j]));
        assert(block[j] == dup_finding(same[j]));
        assert(name_norm(same[j].skill_name) == k);
    }
}

/// Duplicate names are flagged exactly: a record gets a
/// `duplicate_skill_name` finding when, and only when, another record has
/// the same trimmed, lowercased name.
pub proof fn lemma_duplicate_iff(recs: Seq<RecordView>, m: int)
    requires
        0 <= m < recs.len(),
    ensures
        duplicate_findings(name_keys(recs), recs).contains(dup_finding(recs[m])) <==> exists|n: int|
            0 <= n < recs.len() && n != m && name_norm(#[trigger] recs[n].skill_name) == name_norm(
                recs[m].skill_name,
            ),
{
    let keys = name_keys(recs);
    let k = name_norm(recs[m].skill_name);
    let df = duplicate_findings(keys, recs);
    lemma_with_name_shared(recs, m);
    lemma_with_name_members(recs, k);
    if exists|n: int| 0 <= n < recs.len() && n != m && name_norm(#[trigger] recs[n].skill_name) == k {
        lemma_name_keys_cover(recs);
        assert(keys.contains(name_norm(recs[m].skill_name)));
        let t = choose|t: int| 0 <= t < keys.len() && keys[t] == k;
        assert(with_name(recs, k).contains(recs[m]));
        lemma_dup_findings_cover(keys, recs, t, recs[m]);
    }
    if df.contains(dup_finding(recs[m])) {
        let i = choose|i: int| 0 <= i < df.len() && df[i] == dup_finding(recs[m]);
        lemma_dup_findings_from(keys, recs, i);
        let r = choose|r: RecordView|
            with_name(recs, name_norm(r.skill_name)).len() > 1 && with_name(recs, name_norm(r.skill_name)).contains(r)
                && df[i] == #[trigger] dup_finding(r);
        let k2 = name_norm(r.skill_name);
        let pre = "duplicate skillName detected: "@;
        assert(dup_finding(r).message == pre + r.skill_name);
        assert((pre + r.skill_name).skip(pre.len() as int) =~= r.skill_name);
        assert((pre + recs[m].skill_name).skip(pre.len() as int) =~= recs[m].skill_name);
        assert(r.skill_name == recs[m].skill_name);
        assert(k2 == k);
        lemma_with_name_members(recs, k2);
        let ii = choose|ii: int| 0 <= ii < with_name(recs, k2).len() && with_name(recs, k2)[ii] == r;
        let j = choose|j: int| 0 <= j < recs.len() && recs[j] == #[trigger] with_name(recs, k2)[ii] && name_norm(recs[j].skill_name) == k2;
        if j != m {
            assert(name_norm(recs[j].skill_name) == k);
        }
    }
}

proof fn lemma_record_findings_not_dup(recs: Seq<RecordView>, checks: Seq<CheckView>)
    ensures
        forall|i: int|
            0 <= i < all_record_findings(recs, checks).len() ==> (#[trigger] all_record_findings(
                recs,
                checks,
            )[i]).code != "duplicate_skill_name"@,
    decreases recs.len(),
{
    reveal_strlit("duplicate_skill_name");
    reveal_strlit("missing_skill_file");
    reveal_strlit("invalid_frontmatter");
    reveal_strlit("generic_group");
    if recs.len() > 0 {
        lemma_record_findings_not_dup(recs.drop_last(), checks.drop_last());
        let a = all_record_findings(recs.drop_last(), checks.drop_last());
        let b = record_findings(recs.last(), checks.last());
        let g = generic_findings(recs.last());
        assert("duplicate_skill_name"@.len() == 20);
        assert("missing_skill_file"@.len() == 18);
        assert("invalid_frontmatter"@.len() == 19);
        assert("generic_group"@.len() == 13);
        assert forall|j: int| 0 <= j < g.len() implies (#[trigger] g[j]).code == "generic_group"@ by {}
        assert forall|i: int| 0 <= i < b.len() implies (#[trigger] b[i]).code != "duplicate_skill_name"@ by {
            match checks.last() {
                CheckView::Fields(n, d) => {
                    let head: Seq<FindingView> = if field_present(n) && field_present(d) {
                        Seq::empty()
                    } else {
                        seq![finding(recs.last(), "invalid_frontmatter"@, "blocked"@, "frontmatter missing required name/description"@)]
                    };
                    assert(b == head + g);
                    if i >= head.len() {
                        assert(b[i] == g[i - head.len()]);
                    }
                },
                CheckView::Invalid(msg) => {
                    let head = seq![finding(recs.last(), "invalid_frontmatter"@, "blocked"@, msg)];
                    assert(b == head + g);
                    if i >= 1 {
                        assert(b[i] == g[i - 1]);
                    }
                },
                _ => {},
            }
        }
        assert forall|i: int| 0 <= i < (a + b).len() implies (#[trigger] (a + b)[i]).code
            != "duplicate_skill_name"@ by {
            if i < a.len() {
                assert((a + b)[i] == a[i]);
            } else {
                assert((a + b)[i] == b[i - a.len()]);
            }
        }
    }
}

/// In a validation, a record is reported with a `duplicate_skill_name`
/// finding exactly when another checked record has the same trimmed,
/// lowercased name.
pub proof fn lemma_validation_flags_duplicates(recs: Seq<RecordView>, checks: Seq<CheckView>, m: int)
    requires
        0 <= m < recs.len(),
    ensures
        match spec_validation(recs, checks) {
            Ok(v) => v.issues.contains(dup_finding(recs[m])) <==> exists|n: int|
                0 <= n < recs.len() && n != m && name_norm(#[trigger] recs[n].skill_name) == name_norm(
                    recs[m].skill_name,
                ),
            Err(_) => true,
        },
{
    lemma_duplicate_iff(recs, m);
    lemma_record_findings_not_dup(recs, checks);
    let a = all_record_findings(recs, checks);
    let b = duplicate_findings(name_keys(recs), recs);
    let f = dup_finding(recs[m]);
    reveal_strlit("duplicate_skill_name");
    if (a + b).contains(f) {
        let i = choose|i: int| 0 <= i < (a + b).len() && (a + b)[i] == f;
        if i < a.len() {
            assert((a + b)[i] == a[i]);
        } else {
            assert((a + b)[i] == b[i - a.len()]);
        }
    }
    if b.contains(f) {
        let i = choose|i: int| 0 <= i < b.len() && b[i] == f;
        assert((a + b)[a.len() + i] == b[i]);
    }
}

/// The skill files a cleaning validation deletes the packages of: the path
/// of every blocked finding, each once, in the order of the findings.
pub open spec fn clean_targets(issues: Seq<FindingView>) -> Seq<Seq<char>>
    decreases issues.len(),
{
    if issues.len() == 0 {
        Seq::empty()
    } else {
        let prev = clean_targets(issues.drop_last());
        let f = issues.last();
        if f.severity == "blocked"@ && !prev.contains(f.path) {
            prev.push(f.path)
        } else {
            prev
        }
    }
}

pub fn skills_to_clean(issues: &Vec<SkillValidationIssue>) -> (r: Vec<String>)
    ensures
        r@.map_values(|p: String| p@) == clean_targets(findings_view(issues@)),
{
    let ghost fv = findings_view(issues@);
    let blocked = chars_of("blocked");
    let mut out: Vec<String> = Vec::new();
    let mut i: usize = 0;
    while i < issues.len()
        invariant
            i <= issues@.len(),
            fv == findings_view(issues@),
            blocked@ == "blocked"@,
            out@.map_values(|p: String| p@) == clean_targets(fv.take(i as int)),
        decreases issues.len() - i,
    {
        let ghost prev = out@.map_values(|p: String| p@);
        assert(fv.take(i + 1).drop_last() =~= fv.take(i as int));
        assert(fv.take(i + 1).last() == issues@[i as int]@);
        let path = chars_of(issues[i].path.as_str());
        if chars_eq(&chars_of(issues[i].severity.as_str()), &blocked) {
            let mut seen = false;
            let mut j: usize = 0;
            while j < out.len()
                invariant
                    j <= out@.len(),
                    prev == out@.map_values(|p: String| p@),
                    seen == exists|k: int| 0 <= k < j && prev[k] == path@,
                decreases out.len() - j,
            {
                assert(prev[j as int] == out@[j as int]@);
                if chars_eq(&chars_of(out[j].as_str()), &path) {
                    seen = true;
                }
                j = j + 1;
            }
            assert(seen == prev.contains(path@));
            if !seen {
                out.push(string_of(&path));
                assert(out@.map_values(|p: String| p@) =~= prev.push(path@));
            }
        }
        i = i + 1;
    }
    assert(fv.take(issues@.len() as int) =~= fv);
    out
}

/// A validation either fails on an unreadable file, or grades every finding
/// as blocked or needing review and no other way, and passes no skill that a
/// finding names.
pub proof fn lemma_validation_grades(recs: Seq<RecordView>, checks: Seq<CheckView>)
    ensures
        match spec_validation(recs, checks) {
            Ok(v) => {
                &&& v.blocked.len() + v.review_required.len() == v.issues.len()
                &&& forall|k: int|
                    0 <= k < v.issues.len() ==> (#[trigger] v.issues[k]).severity == "blocked"@
                        || v.issues[k].severity == "review_required"@
                &&& forall|k: int|
                    0 <= k < v.passed.len() ==> !mentions(v.blocked, (#[trigger] v.passed[k]).skill_id)
                        && !mentions(v.review_required, v.passed[k].skill_id)
            },
            Err(e) => first_unreadable(checks) == Some(e),
        },
{
    match first_unreadable(checks) {
        Some(_) => {},
        None => {
            let a = all_record_findings(recs, checks);
            let b = duplicate_findings(name_keys(recs), recs);
            lemma_all_record_findings_graded(recs, checks);
            lemma_duplicate_findings_graded(name_keys(recs), recs);
            assert forall|i: int| 0 <= i < (a + b).len() implies (#[trigger] (a + b)[i]).severity
                == "blocked"@ || (a + b)[i].severity == "review_required"@ by {
                if i < a.len() {
                    assert((a + b)[i] == a[i]);
                } else {
                    assert((a + b)[i] == b[i - a.len()]);
                }
            }
            lemma_severity_split(a + b);
            lemma_passed_unflagged(
                recs,
                with_severity(a + b, "blocked"@),
                with_severity(a + b, "review_required"@),
            );
        },
    }
}

} // verus!
