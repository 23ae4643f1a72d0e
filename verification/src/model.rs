//! The records that the registry, the search and the tools exchange.
//!
//! Times that the stored JSON writes as `f64` milliseconds are held here as
//! the bit pattern of that `f64` (`f64::to_bits`), which converts both ways
//! without loss.

use vstd::prelude::*;

verus! {

#[derive(Debug, Clone, PartialEq, Eq)]
pub struct SkillGroupRecord {
    pub group: String,
    pub group_description: String,
}

/// A group of the catalog in `config/groups.json`.
#[derive(Debug, Clone, PartialEq, Eq)]
pub struct ManagedGroupRecord {
    pub group: String,
    pub group_description: String,
    pub keywords: Vec<String>,
    pub aliases: Vec<String>,
    pub source: String,
}

/// The group source that a catalog entry without one gets.
pub fn default_group_source() -> (s: String)
    ensures
        s@ == "builtin"@,
{
    String::from_str("builtin")
}

#[derive(Debug, Clone, PartialEq, Eq)]
pub struct GroupSkillIndexEntry {
    pub skill_id: String,
    pub skill_name: String,
    pub description: String,
    pub keywords: Vec<String>,
    pub skill_path: String,
}

/// One indexed skill.
#[derive(Debug, Clone, PartialEq, Eq)]
pub struct SkillRecord {
    pub skill_id: String,
    pub skill_name: String,
    pub description: String,
    pub group: String,
    pub group_description: String,
    pub keywords: Vec<String>,
    pub skill_path: String,
    pub updated_at_ms_bits: u64,
    pub status: String,
}

/// The contents of a package's `meta.json`.
#[derive(Debug, Clone, PartialEq, Eq)]
pub struct SkillMeta {
    pub skill_id: String,
    pub skill_name: String,
    pub description: String,
    pub group: String,
    pub group_description: String,
    pub keywords: Vec<String>,
    pub updated_at_ms_bits: u64,
    pub status: String,
}

#[derive(Debug, Clone, PartialEq, Eq)]
pub struct GroupListItem {
    pub group: String,
    pub group_description: String,
}

#[derive(Debug, Clone, PartialEq, Eq)]
pub struct GroupSkillsResult {
    pub group: String,
    pub group_description: String,
    pub skills: Vec<GroupSkillIndexEntry>,
}

/// What parsing one `SKILL.md` yields.
#[derive(Debug, Clone, PartialEq, Eq)]
pub struct ParsedSkill {
    pub skill_name: String,
    pub description: String,
    pub group: String,
    pub group_description: String,
    pub keywords: Vec<String>,
    pub skill_path: String,
    pub updated_at_ms_bits: u64,
}

#[derive(Debug, Clone, PartialEq, Eq)]
pub struct RegistryIssue {
    pub path: String,
    pub message: String,
}

#[derive(Debug, Clone, PartialEq, Eq)]
pub struct SkillInstallEntry {
    pub source_path: String,
    pub skill_id: String,
    pub installed_path: String,
    pub status: String,
}

#[derive(Debug, Clone, PartialEq, Eq)]
pub struct SkillInstallFailure {
    pub source_path: String,
    pub status: String,
    pub message: String,
}

#[derive(Debug, Clone, PartialEq, Eq)]
pub struct SkillNeedsClassification {
    pub skill_id: String,
    pub source_path: String,
    pub description: String,
}

#[derive(Debug, Clone, PartialEq, Eq)]
pub struct SkillInstallSkipped {
    pub source_path: String,
    pub status: String,
    pub reason: String,
}

#[derive(Debug, Clone, PartialEq, Eq)]
pub struct SkillInstallResult {
    pub installed: Vec<SkillInstallEntry>,
    pub skipped: Vec<SkillInstallSkipped>,
    pub failed: Vec<SkillInstallFailure>,
    pub needs_classification: Vec<SkillNeedsClassification>,
    pub classification_hint: Option<String>,
}

#[derive(Debug, Clone, PartialEq, Eq)]
pub struct SkillValidationIssue {
    pub skill_id: Option<String>,
    pub path: String,
    pub code: String,
    pub severity: String,
    pub message: String,
}

#[derive(Debug, Clone, PartialEq, Eq)]
pub struct SkillValidationPassed {
    pub skill_id: String,
    pub skill_path: String,
}

#[derive(Debug, Clone, PartialEq, Eq)]
pub struct SkillValidationResult {
    pub passed: Vec<SkillValidationPassed>,
    pub review_required: Vec<SkillValidationIssue>,
    pub blocked: Vec<SkillValidationIssue>,
    pub issues: Vec<SkillValidationIssue>,
}

#[derive(Debug, Clone, PartialEq, Eq)]
pub struct GroupCreateResult {
    pub action: String,
    pub group: ManagedGroupRecord,
}

#[derive(Debug, Clone, PartialEq, Eq)]
pub struct GroupUpdateResult {
    pub action: String,
    pub previous_group: String,
    pub group: ManagedGroupRecord,
}

#[derive(Debug, Clone, PartialEq, Eq)]
pub struct GroupDeleteResult {
    pub action: String,
    pub group: String,
}

/// One hit of `search_skills`.
#[derive(Debug, Clone, PartialEq, Eq)]
pub struct SkillSearchResult {
    pub skill_id: String,
    pub skill_name: String,
    pub description: String,
    pub group: String,
    pub score: i64,
    pub reasons: Vec<String>,
}

#[derive(Debug, Clone, PartialEq, Eq)]
pub struct WatcherStatus {
    pub running: bool,
    pub last_event_at_ms: Option<u64>,
    pub last_error: Option<String>,
}

#[derive(Debug, Clone, PartialEq, Eq)]
pub struct ShelfStatus {
    pub groups_count: usize,
    pub skills_count: usize,
    pub import_count: usize,
    pub index_updated_at: Option<u64>,
    pub watcher_status: WatcherStatus,
    pub issue_count: usize,
}

#[derive(Debug, Clone, PartialEq, Eq)]
pub struct ReclassifyResult {
    pub skill_id: String,
    pub skill_name: String,
    pub from_group: String,
    pub to_group: String,
    pub status: String,
    pub message: String,
}

#[derive(Debug, Clone, PartialEq, Eq)]
pub struct SkillCleanEntry {
    pub skill_id: String,
    pub path: String,
    pub code: String,
    pub message: String,
}

#[derive(Debug, Clone, PartialEq, Eq)]
pub struct SkillCleanResult {
    pub deleted: Vec<SkillCleanEntry>,
    pub remaining: Vec<SkillValidationIssue>,
}

// ---------------------------------------------------------------------------
// Mathematical views
// ---------------------------------------------------------------------------

/// The views of a list of strings.
pub open spec fn strings_view(v: Seq<String>) -> Seq<Seq<char>> {
    v.map_values(|s: String| s@)
}

/// A skill record as plain sequences.
#[verifier::ext_equal]
pub struct RecordView {
    pub skill_id: Seq<char>,
    pub skill_name: Seq<char>,
    pub description: Seq<char>,
    pub group: Seq<char>,
    pub group_description: Seq<char>,
    pub keywords: Seq<Seq<char>>,
    pub skill_path: Seq<char>,
    pub updated_at_ms_bits: u64,
    pub status: Seq<char>,
}

impl View for SkillRecord {
    type V = RecordView;

    open spec fn view(&self) -> RecordView {
        RecordView {
            skill_id: self.skill_id@,
            skill_name: self.skill_name@,
            description: self.description@,
            group: self.group@,
            group_description: self.group_description@,
            keywords: strings_view(self.keywords@),
            skill_path: self.skill_path@,
            updated_at_ms_bits: self.updated_at_ms_bits,
            status: self.status@,
        }
    }
}

pub open spec fn records_view(v: Seq<SkillRecord>) -> Seq<RecordView> {
    v.map_values(|r: SkillRecord| r@)
}

/// A search hit as plain sequences.
#[verifier::ext_equal]
pub struct HitView {
    pub skill_id: Seq<char>,
    pub skill_name: Seq<char>,
    pub description: Seq<char>,
    pub group: Seq<char>,
    pub score: i64,
    pub reasons: Seq<Seq<char>>,
}

impl View for SkillSearchResult {
    type V = HitView;

    open spec fn view(&self) -> HitView {
        HitView {
            skill_id: self.skill_id@,
            skill_name: self.skill_name@,
            description: self.description@,
            group: self.group@,
            score: self.score,
            reasons: strings_view(self.reasons@),
        }
    }
}

pub open spec fn hits_view(v: Seq<SkillSearchResult>) -> Seq<HitView> {
    v.map_values(|r: SkillSearchResult| r@)
}

/// A catalog group as plain sequences.
pub struct ManagedGroupView {
    pub group: Seq<char>,
    pub group_description: Seq<char>,
    pub keywords: Seq<Seq<char>>,
    pub aliases: Seq<Seq<char>>,
    pub source: Seq<char>,
}

impl View for ManagedGroupRecord {
    type V = ManagedGroupView;

    open spec fn view(&self) -> ManagedGroupView {
        ManagedGroupView {
            group: self.group@,
            group_description: self.group_description@,
            keywords: strings_view(self.keywords@),
            aliases: strings_view(self.aliases@),
            source: self.source@,
        }
    }
}

pub open spec fn groups_view(v: Seq<ManagedGroupRecord>) -> Seq<ManagedGroupView> {
    v.map_values(|g: ManagedGroupRecord| g@)
}

/// A parsed skill as plain sequences.
#[verifier::ext_equal]
pub struct ParsedView {
    pub skill_name: Seq<char>,
    pub description: Seq<char>,
    pub group: Seq<char>,
    pub group_description: Seq<char>,
    pub keywords: Seq<Seq<char>>,
    pub skill_path: Seq<char>,
    pub updated_at_ms_bits: u64,
}

impl View for ParsedSkill {
    type V = ParsedView;

    open spec fn view(&self) -> ParsedView {
        ParsedView {
            skill_name: self.skill_name@,
            description: self.description@,
            group: self.group@,
            group_description: self.group_description@,
            keywords: strings_view(self.keywords@),
            skill_path: self.skill_path@,
            updated_at_ms_bits: self.updated_at_ms_bits,
        }
    }
}

/// An entry of a group's skill list as plain sequences.
#[verifier::ext_equal]
pub struct EntryView {
    pub skill_id: Seq<char>,
    pub skill_name: Seq<char>,
    pub description: Seq<char>,
    pub keywords: Seq<Seq<char>>,
    pub skill_path: Seq<char>,
}

impl View for GroupSkillIndexEntry {
    type V = EntryView;

    open spec fn view(&self) -> EntryView {
        EntryView {
            skill_id: self.skill_id@,
            skill_name: self.skill_name@,
            description: self.description@,
            keywords: strings_view(self.keywords@),
            skill_path: self.skill_path@,
        }
    }
}

pub open spec fn entries_view(v: Seq<GroupSkillIndexEntry>) -> Seq<EntryView> {
    v.map_values(|e: GroupSkillIndexEntry| e@)
}

/// A group of the group list as plain sequences.
pub struct ItemView {
    pub group: Seq<char>,
    pub group_description: Seq<char>,
}

impl View for GroupListItem {
    type V = ItemView;

    open spec fn view(&self) -> ItemView {
        ItemView { group: self.group@, group_description: self.group_description@ }
    }
}

pub open spec fn items_view(v: Seq<GroupListItem>) -> Seq<ItemView> {
    v.map_values(|g: GroupListItem| g@)
}

/// A registry issue as plain sequences.
pub struct IssueView {
    pub path: Seq<char>,
    pub message: Seq<char>,
}

impl View for RegistryIssue {
    type V = IssueView;

    open spec fn view(&self) -> IssueView {
        IssueView { path: self.path@, message: self.message@ }
    }
}

pub open spec fn issues_view(v: Seq<RegistryIssue>) -> Seq<IssueView> {
    v.map_values(|i: RegistryIssue| i@)
}

/// A group's skill listing as plain sequences.
pub struct GroupSkillsView {
    pub group: Seq<char>,
    pub group_description: Seq<char>,
    pub skills: Seq<EntryView>,
}

impl View for GroupSkillsResult {
    type V = GroupSkillsView;

    open spec fn view(&self) -> GroupSkillsView {
        GroupSkillsView {
            group: self.group@,
            group_description: self.group_description@,
            skills: entries_view(self.skills@),
        }
    }
}

/// A governance finding as plain sequences.
pub struct FindingView {
    pub skill_id: Option<Seq<char>>,
    pub path: Seq<char>,
    pub code: Seq<char>,
    pub severity: Seq<char>,
    pub message: Seq<char>,
}

pub open spec fn opt_string_view(o: Option<String>) -> Option<Seq<char>> {
    match o {
        Some(s) => Some(s@),
        None => None,
    }
}

impl View for SkillValidationIssue {
    type V = FindingView;

    open spec fn view(&self) -> FindingView {
        FindingView {
            skill_id: opt_string_view(self.skill_id),
            path: self.path@,
            code: self.code@,
            severity: self.severity@,
            message: self.message@,
        }
    }
}

pub open spec fn findings_view(v: Seq<SkillValidationIssue>) -> Seq<FindingView> {
    v.map_values(|i: SkillValidationIssue| i@)
}

/// A skill that passed validation as plain sequences.
pub struct PassedView {
    pub skill_id: Seq<char>,
    pub skill_path: Seq<char>,
}

impl View for SkillValidationPassed {
    type V = PassedView;

    open spec fn view(&self) -> PassedView {
        PassedView { skill_id: self.skill_id@, skill_path: self.skill_path@ }
    }
}

pub open spec fn passed_view(v: Seq<SkillValidationPassed>) -> Seq<PassedView> {
    v.map_values(|p: SkillValidationPassed| p@)
}

/// A validation report as plain sequences.
pub struct ValidationView {
    pub passed: Seq<PassedView>,
    pub review_required: Seq<FindingView>,
    pub blocked: Seq<FindingView>,
    pub issues: Seq<FindingView>,
}

impl View for SkillValidationResult {
    type V = ValidationView;

    open spec fn view(&self) -> ValidationView {
        ValidationView {
            passed: passed_view(self.passed@),
            review_required: findings_view(self.review_required@),
            blocked: findings_view(self.blocked@),
            issues: findings_view(self.issues@),
        }
    }
}

} // verus!
