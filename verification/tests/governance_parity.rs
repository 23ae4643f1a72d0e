use skill_shelf::catalog::{moved_result, ReclassifyPlan};
use skill_shelf::config::{default_install_policy, storage_layout};
use skill_shelf::governance::{file_check_of, skills_to_clean, validate_records, FileCheck};
use skill_shelf::install::{
    accepts_raw_file, declares_name_and_description, markdown_package_check, build_classification_prompt, classification_hint, dedupe_installables,
    entry_decision, explicit_install_group, frontmatter_install_group, has_name_and_description,
    is_markdown_candidate, needs_classification, no_candidates_failure, source_decision,
    EntryDecision, InstallableKind, InstallableSource, SourceDecision,
};
use skill_shelf::model::{
    GroupCreateResult, GroupDeleteResult, GroupListItem, GroupUpdateResult, ManagedGroupRecord,
    ParsedSkill, RegistryIssue, SkillValidationIssue, SkillValidationResult,
};
use skill_shelf::registry::{ScannedSkill, SkillRegistry};

fn managed(group: &str, description: &str) -> ManagedGroupRecord {
    ManagedGroupRecord {
        group: group.to_string(),
        group_description: description.to_string(),
        keywords: vec![],
        aliases: vec![],
        source: "builtin".to_string(),
    }
}

fn skill(name: &str, group: &str, id: &str) -> ScannedSkill {
    ScannedSkill::Parsed {
        skill: ParsedSkill {
            skill_name: name.to_string(),
            description: format!("{name} description"),
            group: group.to_string(),
            group_description: group.to_string(),
            keywords: vec![],
            skill_path: format!("/hub/packages/{group}/{id}/SKILL.md"),
            updated_at_ms_bits: 0,
        },
        skill_id: id.to_string(),
    }
}

fn make_registry(scanned: Vec<ScannedSkill>) -> SkillRegistry {
    let mut registry = SkillRegistry::new(storage_layout("/hub"));
    registry.rebuild_from(
        vec![managed("engineering", "Engineering skills"), managed("general", "General skills")],
        scanned,
    );
    registry
}

fn fields(name: &str, description: &str) -> FileCheck {
    FileCheck::Fields { name: Some(name.to_string()), description: Some(description.to_string()) }
}

/// What reading each record's file found, by skill id.
fn check_for(skill_id: &str) -> FileCheck {
    match skill_id {
        "missing-later" => FileCheck::Missing,
        "invalid-later" => FileCheck::Invalid("missing frontmatter end".to_string()),
        "dup-a" => fields("Shared Name", "First duplicate record"),
        "dup-b" => fields("Shared Name", "Second duplicate record"),
        "general-skill" => fields("General Skill", "Generic group record"),
        _ => fields("YAML Multiline", "Valid multiline YAML description should pass governance."),
    }
}

fn validate(registry: &SkillRegistry, skill: Option<&str>) -> Result<SkillValidationResult, String> {
    let targets = registry.validation_targets(skill)?;
    let checks: Vec<FileCheck> = targets.iter().map(|r| check_for(&r.skill_id)).collect();
    validate_records(&targets, &checks)
}

#[test]
fn validate_skills_reports_missing_invalid_duplicate_and_generic_group_issues() {
    let registry = make_registry(vec![
        skill("Shared Name", "engineering", "dup-a"),
        skill("Shared Name", "engineering", "dup-b"),
        skill("General Skill", "general", "general-skill"),
        skill("Missing Later", "engineering", "missing-later"),
        skill("Invalid Later", "engineering", "invalid-later"),
        skill("YAML Multiline", "engineering", "yaml-multiline"),
    ]);

    let validation: SkillValidationResult = validate(&registry, None).unwrap();
    assert_eq!(validation.blocked.len(), 2);
    assert_eq!(validation.review_required.len(), 3);
    assert!(validation.issues.iter().any(|issue| issue.code == "missing_skill_file"));
    assert!(validation.issues.iter().any(|issue| issue.code == "invalid_frontmatter"));
    assert_eq!(
        validation.issues.iter().filter(|issue| issue.code == "duplicate_skill_name").count(),
        2
    );
    assert!(validation.issues.iter().any(|issue| issue.code == "generic_group"));
    assert!(!validation
        .issues
        .iter()
        .any(|issue| issue.skill_id.as_deref() == Some("yaml-multiline")));
    assert!(validation.passed.iter().any(|entry| entry.skill_id == "yaml-multiline"));

    let by_id = validate(&registry, Some("dup-a")).unwrap();
    assert_eq!(by_id.passed.len(), 1);

    let by_name = validate(&registry, Some("General Skill")).unwrap();
    assert_eq!(by_name.review_required.len(), 1);
    assert_eq!(by_name.review_required[0].code, "generic_group");

    let error = validate(&registry, Some("does-not-exist")).unwrap_err();
    assert!(error.contains("unknown skill: does-not-exist"));
}

#[test]
fn validation_findings_carry_their_messages() {
    let registry = make_registry(vec![
        skill("Shared Name", "engineering", "dup-a"),
        skill("shared name ", "engineering", "dup-b"),
    ]);
    let validation = validate(&registry, None).unwrap();
    assert_eq!(validation.issues.len(), 2);
    assert_eq!(validation.issues[0].message, "duplicate skillName detected: Shared Name");
    assert_eq!(validation.issues[1].message, "duplicate skillName detected: shared name ");
    assert_eq!(validation.issues[0].severity, "review_required");
    assert!(validation.passed.is_empty());
}

#[test]
fn validation_fails_on_an_unreadable_file() {
    let registry = make_registry(vec![skill("A", "engineering", "a"), skill("B", "engineering", "b")]);
    let targets = registry.validation_targets(None).unwrap();
    let checks = vec![FileCheck::Unreadable("permission denied".to_string()), FileCheck::Missing];
    assert_eq!(validate_records(&targets, &checks).unwrap_err(), "permission denied");
    let blank = vec![
        FileCheck::Fields { name: Some("  ".to_string()), description: Some("d".to_string()) },
        FileCheck::Fields { name: Some("B".to_string()), description: None },
    ];
    let result = validate_records(&targets, &blank).unwrap();
    assert_eq!(result.blocked.len(), 2);
    assert_eq!(result.blocked[0].message, "frontmatter missing required name/description");
}

#[test]
fn manage_group_supports_create_update_rename_and_delete_contracts() {
    let mut registry = make_registry(vec![]);

    let created: GroupCreateResult = registry.create_group(
        "custom-tools",
        "Custom tools",
        vec!["custom".into()],
        vec!["tools".into()],
    );
    assert_eq!(created.action, "created");
    assert_eq!(created.group.group, "custom-tools");
    assert_eq!(created.group.source, "custom");
    let names: Vec<String> = registry.managed_groups.iter().map(|g| g.group.clone()).collect();
    assert_eq!(names, vec!["custom-tools", "engineering", "general"]);

    let updated: GroupUpdateResult = registry
        .update_group(
            "custom-tools",
            Some("renamed-tools"),
            Some("Renamed tools"),
            Some(vec!["renamed".into()]),
            Some(vec!["toolbox".into()]),
        )
        .unwrap();
    assert_eq!(updated.action, "updated");
    assert_eq!(updated.previous_group, "custom-tools");
    assert_eq!(updated.group.group, "renamed-tools");
    assert_eq!(updated.group.group_description, "Renamed tools");
    assert_eq!(updated.group.aliases, vec!["toolbox".to_string()]);
    assert!(registry.managed_groups.iter().all(|g| g.group != "custom-tools"));

    let managed_groups = registry.managed_groups.clone();
    registry.rebuild_from(managed_groups.clone(), vec![skill("Occupied Skill", "renamed-tools", "occupied-skill")]);
    let err = registry.delete_group("renamed-tools").unwrap_err();
    assert!(err.contains("group is not empty: renamed-tools (1 skills)"));

    registry.rebuild_from(managed_groups, vec![]);
    let deleted: GroupDeleteResult = registry.delete_group("renamed-tools").unwrap();
    assert_eq!(deleted.action, "deleted");
    assert_eq!(deleted.group, "renamed-tools");
    assert!(registry.managed_groups.iter().all(|g| g.group != "renamed-tools"));

    assert_eq!(registry.delete_group("nope").unwrap_err(), "unknown group: nope");
    assert_eq!(
        registry.update_group("nope", None, None, None, None).unwrap_err(),
        "unknown group: nope"
    );
}

#[test]
fn registry_exposes_empty_managed_groups_and_rebuild_issues() {
    let mut registry = SkillRegistry::new(storage_layout("/hub"));
    registry.rebuild_from(
        vec![managed("engineering", "Engineering skills"), managed("general", "General skills")],
        vec![ScannedSkill::Failed(RegistryIssue {
            path: "/hub/packages/engineering/invalid-helper/SKILL.md".to_string(),
            message: "missing frontmatter end".to_string(),
        })],
    );

    let groups = registry.list_groups();
    assert_eq!(
        groups,
        vec![
            GroupListItem {
                group: "engineering".into(),
                group_description: "Engineering skills".into(),
            },
            GroupListItem { group: "general".into(), group_description: "General skills".into() },
        ]
    );

    let issues: Vec<RegistryIssue> = registry.list_issues();
    assert_eq!(issues.len(), 1);
    assert!(issues[0].path.contains("invalid-helper"));
}

#[test]
fn reclassify_plans_skip_move_or_refuse() {
    let registry = make_registry(vec![skill("Rust Helper", "engineering", "rust-helper")]);
    match registry.plan_reclassify("rust-helper", "engineering").unwrap() {
        ReclassifyPlan::Skip(result) => {
            assert_eq!(result.status, "skipped");
            assert_eq!(result.message, "skill is already in the target group");
        }
        other => panic!("unexpected plan {other:?}"),
    }
    match registry.plan_reclassify("Rust Helper", "general").unwrap() {
        ReclassifyPlan::Move(record) => {
            let moved = moved_result(&record, "general");
            assert_eq!(moved.status, "moved");
            assert_eq!(moved.message, "moved from engineering to general");
        }
        other => panic!("unexpected plan {other:?}"),
    }
    assert_eq!(
        registry.plan_reclassify("rust-helper", "design").unwrap_err(),
        "unknown target group: design. valid groups: engineering, general"
    );
    assert_eq!(registry.plan_reclassify("nope", "general").unwrap_err(), "unknown skill: nope");
}

#[test]
fn install_skills_requires_managed_groups_or_classifies_unlabeled_sources() {
    let groups = vec![managed("engineering", "Engineering skills")];
    assert_eq!(explicit_install_group(&groups, "x", Some(" engineering ")), Ok(Some("engineering".to_string())));
    let explicit = explicit_install_group(&groups, "x", Some("missing-group")).unwrap_err();
    assert!(explicit.contains("manage_group create"));
    assert_eq!(explicit_install_group(&groups, "x", Some("  ")), Ok(None));
    assert_eq!(
        explicit_install_group(&groups, "", Some("engineering")).unwrap_err(),
        "skill id is empty after normalization"
    );
    let frontmatter =
        frontmatter_install_group(&groups, InstallableKind::Package, Some("missing-group")).unwrap_err();
    assert!(frontmatter.contains("unknown group: missing-group"));
    assert_eq!(
        frontmatter_install_group(&groups, InstallableKind::Markdown, Some("engineering")),
        Ok(None)
    );
    let entry = needs_classification("unlabeled", "/in/unlabeled.md", Some("  Needs classification "));
    assert_eq!(entry.description, "Needs classification");
    let hint = classification_hint(&vec![entry], &groups).unwrap();
    assert!(hint.starts_with("Skill \"unlabeled\" needs group classification.\nDescription: Needs classification"));
    assert!(hint.contains("- **engineering**: Engineering skills"));
    assert!(hint.ends_with("for each skill listed above."));
    assert!(classification_hint(&vec![], &groups).is_none());
}

#[test]
fn install_skills_overwrites_destination_and_reports_no_installable_candidates() {
    let failure = no_candidates_failure("/in/empty");
    assert_eq!(failure.status, "failed");
    assert!(failure.message.contains("no installable skill package or raw markdown candidate found"));
}

#[test]
fn classification_prompt_lists_every_group() {
    let groups = vec![managed("a", "A things"), managed("b", "B things")];
    assert_eq!(
        build_classification_prompt("id", "desc", &groups),
        "Skill \"id\" needs group classification.\nDescription: desc\n\nAvailable groups:\n- **a**: A things\n- **b**: B things\n\nPlease call install_skills again with the most appropriate `group` parameter."
    );
}

#[test]
fn markdown_candidates_by_name() {
    assert!(is_markdown_candidate("notes.md"));
    assert!(is_markdown_candidate("Notes.MD"));
    assert!(!is_markdown_candidate("README.md"));
    assert!(!is_markdown_candidate("agent-list.md"));
    assert!(!is_markdown_candidate("notes.txt"));
    assert!(!is_markdown_candidate(".md"));
    assert!(is_markdown_candidate("a.b.md"));
    assert!(!is_markdown_candidate("md"));
    let policy = default_install_policy();
    assert!(!accepts_raw_file(&policy, "SKILL.md"));
    assert!(accepts_raw_file(&policy, "raw-markdown.md"));
    assert!(has_name_and_description(Some("A"), Some("B")));
    assert!(!has_name_and_description(Some("A"), Some(" ")));
    assert!(!has_name_and_description(None, Some("B")));
}

#[test]
fn sources_and_entries_are_classified() {
    let policy = default_install_policy();
    assert_eq!(source_decision(&policy, true, "SKILL.md", false), SourceDecision::PackageOfFile);
    assert_eq!(source_decision(&policy, true, "raw.md", false), SourceDecision::RawFile);
    assert_eq!(source_decision(&policy, true, "raw.txt", false), SourceDecision::Nothing);
    assert_eq!(source_decision(&policy, false, "pkg", true), SourceDecision::PackageDirectory);
    assert_eq!(source_decision(&policy, false, "dir", false), SourceDecision::Walk);
    assert_eq!(entry_decision(&policy, true, ".git", true), EntryDecision::Hidden);
    assert_eq!(entry_decision(&policy, true, "pkg", true), EntryDecision::PackageAndWalk);
    assert_eq!(entry_decision(&policy, true, "sub", false), EntryDecision::Walk);
    assert_eq!(entry_decision(&policy, false, "SKILL.md", false), EntryDecision::Ignore);
    assert_eq!(entry_decision(&policy, false, "x.md", false), EntryDecision::RawFile);
}

fn source(kind: InstallableKind, path: &str, id: &str) -> InstallableSource {
    InstallableSource { kind, source_path: path.to_string(), skill_id: id.to_string() }
}

#[test]
fn dedupe_prefers_packages_and_sorts_by_id() {
    let out = dedupe_installables(vec![
        source(InstallableKind::Markdown, "/in/b.md", "b"),
        source(InstallableKind::Markdown, "/in/a.md", "a"),
        source(InstallableKind::Package, "/in/b", "b"),
        source(InstallableKind::Package, "/in/x/b", "b"),
        source(InstallableKind::Markdown, "/in/a2.md", "a"),
    ]);
    assert_eq!(out.len(), 2);
    assert_eq!(out[0].source_path, "/in/a.md");
    assert_eq!(out[1].source_path, "/in/b");
    assert_eq!(out[1].kind, InstallableKind::Package);
}

fn issue(path: &str, severity: &str) -> SkillValidationIssue {
    SkillValidationIssue {
        skill_id: Some("x".to_string()),
        path: path.to_string(),
        code: "code".to_string(),
        severity: severity.to_string(),
        message: "message".to_string(),
    }
}

#[test]
fn cleaning_removes_each_blocked_skill_once() {
    let issues = vec![
        issue("/hub/packages/a/one/SKILL.md", "blocked"),
        issue("/hub/packages/a/two/SKILL.md", "review_required"),
        issue("/hub/packages/a/three/SKILL.md", "blocked"),
        issue("/hub/packages/a/one/SKILL.md", "blocked"),
    ];
    assert_eq!(
        skills_to_clean(&issues),
        vec!["/hub/packages/a/one/SKILL.md".to_string(), "/hub/packages/a/three/SKILL.md".to_string()]
    );
    assert!(skills_to_clean(&vec![issue("/p", "review_required")]).is_empty());
}

#[test]
fn skill_files_are_checked_from_their_text() {
    assert_eq!(
        file_check_of("---\nname: A\ndescription: B\n---\n"),
        FileCheck::Fields { name: Some("A".to_string()), description: Some("B".to_string()) }
    );
    assert_eq!(
        file_check_of("---\nname: A\n---\n"),
        FileCheck::Fields { name: Some("A".to_string()), description: None }
    );
    assert_eq!(file_check_of("plain"), FileCheck::Invalid("missing frontmatter start".to_string()));
    assert!(declares_name_and_description("---\nname: A\ndescription: B\n---\n"));
    assert!(!declares_name_and_description("---\nname: A\ndescription: \"  \"\n---\n"));
    assert!(!declares_name_and_description("plain"));
    assert_eq!(markdown_package_check("---\nname: A\ndescription: B\n---\n"), Ok(()));
    assert_eq!(
        markdown_package_check("---\nname: A\n---\n").unwrap_err(),
        "raw markdown candidate is missing required frontmatter name/description"
    );
}
