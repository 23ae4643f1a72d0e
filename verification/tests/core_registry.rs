use skill_shelf::config::storage_layout;
use skill_shelf::model::{GroupListItem, ManagedGroupRecord, ParsedSkill, RegistryIssue, SkillRecord};
use skill_shelf::parser::{
    field_text, frontmatter_block, frontmatter_field, parse_frontmatter_fields, parse_skill_fields, skill_header, FrontmatterError, FrontmatterValue,
    ParseSkillError,
};
use skill_shelf::registry::{sanitize_id, set_skill_group, ScannedSkill, SkillRegistry};
use skill_shelf::search::search_skills;

fn managed(group: &str, description: &str) -> ManagedGroupRecord {
    ManagedGroupRecord {
        group: group.to_string(),
        group_description: description.to_string(),
        keywords: vec![],
        aliases: vec![],
        source: "builtin".to_string(),
    }
}

fn parsed(name: &str, description: &str, group: &str, group_description: &str, id: &str) -> ScannedSkill {
    ScannedSkill::Parsed {
        skill: ParsedSkill {
            skill_name: name.to_string(),
            description: description.to_string(),
            group: group.to_string(),
            group_description: group_description.to_string(),
            keywords: vec![],
            skill_path: format!("/hub/packages/{group}/{id}/SKILL.md"),
            updated_at_ms_bits: 1000.0f64.to_bits(),
        },
        skill_id: id.to_string(),
    }
}

/// The shelf of the rebuild fixture: an engineering group with the Rust
/// helper, plus whatever else the test scanned.
fn fixture_registry(extra: Vec<ScannedSkill>) -> SkillRegistry {
    let mut registry = SkillRegistry::new(storage_layout("/hub"));
    let mut scanned = vec![parsed(
        "Rust Helper",
        "Helps with Rust code",
        "engineering",
        "Engineering skills",
        "rust-helper",
    )];
    scanned.extend(extra);
    registry.rebuild_from(vec![managed("engineering", "Engineering skills")], scanned);
    registry
}

#[test]
fn parse_skill_file_uses_yaml_frontmatter_and_ts_keyword_rules() {
    let parsed = parse_skill_fields(
        "  Quoted Name  ",
        "  Alpha,  beta，gamma、delta / epsilon   zeta  ",
        &vec![],
        8,
        Some("engineering"),
        "/tmp/SKILL.md".to_string(),
        0,
    )
    .unwrap();

    assert_eq!(parsed.skill_name, "Quoted Name");
    assert_eq!(parsed.description, "Alpha, beta，gamma、delta / epsilon zeta");
    assert_eq!(
        parsed.keywords,
        vec![
            "alpha".to_string(),
            "beta，gamma、delta".to_string(),
            "epsilon".to_string(),
            "zeta".to_string(),
        ]
    );
    assert_eq!(parsed.group, "engineering");
    assert_eq!(parsed.group_description, "engineering");
}

#[test]
fn parse_skill_fields_requires_name_and_description() {
    let missing_name = parse_skill_fields("  ", "desc", &vec![], 8, None, String::new(), 0);
    assert_eq!(missing_name, Err(ParseSkillError::MissingName));
    let missing_description = parse_skill_fields("Name", "   ", &vec![], 8, None, String::new(), 0);
    assert_eq!(missing_description, Err(ParseSkillError::MissingDescription));
}

#[test]
fn frontmatter_block_needs_both_fences() {
    assert_eq!(
        frontmatter_block("---\nname: a\ndescription: b\n---\nbody\n"),
        Ok("name: a\ndescription: b\n".to_string())
    );
    assert_eq!(frontmatter_block("name: a\n"), Err(FrontmatterError::MissingStart));
    assert_eq!(frontmatter_block("---\nname a\ndescription: broken\n"), Err(FrontmatterError::MissingEnd));
}

#[test]
fn registry_resolves_by_composite_id_bare_id_and_exact_name() {
    let registry = fixture_registry(vec![]);

    let by_composite = registry.get_by_id("engineering/rust-helper").unwrap();
    let by_bare = registry.get_by_id("rust-helper").unwrap();
    let by_name = registry.get_by_name("Rust Helper").unwrap();

    assert_eq!(by_composite.skill_id, "rust-helper");
    assert_eq!(by_bare.skill_id, "rust-helper");
    assert_eq!(by_name.skill_id, "rust-helper");
}

#[test]
fn names_match_trimmed_and_lowercased() {
    let registry = fixture_registry(vec![]);
    assert_eq!(registry.get_by_name("  rust HELPER ").unwrap().skill_id, "rust-helper");
    assert!(registry.get_by_name("Rust").is_none());
    assert!(registry.get_by_id("design/rust-helper").unwrap().group == "engineering");
    assert!(registry.get_by_id("design/other").is_none());
}

#[test]
fn registry_lists_related_skills_in_name_order_with_limit() {
    let registry = fixture_registry(vec![
        parsed("Zulu Helper", "Last related skill", "engineering", "Engineering skills", "zulu-helper"),
        parsed("Alpha Helper", "First related skill", "engineering", "Engineering skills", "alpha-helper"),
    ]);

    let related = registry.list_related_skills("rust-helper", 1);

    assert_eq!(related.len(), 1);
    assert_eq!(related[0].skill_name, "Alpha Helper");

    let all = registry.list_related_skills("rust-helper", 5);
    let names: Vec<&str> = all.iter().map(|e| e.skill_name.as_str()).collect();
    assert_eq!(names, vec!["Alpha Helper", "Zulu Helper"]);
    assert!(registry.list_related_skills("nope", 5).is_empty());
}

#[test]
fn registry_exposes_rebuild_issues_and_managed_groups() {
    let registry = fixture_registry(vec![ScannedSkill::Failed(RegistryIssue {
        path: "/hub/packages/engineering/invalid-helper/SKILL.md".to_string(),
        message: "missing frontmatter end".to_string(),
    })]);

    let issues: Vec<RegistryIssue> = registry.list_issues();
    assert_eq!(issues.len(), 1);
    assert!(issues[0].path.contains("invalid-helper"));

    let groups = registry.list_groups();
    assert_eq!(
        groups,
        vec![GroupListItem {
            group: "engineering".into(),
            group_description: "Engineering skills".into(),
        }]
    );
}

#[test]
fn rebuild_keeps_the_last_skill_of_a_key() {
    let registry = fixture_registry(vec![parsed(
        "Rust Helper Two",
        "Replaces the first",
        "engineering",
        "Engineering skills",
        "rust-helper",
    )]);
    let records = registry.list_skill_records();
    assert_eq!(records.len(), 1);
    assert_eq!(registry.size(), 1);
    assert_eq!(records[0].skill_name, "Rust Helper Two");
    assert_eq!(records[0].status, "ready");
}

#[test]
fn records_come_in_key_order_and_groups_include_record_groups() {
    let registry = fixture_registry(vec![
        parsed("Brand", "Brand design", "design", "Design work", "brand"),
        parsed("Alpha", "Alpha tool", "engineering", "Engineering skills", "alpha"),
    ]);
    let ids: Vec<String> = registry
        .list_skill_records()
        .iter()
        .map(|r: &SkillRecord| format!("{}/{}", r.group, r.skill_id))
        .collect();
    assert_eq!(ids, vec!["design/brand", "engineering/alpha", "engineering/rust-helper"]);
    let groups = registry.list_groups();
    assert_eq!(groups.len(), 2);
    assert_eq!(groups[0].group, "design");
    assert_eq!(groups[0].group_description, "Design work");
    let summaries = registry.browse_groups();
    assert_eq!(summaries[1].group, "engineering");
    assert_eq!(summaries[1].skill_count, 2);
}

#[test]
fn group_skills_filter_by_query_and_sort_by_name() {
    let registry = fixture_registry(vec![
        parsed("Zeta Tool", "Handles zeta rust things", "engineering", "Engineering skills", "zeta"),
        parsed("Beta Tool", "Python only", "engineering", "Engineering skills", "beta"),
    ]);
    let all = registry.list_group_skills("engineering", None).unwrap();
    let names: Vec<&str> = all.skills.iter().map(|e| e.skill_name.as_str()).collect();
    assert_eq!(names, vec!["Beta Tool", "Rust Helper", "Zeta Tool"]);
    assert_eq!(all.group_description, "Engineering skills");

    let rust = registry.list_group_skills("engineering", Some("  RUST  ")).unwrap();
    let names: Vec<&str> = rust.skills.iter().map(|e| e.skill_name.as_str()).collect();
    assert_eq!(names, vec!["Rust Helper", "Zeta Tool"]);

    let tokens = registry.list_group_skills("engineering", Some("python, zeta")).unwrap();
    assert_eq!(tokens.skills.len(), 2);

    let blank = registry.list_group_skills("engineering", Some("   ")).unwrap();
    assert_eq!(blank.skills.len(), 3);

    assert!(registry.list_group_skills("design", None).is_none());
    let (_, first) = registry.browse_group("engineering", None, 2).unwrap();
    assert_eq!(first.len(), 2);
    assert_eq!(registry.browse_group("design", None, 2).unwrap_err(), "unknown group: design");
}

#[test]
fn managed_groups_are_listed_by_name() {
    let mut registry = SkillRegistry::new(storage_layout("/hub"));
    registry.rebuild_from(
        vec![managed("zeta", "Z"), managed("alpha", "A"), managed("mid", "M")],
        vec![],
    );
    let names: Vec<String> = registry.list_managed_groups().into_iter().map(|g| g.group).collect();
    assert_eq!(names, vec!["alpha", "mid", "zeta"]);
}

#[test]
fn search_prefers_name_and_description_matches() {
    let records = vec![
        SkillRecord {
            skill_id: "rust-helper".into(),
            skill_name: "Rust Helper".into(),
            description: "Helps with Rust code".into(),
            group: "engineering".into(),
            group_description: "Engineering skills".into(),
            keywords: vec!["rust".into(), "code".into()],
            skill_path: "unused".into(),
            updated_at_ms_bits: 1.0f64.to_bits(),
            status: "ready".into(),
        },
        SkillRecord {
            skill_id: "visual-designer".into(),
            skill_name: "Visual Designer".into(),
            description: "Creates layouts".into(),
            group: "design".into(),
            group_description: "Design skills".into(),
            keywords: vec!["ui".into()],
            skill_path: "unused".into(),
            updated_at_ms_bits: 1.0f64.to_bits(),
            status: "ready".into(),
        },
    ];

    let results = search_skills(&records, "rust code", 8, &vec![None, None]);

    assert_eq!(results.len(), 1);
    assert_eq!(results[0].skill_id, "rust-helper");
    assert!(results[0].score > 0);
}

#[test]
fn no_match_query_returns_empty_results() {
    let records = vec![SkillRecord {
        skill_id: "rust-helper".into(),
        skill_name: "Rust Helper".into(),
        description: "Helps with Rust code".into(),
        group: "engineering".into(),
        group_description: "Engineering skills".into(),
        keywords: vec!["rust".into(), "code".into()],
        skill_path: "unused".into(),
        updated_at_ms_bits: 1.0f64.to_bits(),
        status: "ready".into(),
    }];

    let results = search_skills(&records, "totally unrelated astronomy", 8, &vec![None]);

    assert!(results.is_empty());
}

#[test]
fn package_ids_are_sanitized() {
    assert_eq!(sanitize_id("My Skill!!"), "my-skill");
    assert_eq!(sanitize_id("--Rust_Helper--"), "rust_helper");
    assert_eq!(sanitize_id("a  b//c"), "a-b-c");
    assert_eq!(sanitize_id("!!!"), "");
}

#[test]
fn skill_group_rewrites_frontmatter() {
    assert_eq!(
        set_skill_group("---\nname: A\ngroup: old\ndescription: d\n---\nbody", "new").unwrap(),
        "---\n\nname: A\ngroup: new\ndescription: d\n---\nbody"
    );
    assert_eq!(
        set_skill_group("---\nname: A\n---\nbody", "new").unwrap(),
        "---\n\nname: A\ngroup: new\n---\nbody"
    );
    assert_eq!(set_skill_group("plain body", "g").unwrap(), "---\ngroup: g\n---\nplain body");
    assert!(set_skill_group("---\nname: A\n", "g").is_none());
}

#[test]
fn frontmatter_fields_read_as_text_last_key_winning() {
    assert_eq!(field_text(&FrontmatterValue::Null), "");
    assert_eq!(field_text(&FrontmatterValue::Bool(true)), "true");
    assert_eq!(field_text(&FrontmatterValue::Number("42".to_string())), "42");
    assert_eq!(field_text(&FrontmatterValue::Nested("- a\n- b\n".to_string())), "- a\n- b");
    let entries = vec![
        (Some(" name ".to_string()), FrontmatterValue::Text("First".to_string())),
        (None, FrontmatterValue::Text("ignored".to_string())),
        (Some("description".to_string()), FrontmatterValue::Text("Helps".to_string())),
        (Some("name".to_string()), FrontmatterValue::Text("Second".to_string())),
    ];
    assert_eq!(frontmatter_field(&entries, "name"), Some("Second".to_string()));
    assert_eq!(frontmatter_field(&entries, "description"), Some("Helps".to_string()));
    assert_eq!(frontmatter_field(&entries, "group"), None);
}

#[test]
fn frontmatter_text_decodes_through_yaml() {
    let raw = "---\nname: Rust Helper\ndescription: Helps with Rust\ngroup: engineering\ntags: [a, b]\nversion: 2\n---\nBody\n";
    let entries = parse_frontmatter_fields(raw).unwrap();
    assert_eq!(frontmatter_field(&entries, "name"), Some("Rust Helper".to_string()));
    assert_eq!(frontmatter_field(&entries, "group"), Some("engineering".to_string()));
    assert_eq!(frontmatter_field(&entries, "version"), Some("2".to_string()));
    assert!(frontmatter_field(&entries, "tags").unwrap().contains("- a"));
    assert_eq!(
        skill_header(raw).unwrap(),
        ("Rust Helper".to_string(), "Helps with Rust".to_string())
    );

    assert_eq!(parse_frontmatter_fields("no fences").unwrap_err(), "missing frontmatter start");
    assert_eq!(
        parse_frontmatter_fields("---\n- just\n- a list\n---\n").unwrap_err(),
        "frontmatter must be a YAML mapping"
    );
    assert_eq!(
        parse_frontmatter_fields("---\nname: [unclosed\n---\n").unwrap_err(),
        "failed to parse YAML frontmatter"
    );
    assert_eq!(
        skill_header("---\nname: 42\ndescription: numeric name\n---\n").unwrap_err(),
        "failed to parse YAML frontmatter"
    );
}

#[test]
fn rebuild_ungrouped_weak_signal_skill_falls_back_to_specialized_domain() {
    // An ungrouped skill whose text matches no group's keywords, aliases or id.
    let mut engineering = managed("engineering", "Engineering skills");
    engineering.keywords = vec!["rust".to_string(), "compiler".to_string()];
    let groups = vec![engineering, managed("specialized-domain", "Specialized domain skills")];
    let raw = "---\nname: Misc Notes\ndescription: Loose notes about nothing in particular\n---\nBody\n";
    let (name, description) = skill_header(raw).unwrap();
    let parsed = parse_skill_fields(
        &name,
        &description,
        &groups,
        8,
        None,
        "/hub/packages/misc-notes/SKILL.md".to_string(),
        0,
    )
    .unwrap();
    assert_eq!(parsed.group, "specialized-domain");
    assert_eq!(parsed.group_description, "Specialized domain skills");

    // Without a catalog entry for it, the fallback group is still named.
    let parsed = parse_skill_fields(&name, &description, &vec![], 8, None, String::new(), 0).unwrap();
    assert_eq!(parsed.group, "specialized-domain");
    assert_eq!(parsed.group_description, "Specialized domain skills");
}
