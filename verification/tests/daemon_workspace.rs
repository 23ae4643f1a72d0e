use skill_shelf::daemon::{
    forwarded_method, is_shutdown_method, normalize_skill_key, parse_group_mode,
    parse_tool_method, render_read_model, strip_frontmatter, GroupMode, ToolMethod,
};
use skill_shelf::config::storage_layout;
use skill_shelf::mcp_shim::{is_known_tool, tool_names};
use skill_shelf::model::{ManagedGroupRecord, ParsedSkill};
use skill_shelf::registry::{ScannedSkill, SkillRegistry};
use skill_shelf::persist::{group_index_file_name, replace_plan, skill_index_file_name, staging_root};
use skill_shelf::workspace::{
    idle_workspace_ids, is_removable, SkillFileSignature, WatcherState, WorkspaceKey, WorkspaceTable,
};

fn workspace_key(root: &str, hash: &str) -> WorkspaceKey {
    WorkspaceKey::new(root.to_string(), hash.to_string())
}

#[test]
fn same_key_reuses_workspace() {
    let mut manager = WorkspaceTable::new();
    let key = workspace_key("C:/shelf-a", "cfg-1");

    let (first, created) = manager.get_or_create(&key);
    let (second, again) = manager.get_or_create(&key);

    assert!(created && !again);
    assert_eq!(first, second);
}

#[test]
fn different_keys_get_distinct_workspaces() {
    let mut manager = WorkspaceTable::new();

    let (first, _) = manager.get_or_create(&workspace_key("C:/shelf-a", "cfg-1"));
    let (second, _) = manager.get_or_create(&workspace_key("C:/shelf-a", "cfg-2"));

    assert_ne!(first, second);
}

#[test]
fn unload_creates_new_workspace() {
    let mut manager = WorkspaceTable::new();
    let key = workspace_key("C:/shelf-a", "cfg-1");

    let (first, _) = manager.get_or_create(&key);
    assert!(manager.unload(&key));
    assert!(!manager.unload(&key));

    let (second, _) = manager.get_or_create(&key);
    assert_ne!(first, second);
}

#[test]
fn idle_workspace_can_be_removed() {
    let mut manager = WorkspaceTable::new();
    let key = workspace_key("C:/shelf-a", "cfg-1");

    let (first, _) = manager.get_or_create(&key);
    // idle for 20 ms with nothing running and no session
    assert!(is_removable(0, 0, 20, 5));
    assert_eq!(manager.remove_ids(&vec![first]), 1);

    let (second, _) = manager.get_or_create(&key);
    assert_ne!(first, second);
}

#[test]
fn long_write_prevents_idle_removal_and_reuses_workspace() {
    let mut manager = WorkspaceTable::new();
    let key = workspace_key("C:/shelf-a", "cfg-1");
    let (original_id, _) = manager.get_or_create(&key);

    assert!(!is_removable(1, 0, 20, 5));
    assert_eq!(manager.remove_ids(&vec![]), 0);
    assert_eq!(manager.get_or_create(&key).0, original_id);

    assert!(is_removable(0, 0, 20, 5));
    assert_eq!(manager.remove_ids(&vec![original_id]), 1);
    assert_ne!(manager.get_or_create(&key).0, original_id);
}

#[test]
fn attached_session_prevents_idle_removal_until_detached() {
    assert!(!is_removable(0, 1, 20, 5));
    assert!(is_removable(0, 0, 20, 5));
    assert!(!is_removable(0, 0, 4, 5));
}

#[test]
fn lookup_finds_live_workspaces_only() {
    let mut manager = WorkspaceTable::new();
    let a = workspace_key("/a", "h");
    let b = workspace_key("/b", "h");
    let (ida, _) = manager.get_or_create(&a);
    let (idb, _) = manager.get_or_create(&b);
    assert_eq!((ida, idb), (1, 2));
    assert_eq!(manager.lookup(&b), Some(2));
    manager.unload(&a);
    assert_eq!(manager.lookup(&a), None);
    assert_eq!(manager.lookup(&b), Some(2));
    assert!(a.same_as(&workspace_key("/a", "h")));
    assert!(!a.same_as(&b));
}

fn sig(path: &str, len: u64) -> SkillFileSignature {
    SkillFileSignature { path: path.to_string(), len, modified_at_ms: Some(7) }
}

#[test]
fn watcher_reports_changes_of_the_skill_tree() {
    let mut watcher = WatcherState::new();
    assert!(!watcher.poll_dirty(Ok(vec![sig("engineering/rust-helper/SKILL.md", 10)]), 100));
    assert!(!watcher.poll_dirty(Ok(vec![sig("engineering/rust-helper/SKILL.md", 10)]), 200));
    assert!(watcher.poll_dirty(Ok(vec![sig("engineering/rust-helper/SKILL.md", 11)]), 300));
    assert_eq!(watcher.status().last_event_at_ms, Some(300));
    // still dirty until the workspace is reloaded
    assert!(watcher.poll_dirty(Ok(vec![sig("engineering/rust-helper/SKILL.md", 11)]), 400));
    watcher.mark_clean(Ok(vec![sig("engineering/rust-helper/SKILL.md", 11)]));
    assert!(!watcher.poll_dirty(Ok(vec![sig("engineering/rust-helper/SKILL.md", 11)]), 500));
    assert!(!watcher.poll_dirty(Err("failed to read".to_string()), 600));
    assert_eq!(watcher.status().last_error, Some("failed to read".to_string()));
    assert!(watcher.status().running);
    watcher.stop();
    assert!(!watcher.status().running);
}

#[test]
fn daemon_unknown_method_returns_clear_error() {
    assert_eq!(parse_tool_method("search_skills"), Ok(ToolMethod::SearchSkills));
    assert_eq!(parse_tool_method("reclassify_skill"), Ok(ToolMethod::ReclassifySkill));
    assert_eq!(parse_tool_method("list_group_skills"), Ok(ToolMethod::ListGroupSkills));
    assert_eq!(parse_tool_method("get_shelf_status"), Ok(ToolMethod::GetShelfStatus));
    let error = parse_tool_method("totally_unknown").unwrap_err();
    assert!(error.contains("unknown tool method"));
    assert_eq!(parse_group_mode("create"), Ok(GroupMode::Create));
    assert_eq!(parse_group_mode("rename").unwrap_err(), "unknown manage_group mode: rename");
}

#[test]
fn forwarded_calls_name_their_tool() {
    assert_eq!(forwarded_method("tools/call", Some("read_skill")), Ok("read_skill".to_string()));
    assert_eq!(
        forwarded_method("tools/call", None),
        Err("tools/call missing tool name".to_string())
    );
    assert_eq!(forwarded_method("search_skills", None), Ok("search_skills".to_string()));
    assert!(is_shutdown_method(Some("daemon/shutdown")));
    assert!(!is_shutdown_method(Some("tools/call")));
    assert!(!is_shutdown_method(None));
}

#[test]
fn skill_keys_and_bodies() {
    assert_eq!(normalize_skill_key("  Rust-Helper "), "rust-helper");
    assert_eq!(strip_frontmatter("---\nname: a\n---\nBody\n"), "Body\n");
    assert_eq!(strip_frontmatter("---\r\nname: a\r\n---\r\nBody"), "Body");
    assert_eq!(strip_frontmatter("no frontmatter"), "no frontmatter");
    assert_eq!(strip_frontmatter("---\nunclosed\n"), "---\nunclosed\n");
}

fn scanned(name: &str, description: &str, id: &str) -> ScannedSkill {
    ScannedSkill::Parsed {
        skill: ParsedSkill {
            skill_name: name.to_string(),
            description: description.to_string(),
            group: "engineering".to_string(),
            group_description: "Engineering skills".to_string(),
            keywords: vec![],
            skill_path: format!("/hub/packages/engineering/{id}/SKILL.md"),
            updated_at_ms_bits: 1000.0f64.to_bits(),
        },
        skill_id: id.to_string(),
    }
}

#[test]
fn daemon_browse_list_and_read_skill_support_progressive_disclosure() {
    // The rebuild fixture plus the long helper.
    let mut registry = SkillRegistry::new(storage_layout("/hub"));
    registry.rebuild_from(
        vec![ManagedGroupRecord {
            group: "engineering".to_string(),
            group_description: "Engineering skills".to_string(),
            keywords: vec![],
            aliases: vec![],
            source: "builtin".to_string(),
        }],
        vec![
            scanned("Rust Helper", "Helps with Rust code", "rust-helper"),
            scanned("Long Helper", "Exercises summary truncation", "long-helper"),
        ],
    );

    // browse_shelf without a group
    let groups = registry.browse_groups();
    assert_eq!(registry.size(), 2);
    assert_eq!(groups.len(), 1);
    assert_eq!(groups[0].group, "engineering");
    assert_eq!(groups[0].skill_count, 2);

    // list_group_skills {"group": "engineering", "limit": 1}
    assert_eq!(parse_tool_method("list_group_skills"), Ok(ToolMethod::ListGroupSkills));
    let (list, skills) = registry.browse_group("engineering", None, 1).unwrap();
    assert_eq!(list.group, "engineering");
    assert_eq!(list.group_description, "Engineering skills");
    assert_eq!(skills.len(), 1);
    assert_eq!(skills[0].skill_id, "long-helper");
    assert_eq!(skills[0].skill_name, "Long Helper");

    // read_skill of the long helper: its body is 100 lines and a final newline
    let lines: Vec<String> = (0..100).map(|index| format!("Line {index:03}")).collect();
    let raw = format!(
        "---\nname: Long Helper\ndescription: Exercises summary truncation\n---\n{}\n",
        lines.join("\n")
    );
    let body = strip_frontmatter(&raw);
    let summary = render_read_model(&body, false);
    assert!(summary.truncated);
    assert_eq!(summary.total_lines, 101);
    assert_eq!(summary.contents.split('\n').count(), 80);
    let full = render_read_model(&body, true);
    assert!(!full.truncated);
    assert_eq!(full.total_lines, 101);
    assert_eq!(full.contents.split('\n').count(), 101);
}

#[test]
fn read_models_cut_long_bodies_to_eighty_lines() {
    let body: String = (1..=101).map(|index| format!("Line {index:03}\n")).collect();
    let summary = render_read_model(&body, false);
    assert!(summary.truncated);
    assert_eq!(summary.total_lines, 102);
    assert!(summary.contents.ends_with("Line 080"));
    let short = render_read_model("a\nb", false);
    assert!(!short.truncated);
    assert_eq!(short.total_lines, 2);
}

#[test]
fn index_files_and_swaps() {
    assert_eq!(group_index_file_name("engineering"), "engineering.json");
    assert_eq!(skill_index_file_name("engineering", "rust-helper"), "engineering--rust-helper.json");
    assert_eq!(staging_root("/hub/index", "42"), "/hub/index/.staging-42");
    let plan = replace_plan(
        "/hub/index",
        "/hub/index/.staging-42",
        "/hub/index/group-list.json",
        "/hub/index/groups",
        "/hub/index/skills",
        "7",
    );
    assert_eq!(plan.len(), 3);
    assert_eq!(plan[0].staged_path, "/hub/index/.staging-42/group-list.json");
    assert_eq!(plan[0].backup_path, "/hub/index/.backup-group-list-7");
    assert_eq!(plan[2].live_path, "/hub/index/skills");
}

#[test]
fn every_tool_a_client_may_call_is_served_by_the_daemon() {
    for name in tool_names() {
        assert!(is_known_tool(name));
        assert!(parse_tool_method(name).is_ok(), "{name}");
    }
    assert!(is_known_tool("reclassify_skill"));
    assert!(parse_tool_method("reclassify_skill").is_ok());
    assert!(!is_known_tool("shutdown"));
    assert!(parse_tool_method("shutdown").is_err());
}

#[test]
fn a_long_write_or_a_session_keeps_a_workspace_from_idle_removal() {
    let mut table = WorkspaceTable::new();
    let busy_key = workspace_key("C:/shelf-a", "cfg-1");
    let held_key = workspace_key("C:/shelf-b", "cfg-1");
    let idle_key = workspace_key("C:/shelf-c", "cfg-1");
    let (busy, _) = table.get_or_create(&busy_key);
    let (held, _) = table.get_or_create(&held_key);
    let (idle, _) = table.get_or_create(&idle_key);
    let stats = vec![(busy, 1, 0, 20), (held, 0, 1, 20), (idle, 0, 0, 20)];
    let ids = idle_workspace_ids(&stats, 5);
    assert_eq!(ids, vec![idle]);
    assert_eq!(table.remove_ids(&ids), 1);
    assert_eq!(table.get_or_create(&busy_key), (busy, false));
    assert_eq!(table.get_or_create(&held_key), (held, false));
    let (again, created) = table.get_or_create(&idle_key);
    assert!(created);
    assert_ne!(again, idle);
    assert!(idle_workspace_ids(&vec![(busy, 0, 0, 4)], 5).is_empty());
}
