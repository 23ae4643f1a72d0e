use skill_shelf::config::{
    default_index_policy, default_install_policy, default_watch_policy, join_path, parse_u64,
    parse_usize, runtime_config, storage_layout,
};

fn var(name: &str, value: &str) -> (String, String) {
    (name.to_string(), value.to_string())
}

#[test]
fn load_config_reads_supported_env_overrides() {
    let root = r"C:\SkillShelf\custom-root";
    let env = vec![
        var("SKILL_SHELF_ROOT", root),
        var("SKILL_SHELF_ACCEPT_PACKAGES", "0"),
        var("SKILL_SHELF_ACCEPT_RAW_MARKDOWN", "0"),
        var("SKILL_SHELF_RAW_REQUIRES_FRONTMATTER", "0"),
        var("SKILL_SHELF_SEARCH_LIMIT", "11"),
        var("SKILL_SHELF_MAX_KEYWORDS", "17"),
        var("SKILL_SHELF_MAX_RELATED_SKILLS", "9"),
        var("SKILL_SHELF_WATCH", "0"),
        var("SKILL_SHELF_WATCH_USE_POLLING", "0"),
        var("SKILL_SHELF_WATCH_INTERVAL_MS", "250"),
        var("SKILL_SHELF_WATCH_STABILITY_MS", "600"),
        var("SKILL_SHELF_WATCH_POLL_MS", "75"),
        var("SKILL_SHELF_WATCH_SYNC_DELETE", "0"),
    ];

    let config = runtime_config(storage_layout(root), &env);

    assert_eq!(config.storage.shelf_root, root);
    assert!(!config.install_policy.accept_package_directories);
    assert!(!config.install_policy.accept_raw_markdown);
    assert_eq!(config.install_policy.package_precedence, "package-first");
    assert!(!config.install_policy.raw_markdown_requires_frontmatter);
    assert_eq!(config.index_policy.default_search_result_limit, 11);
    assert_eq!(config.index_policy.max_keywords_per_skill, 17);
    assert_eq!(config.index_policy.max_related_skills, 9);
    assert!(!config.watch_policy.enabled);
    assert!(!config.watch_policy.use_polling);
    assert_eq!(config.watch_policy.polling_interval_ms, 250);
    assert_eq!(config.watch_policy.await_write_stability_ms, 600);
    assert_eq!(config.watch_policy.await_write_poll_ms, 75);
    assert!(!config.watch_policy.sync_delete);
}

#[test]
fn missing_or_unparsable_variables_keep_defaults() {
    let env = vec![
        var("SKILL_SHELF_SEARCH_LIMIT", "many"),
        var("SKILL_SHELF_WATCH", "yes"),
        var("SKILL_SHELF_WATCH_POLL_MS", "-5"),
        var("SKILL_SHELF_MAX_KEYWORDS", "+4"),
        var("SKILL_SHELF_MAX_KEYWORDS", "99"),
    ];
    let config = runtime_config(storage_layout("/shelf"), &env);
    assert_eq!(config.index_policy.default_search_result_limit, 8);
    assert!(config.watch_policy.enabled);
    assert_eq!(config.watch_policy.await_write_poll_ms, 50);
    assert_eq!(config.index_policy.max_keywords_per_skill, 4);
    assert_eq!(config.index_policy.max_related_skills, 5);
    assert!(config.install_policy.accept_package_directories);
    assert_eq!(config.watch_policy.polling_interval_ms, 100);
    assert_eq!(config.watch_policy.await_write_stability_ms, 300);
}

#[test]
fn defaults_match_the_documented_policies() {
    let install = default_install_policy();
    assert!(install.accept_package_directories);
    assert!(install.accept_raw_markdown);
    assert_eq!(install.package_precedence, "package-first");
    assert!(install.raw_markdown_requires_frontmatter);
    let index = default_index_policy();
    assert_eq!(
        (index.default_search_result_limit, index.max_keywords_per_skill, index.max_related_skills),
        (8, 12, 5)
    );
    let watch = default_watch_policy();
    assert!(watch.enabled && watch.use_polling && watch.sync_delete);
    assert_eq!(
        (watch.polling_interval_ms, watch.await_write_stability_ms, watch.await_write_poll_ms),
        (100, 300, 50)
    );
}

#[test]
fn storage_layout_places_every_directory_under_the_root() {
    let layout = storage_layout("/data/hub");
    assert_eq!(layout.shelf_root, "/data/hub");
    assert_eq!(layout.config_root, "/data/hub/config");
    assert_eq!(layout.group_catalog_path, "/data/hub/config/groups.json");
    assert_eq!(layout.packages_root, "/data/hub/packages");
    assert_eq!(layout.index_root, "/data/hub/index");
    assert_eq!(layout.group_list_path, "/data/hub/index/group-list.json");
    assert_eq!(layout.groups_root, "/data/hub/index/groups");
    assert_eq!(layout.skills_root, "/data/hub/index/skills");
    assert_eq!(layout.staging_root, "/data/hub/staging");
    assert_eq!(layout.staging_imports_root, "/data/hub/staging/imports");
    assert_eq!(layout.staging_repaired_root, "/data/hub/staging/repaired");
    assert_eq!(layout.logs_root, "/data/hub/logs");
    assert_eq!(join_path("/a/", "b"), "/a/b");
    assert_eq!(join_path("", "b"), "b");
}

#[test]
fn unsigned_parsing_follows_str_parse() {
    assert_eq!(parse_u64("0"), Some(0));
    assert_eq!(parse_u64("+12"), Some(12));
    assert_eq!(parse_u64("18446744073709551615"), Some(u64::MAX));
    assert_eq!(parse_u64("18446744073709551616"), None);
    assert_eq!(parse_u64("184467440737095516160"), None);
    assert_eq!(parse_u64(""), None);
    assert_eq!(parse_u64("+"), None);
    assert_eq!(parse_u64("1 2"), None);
    assert_eq!(parse_u64("-1"), None);
    assert_eq!(parse_usize("42"), Some(42));
}
