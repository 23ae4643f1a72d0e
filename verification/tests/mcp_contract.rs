use skill_shelf::mcp_shim::{
    catalog_description, classify_stdio_line, route_message, RpcMessage, config_hash_for_shelf, skips_message, content_length_header, default_context, forwarding_context_for_shelf,
    handle_command, hex16, is_known_tool, parse_command, parse_mcp_header, route_request,
    tool_annotations, tool_call_failure, tool_names, McpStdioShim, NullForwarder, RpcRoute,
    ShimCli, ShimCommand, StdioLine, ToolAnnotations,
};

#[test]
fn tool_list_exposes_current_skill_shelf_tools() {
    let names = tool_names();

    assert_eq!(
        names,
        &[
            "browse_shelf",
            "list_group_skills",
            "search_skills",
            "read_skill",
            "install_skills",
            "validate_skills",
            "manage_group",
            "get_shelf_status",
        ]
    );
}

#[test]
fn known_tools_are_the_listed_ones() {
    assert!(is_known_tool("browse_shelf"));
    assert!(is_known_tool("get_shelf_status"));
    assert!(!is_known_tool("reclassify"));
    assert!(!is_known_tool(""));
}

#[test]
fn tool_annotations_mark_reading_and_writing_tools() {
    let read_only = ToolAnnotations {
        read_only_hint: true,
        destructive_hint: false,
        open_world_hint: false,
        idempotent_hint: true,
    };
    let write = ToolAnnotations {
        read_only_hint: false,
        destructive_hint: true,
        open_world_hint: false,
        idempotent_hint: false,
    };
    assert_eq!(tool_annotations("search_skills"), Some(read_only));
    assert_eq!(tool_annotations("install_skills"), Some(write));
    assert_eq!(tool_annotations("unknown"), None);
}

#[test]
fn cli_parses_mcp_and_daemon_commands() {
    assert_eq!(parse_command("mcp"), Some(ShimCommand::Mcp));
    assert_eq!(parse_command("daemon"), Some(ShimCommand::Daemon));
    assert_eq!(parse_command("status"), Some(ShimCommand::Status));
    assert_eq!(parse_command("stop"), Some(ShimCommand::Stop));
    assert_eq!(parse_command("start"), None);
    let cli = ShimCli { command: ShimCommand::Mcp };
    assert_eq!(handle_command(&cli.command), "MCP stdio shim ready.");
    assert_eq!(
        handle_command(&ShimCommand::Stop),
        "Stop entrypoint reserved for daemon shutdown signaling."
    );
}

#[test]
fn mcp_headers_set_the_content_length() {
    let mut length = None;
    assert!(parse_mcp_header("Content-Length: 42", &mut length).is_ok());
    assert_eq!(length, Some(42));
    assert!(parse_mcp_header("content-type: application/json", &mut length).is_ok());
    assert_eq!(length, Some(42));
    assert!(parse_mcp_header("CONTENT-LENGTH:7", &mut length).is_ok());
    assert_eq!(length, Some(7));
    assert_eq!(
        parse_mcp_header("no colon here", &mut length).unwrap_err(),
        "invalid MCP header line: no colon here"
    );
    assert_eq!(
        parse_mcp_header("Content-Length: abc", &mut length).unwrap_err(),
        "invalid Content-Length value: abc"
    );
    assert_eq!(length, Some(7));
}

#[test]
fn stdio_lines_are_blank_json_or_headers() {
    assert_eq!(classify_stdio_line("\r\n"), StdioLine::Blank);
    assert_eq!(
        classify_stdio_line("  {\"jsonrpc\":\"2.0\"}\n"),
        StdioLine::Json("{\"jsonrpc\":\"2.0\"}".to_string())
    );
    assert_eq!(classify_stdio_line("[1]\r\n"), StdioLine::Json("[1]".to_string()));
    assert_eq!(
        classify_stdio_line("Content-Length: 10\r\n"),
        StdioLine::Header("Content-Length: 10".to_string())
    );
}

#[test]
fn json_rpc_methods_route_to_their_answers() {
    assert_eq!(route_request(Some("notifications/initialized"), false, None), Ok(RpcRoute::NoReply));
    assert_eq!(
        route_request(Some("notifications/initialized"), true, None),
        Ok(RpcRoute::MethodNotFound("Method not found: notifications/initialized".to_string()))
    );
    assert!(skips_message(Some("notifications/initialized")));
    assert!(!skips_message(Some("tools/call")));
    assert!(!skips_message(None));
    assert_eq!(
        route_request(Some("tools/call"), true, Some("reclassify_skill")),
        Ok(RpcRoute::CallTool("reclassify_skill".to_string()))
    );
    assert_eq!(route_request(Some("initialize"), true, None), Ok(RpcRoute::Initialize));
    assert_eq!(route_request(Some("initialize"), false, None), Ok(RpcRoute::NoReply));
    assert_eq!(route_request(Some("tools/list"), true, None), Ok(RpcRoute::ListTools));
    assert_eq!(
        route_request(Some("tools/call"), true, Some("search_skills")),
        Ok(RpcRoute::CallTool("search_skills".to_string()))
    );
    assert_eq!(
        route_request(Some("tools/call"), true, Some("nope")),
        Err("unknown tool: nope".to_string())
    );
    assert_eq!(
        route_request(Some("tools/call"), false, Some("search_skills")),
        Err("tools/call request missing id".to_string())
    );
    assert_eq!(
        route_request(Some("tools/call"), true, None),
        Err("tools/call missing tool name".to_string())
    );
    assert_eq!(
        route_request(Some("resources/list"), true, None),
        Ok(RpcRoute::MethodNotFound("Method not found: resources/list".to_string()))
    );
    assert_eq!(route_request(Some("resources/list"), false, None), Ok(RpcRoute::NoReply));
    assert_eq!(
        route_request(None, true, None),
        Err("json-rpc request missing method".to_string())
    );
    assert_eq!(tool_call_failure("boom"), "Tool call failed: boom");
}

#[test]
fn content_length_framing_header() {
    assert_eq!(content_length_header(17), "Content-Length: 17\r\n\r\n");
    assert_eq!(content_length_header(0), "Content-Length: 0\r\n\r\n");
}

#[test]
fn hashes_print_as_sixteen_hex_digits() {
    assert_eq!(hex16(0), "0000000000000000");
    assert_eq!(hex16(255), "00000000000000ff");
    assert_eq!(hex16(u64::MAX), "ffffffffffffffff");
    assert_eq!(hex16(0x0123456789abcdef), "0123456789abcdef");
}

#[test]
fn forward_request_envelope_carries_daemon_forwarding_fields() {
    let context = forwarding_context_for_shelf("C:/SkillShelf".to_string(), "session-123".to_string());
    assert_eq!(context.session_id, "session-123");
    assert_eq!(context.shelf_root, "C:/SkillShelf");
    assert_eq!(context.config_hash, config_hash_for_shelf("C:/SkillShelf"));
    assert_eq!(context.config_hash.len(), 16);
    assert!(context.config_hash.chars().all(|c| c.is_ascii_digit() || ('a'..='f').contains(&c)));
    let shim = McpStdioShim::new(context.clone(), NullForwarder);
    assert_eq!(shim.context(), &context);

    let default = default_context("/shelf".to_string(), 2);
    assert_eq!(default.session_id, "session-0000000000000002");
    assert_eq!(default.config_hash, config_hash_for_shelf("/shelf"));
}

#[test]
fn config_hash_depends_on_the_shelf_root_only() {
    let a = forwarding_context_for_shelf("/shelf-a".to_string(), "session-1".to_string());
    let b = forwarding_context_for_shelf("/shelf-a".to_string(), "session-2".to_string());
    let c = forwarding_context_for_shelf("/shelf-b".to_string(), "session-1".to_string());
    assert_eq!(a.config_hash, b.config_hash);
    assert_ne!(a.config_hash, c.config_hash);
}

#[test]
fn catalog_description_lists_groups_with_counts() {
    let groups = vec![
        ("design".to_string(), "Design skills".to_string(), 0usize),
        ("engineering".to_string(), "Engineering skills".to_string(), 1usize),
    ];
    let description = catalog_description(&groups);
    assert!(description.contains("CURRENT SHELF CATALOG:"));
    assert!(description.contains("design (0): Design skills"));
    assert!(description.contains("engineering (1): Engineering skills"));
    assert!(!description.contains("(no indexed groups found)"));
    assert!(description.ends_with("\nengineering (1): Engineering skills"));
}

#[test]
fn catalog_description_without_groups_says_so() {
    let description = catalog_description(&Vec::new());
    assert!(description.ends_with("CURRENT SHELF CATALOG:\n(no indexed groups found)"));
    assert!(description.starts_with("Entry point to discover available skill groups."));
}

#[test]
fn json_rpc_texts_decode_and_route() {
    let (request, message) =
        route_message(r#"{"jsonrpc":"2.0","id":1,"method":"initialize"}"#, false).unwrap();
    assert!(matches!(message, RpcMessage::Route(RpcRoute::Initialize)));
    assert_eq!(request["id"], 1);

    let (_, message) = route_message(
        r#"{"jsonrpc":"2.0","id":"req-42","method":"tools/call","params":{"name":"manage_group","arguments":{"mode":"delete","group":"legacy"}}}"#,
        false,
    )
    .unwrap();
    assert!(matches!(message, RpcMessage::Route(RpcRoute::CallTool(ref name)) if name == "manage_group"));

    let (_, message) =
        route_message(r#"{"jsonrpc":"2.0","method":"notifications/initialized"}"#, true).unwrap();
    assert!(matches!(message, RpcMessage::Skip));

    assert_eq!(route_message("not json", false).unwrap_err(), "failed to parse json-rpc request");
    assert_eq!(
        route_message("{", true).unwrap_err(),
        "failed to parse content-length json-rpc request"
    );
    assert_eq!(
        route_message(r#"{"jsonrpc":"2.0","id":3}"#, false).unwrap_err(),
        "json-rpc request missing method"
    );
    assert_eq!(
        route_message(r#"{"jsonrpc":"2.0","id":3,"method":"tools/call","params":{"name":"nope"}}"#, false)
            .unwrap_err(),
        "unknown tool: nope"
    );
}
