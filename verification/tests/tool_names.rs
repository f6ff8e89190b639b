use mcp_manager::tool_name::{format_tool_name, parse_tool_name};

#[test]
fn test_mcp_tool_name_format() {
    // Format: mcp_{server_name}__{tool_name}
    let full_name = "mcp_filesystem__read_file";

    let parts = parse_tool_name(full_name);

    assert!(parts.is_some());
    let (server, tool) = parts.unwrap();
    assert_eq!(server, "filesystem");
    assert_eq!(tool, "read_file");
}

#[test]
fn test_mcp_tool_name_with_hyphen_server() {
    let full_name = "mcp_brave-search__web_search";

    let (server, tool) = parse_tool_name(full_name).unwrap();

    assert_eq!(server, "brave-search");
    assert_eq!(tool, "web_search");
}

#[test]
fn test_mcp_tool_name_with_underscore_tool() {
    let full_name = "mcp_postgres__execute_query";

    let (server, tool) = parse_tool_name(full_name).unwrap();

    assert_eq!(server, "postgres");
    assert_eq!(tool, "execute_query");
}

#[test]
fn parse_rejects_name_without_prefix() {
    assert!(parse_tool_name("filesystem__read_file").is_none());
    assert!(parse_tool_name("mcp").is_none());
    assert!(parse_tool_name("").is_none());
    assert!(parse_tool_name("MCP_filesystem__read_file").is_none());
}

#[test]
fn parse_rejects_name_without_separator() {
    assert!(parse_tool_name("mcp_filesystem_read_file").is_none());
    assert!(parse_tool_name("mcp_").is_none());
    assert!(parse_tool_name("mcp__").is_none());
}

#[test]
fn parse_splits_at_first_separator() {
    let (server, tool) = parse_tool_name("mcp_a__b__c").unwrap();
    assert_eq!(server, "a");
    assert_eq!(tool, "b__c");
    let (server, tool) = parse_tool_name("mcp___x").unwrap();
    assert_eq!(server, "");
    assert_eq!(tool, "x");
    let (server, tool) = parse_tool_name("mcp_s__").unwrap();
    assert_eq!(server, "s");
    assert_eq!(tool, "");
}

#[test]
fn parse_handles_non_ascii() {
    let (server, tool) = parse_tool_name("mcp_数据库__查询").unwrap();
    assert_eq!(server, "数据库");
    assert_eq!(tool, "查询");
}

#[test]
fn format_builds_qualified_name() {
    assert_eq!(format_tool_name("filesystem", "read_file"), "mcp_filesystem__read_file");
    assert_eq!(format_tool_name("", ""), "mcp___");
}

#[test]
fn format_then_parse_round_trip() {
    for (server, tool) in [("filesystem", "read_file"), ("brave-search", "web_search"), ("pg", "a__b"), ("", "t")] {
        let full = format_tool_name(server, tool);
        let (s, t) = parse_tool_name(&full).unwrap();
        assert_eq!(s, server);
        assert_eq!(t, tool);
    }
}

#[test]
fn round_trip_fails_for_server_ending_in_underscore() {
    let full = format_tool_name("a_", "b");
    assert_eq!(full, "mcp_a___b");
    let (s, t) = parse_tool_name(&full).unwrap();
    assert_eq!(s, "a");
    assert_eq!(t, "_b");
}
