use std::collections::HashMap;

use mcp_manager::manager::McpManager;
use mcp_manager::types::{McpConfig, McpServerConfig, McpTool, ServerConnectionStatus};

fn server(command: &str, disabled: bool, auto_approve: &[&str]) -> McpServerConfig {
    McpServerConfig {
        command: command.to_string(),
        args: vec![],
        env: HashMap::new(),
        disabled,
        auto_approve: auto_approve.iter().map(|s| s.to_string()).collect(),
    }
}

fn tool(name: &str) -> McpTool {
    McpTool {
        name: name.to_string(),
        description: None,
        input_schema: serde_json::Value::Null,
    }
}

fn sample_config() -> McpConfig {
    let mut config = McpConfig::new();
    config.insert("filesystem".to_string(), server("npx", false, &["read_file", "list_directory"]));
    config.insert("postgres".to_string(), server("pg", true, &["execute_query"]));
    config.insert("brave-search".to_string(), server("brave", false, &[]));
    config
}

#[test]
fn test_auto_approve_check() {
    let config = McpServerConfig {
        command: "test".to_string(),
        args: vec![],
        env: HashMap::new(),
        disabled: false,
        auto_approve: vec!["read_file".to_string(), "list_directory".to_string()],
    };

    assert!(config.auto_approve.contains(&"read_file".to_string()));
    assert!(config.auto_approve.contains(&"list_directory".to_string()));
    assert!(!config.auto_approve.contains(&"write_file".to_string()));

    let mut servers = McpConfig::new();
    servers.insert("test".to_string(), config);
    let mut manager: McpManager<u32> = McpManager::new();
    manager.begin_init("/ws", Some(servers));
    assert!(manager.is_auto_approved("test", "read_file"));
    assert!(manager.is_auto_approved("test", "list_directory"));
    assert!(!manager.is_auto_approved("test", "write_file"));
    assert!(!manager.is_auto_approved("other", "read_file"));
}

#[test]
fn new_manager_is_empty() {
    let manager: McpManager<u32> = McpManager::new();
    assert!(!manager.is_initialized());
    assert_eq!(manager.workspace_path(), None);
    assert!(manager.list_servers().is_empty());
    assert!(manager.get_all_tools().is_empty());
    assert!(manager.get_client("filesystem").is_none());
    let default: McpManager<u32> = McpManager::default();
    assert!(!default.is_initialized());
}

#[test]
fn begin_init_records_workspace_and_enabled_servers() {
    let mut manager: McpManager<u32> = McpManager::new();
    let to_start = manager.begin_init("/home/user/notes", Some(sample_config()));
    assert_eq!(to_start, vec!["filesystem".to_string(), "brave-search".to_string()]);
    assert!(manager.is_initialized());
    assert_eq!(manager.workspace_path(), Some("/home/user/notes"));
    assert!(manager.is_auto_approved("postgres", "execute_query"));
}

#[test]
fn begin_init_without_config_clears_cache() {
    let mut manager: McpManager<u32> = McpManager::new();
    manager.begin_init("/ws", Some(sample_config()));
    let to_start = manager.begin_init("/ws2", None);
    assert!(to_start.is_empty());
    assert_eq!(manager.workspace_path(), Some("/ws2"));
    assert!(manager.list_servers().is_empty());
    assert!(!manager.is_auto_approved("filesystem", "read_file"));
    assert!(!manager.is_auto_approved("postgres", "execute_query"));
    assert_eq!(
        manager.server_config("filesystem").err(),
        Some("Server 'filesystem' not found in config".to_string())
    );
}

#[test]
fn list_servers_reports_each_configured_server() {
    let mut manager: McpManager<u32> = McpManager::new();
    manager.begin_init("/ws", Some(sample_config()));
    manager.insert_client("filesystem", 7, vec![tool("read_file"), tool("write_file")]);
    let statuses = manager.list_servers();
    assert_eq!(statuses.len(), 3);
    assert_eq!(statuses[0].name, "filesystem");
    assert_eq!(statuses[0].status, ServerConnectionStatus::Connected);
    assert_eq!(statuses[0].tools_count, 2);
    assert_eq!(statuses[1].name, "postgres");
    assert_eq!(statuses[1].status, ServerConnectionStatus::Disabled);
    assert_eq!(statuses[1].tools_count, 0);
    assert_eq!(statuses[2].name, "brave-search");
    assert_eq!(statuses[2].status, ServerConnectionStatus::Disconnected);
    assert_eq!(statuses[2].tools_count, 0);
    assert!(statuses.iter().all(|s| s.error.is_none()));
}

#[test]
fn disabled_server_is_reported_disabled_even_when_connected() {
    let mut manager: McpManager<u32> = McpManager::new();
    manager.begin_init("/ws", Some(sample_config()));
    manager.insert_client("postgres", 1, vec![tool("execute_query")]);
    let statuses = manager.list_servers();
    assert_eq!(statuses[1].status, ServerConnectionStatus::Disabled);
    assert_eq!(statuses[1].tools_count, 0);
}

#[test]
fn server_config_finds_configured_server() {
    let mut manager: McpManager<u32> = McpManager::new();
    assert_eq!(
        manager.server_config("filesystem").err(),
        Some("Server 'filesystem' not found in config".to_string())
    );
    manager.begin_init("/ws", Some(sample_config()));
    let config = manager.server_config("filesystem").unwrap();
    assert_eq!(config.command, "npx");
    assert_eq!(
        manager.server_config("missing").err(),
        Some("Server 'missing' not found in config".to_string())
    );
}

#[test]
fn insert_client_replaces_previous_connection() {
    let mut manager: McpManager<u32> = McpManager::new();
    manager.insert_client("a", 1, vec![tool("x")]);
    manager.insert_client("b", 2, vec![]);
    manager.insert_client("a", 3, vec![tool("y"), tool("z")]);
    assert_eq!(manager.get_client("a"), Some(&3));
    assert_eq!(manager.get_client("b"), Some(&2));
    assert_eq!(manager.connected_count(), 2);
    let tools = manager.get_all_tools();
    let names: Vec<(String, String)> = tools.iter().map(|(s, t)| (s.clone(), t.name.clone())).collect();
    assert_eq!(
        names,
        vec![("a".to_string(), "y".to_string()), ("a".to_string(), "z".to_string())]
    );
}

#[test]
fn get_all_tools_pairs_tools_with_servers() {
    let mut manager: McpManager<u32> = McpManager::new();
    manager.insert_client("fs", 1, vec![tool("read_file"), tool("write_file")]);
    manager.insert_client("web", 2, vec![tool("search")]);
    let tools = manager.get_all_tools();
    assert_eq!(tools.len(), 3);
    assert_eq!(tools[0].0, "fs");
    assert_eq!(tools[0].1.name, "read_file");
    assert_eq!(tools[1].1.name, "write_file");
    assert_eq!(tools[2].0, "web");
    assert_eq!(tools[2].1.name, "search");
    assert_eq!(tools[2].1.input_schema, serde_json::Value::Null);
}

#[test]
fn remove_client_forgets_server() {
    let mut manager: McpManager<u32> = McpManager::new();
    manager.begin_init("/ws", Some(sample_config()));
    manager.insert_client("filesystem", 9, vec![tool("read_file")]);
    assert_eq!(manager.remove_client("filesystem"), Some(9));
    assert_eq!(manager.remove_client("filesystem"), None);
    assert!(manager.get_client("filesystem").is_none());
    assert_eq!(manager.list_servers()[0].status, ServerConnectionStatus::Disconnected);
}

#[test]
fn client_for_call_reports_unconnected_server() {
    let mut manager: McpManager<u32> = McpManager::new();
    assert_eq!(
        manager.client_for_call("fs").err(),
        Some("Server 'fs' not connected".to_string())
    );
    manager.insert_client("fs", 4, vec![]);
    assert_eq!(manager.client_for_call("fs").ok(), Some(&4));
}

#[test]
fn take_all_clients_empties_manager() {
    let mut manager: McpManager<u32> = McpManager::new();
    manager.begin_init("/ws", Some(sample_config()));
    manager.insert_client("filesystem", 1, vec![tool("read_file")]);
    manager.insert_client("brave-search", 2, vec![]);
    let taken = manager.take_all_clients();
    assert_eq!(taken, vec![("filesystem".to_string(), 1), ("brave-search".to_string(), 2)]);
    assert!(manager.get_all_tools().is_empty());
    assert!(manager.get_client("filesystem").is_none());
    let statuses = manager.list_servers();
    assert_eq!(statuses[0].status, ServerConnectionStatus::Disconnected);
    assert_eq!(statuses[1].status, ServerConnectionStatus::Disabled);
    assert_eq!(statuses[2].status, ServerConnectionStatus::Disconnected);
    assert!(manager.take_all_clients().is_empty());
}

#[test]
fn rebuild_cache_follows_config() {
    let mut manager: McpManager<u32> = McpManager::new();
    manager.rebuild_auto_approve_cache();
    assert!(!manager.is_auto_approved("filesystem", "read_file"));
    manager.begin_init("/ws", Some(sample_config()));
    manager.rebuild_auto_approve_cache();
    assert!(manager.is_auto_approved("filesystem", "read_file"));
    assert!(!manager.is_auto_approved("brave-search", "read_file"));
}

#[test]
fn config_insert_replaces_and_keeps_order() {
    let mut config = sample_config();
    assert_eq!(config.len(), 3);
    let previous = config.insert("filesystem".to_string(), server("uvx", false, &[]));
    assert_eq!(previous.map(|c| c.command), Some("npx".to_string()));
    assert_eq!(config.len(), 3);
    assert_eq!(config.get("filesystem").map(|c| c.command.clone()), Some("uvx".to_string()));
    assert!(config.contains_key("postgres"));
    assert!(!config.contains_key("missing"));
    assert!(config.get("missing").is_none());
    let names: Vec<&str> = config.servers().iter().map(|(n, _)| n.as_str()).collect();
    assert_eq!(names, vec!["filesystem", "postgres", "brave-search"]);
    assert!(!config.is_empty());
    assert!(McpConfig::new().is_empty());
}

#[test]
fn uninitialized_manager_holds_nothing_after_reload_steps() {
    let mut manager: McpManager<u32> = McpManager::new();
    assert!(manager.take_all_clients().is_empty());
    assert!(!manager.is_initialized());
    assert_eq!(manager.workspace_path(), None);
    assert!(manager.list_servers().is_empty());
    assert!(manager.get_all_tools().is_empty());
    assert!(!manager.is_auto_approved("filesystem", "read_file"));
}

#[test]
fn tool_list_agrees_with_report() {
    let mut manager: McpManager<u32> = McpManager::new();
    manager.begin_init("/ws", Some(sample_config()));
    manager.insert_client("filesystem", 1, vec![tool("read_file"), tool("write_file"), tool("read_file")]);
    manager.insert_client("brave-search", 2, vec![]);
    manager.insert_client("extra", 3, vec![tool("x")]);
    let tools = manager.get_all_tools();
    for status in manager.list_servers() {
        if status.status == ServerConnectionStatus::Connected {
            let entries = tools.iter().filter(|(s, _)| *s == status.name).count();
            assert_eq!(status.tools_count, entries);
        }
    }
    assert_eq!(tools.len(), 4);
    let fs: Vec<&str> = tools.iter().filter(|(s, _)| s == "filesystem").map(|(_, t)| t.name.as_str()).collect();
    assert_eq!(fs, vec!["read_file", "write_file", "read_file"]);
    let first = tools.iter().position(|(s, _)| s == "filesystem").unwrap();
    assert!(tools[first..first + 3].iter().all(|(s, _)| s == "filesystem"));
}
