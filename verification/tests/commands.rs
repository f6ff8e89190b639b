use mcp_manager::commands::{list_tool_infos, response_text};
use mcp_manager::types::{McpContentBlock, McpResourceContents, McpTool, McpToolCallResponse};

fn tool(name: &str, description: Option<&str>) -> McpTool {
    McpTool {
        name: name.to_string(),
        description: description.map(|d| d.to_string()),
        input_schema: serde_json::Value::Bool(true),
    }
}

fn all_tools() -> Vec<(String, McpTool)> {
    vec![
        ("fs".to_string(), tool("read_file", Some("Read a file"))),
        ("web".to_string(), tool("search", None)),
        ("fs".to_string(), tool("write_file", None)),
    ]
}

#[test]
fn list_tool_infos_keeps_all_without_filter() {
    let infos = list_tool_infos(all_tools(), None);
    assert_eq!(infos.len(), 3);
    assert_eq!(infos[0].server_name, "fs");
    assert_eq!(infos[0].name, "read_file");
    assert_eq!(infos[0].description, Some("Read a file".to_string()));
    assert_eq!(infos[0].input_schema, serde_json::Value::Bool(true));
    assert_eq!(infos[1].server_name, "web");
    assert_eq!(infos[2].name, "write_file");
}

#[test]
fn list_tool_infos_filters_by_server() {
    let infos = list_tool_infos(all_tools(), Some("fs".to_string()));
    let names: Vec<&str> = infos.iter().map(|i| i.name.as_str()).collect();
    assert_eq!(names, vec!["read_file", "write_file"]);
    assert!(infos.iter().all(|i| i.server_name == "fs"));
    assert!(list_tool_infos(all_tools(), Some("none".to_string())).is_empty());
    assert!(list_tool_infos(vec![], None).is_empty());
}

#[test]
fn response_text_joins_text_blocks() {
    let response = McpToolCallResponse {
        content: vec![
            McpContentBlock::Text { text: "Hello".to_string() },
            McpContentBlock::Image { data: "AAAA".to_string(), mime_type: "image/png".to_string() },
            McpContentBlock::Resource {
                resource: McpResourceContents {
                    uri: "file:///tmp/test.txt".to_string(),
                    text: Some("File content here".to_string()),
                    mime_type: Some("text/plain".to_string()),
                },
            },
            McpContentBlock::Resource {
                resource: McpResourceContents {
                    uri: "file:///tmp/bin".to_string(),
                    text: None,
                    mime_type: None,
                },
            },
            McpContentBlock::Text { text: "World".to_string() },
        ],
        is_error: false,
    };
    assert_eq!(response_text(&response), "Hello\nFile content here\nWorld");
}

#[test]
fn response_text_edge_cases() {
    let empty = McpToolCallResponse { content: vec![], is_error: true };
    assert_eq!(response_text(&empty), "");
    let one = McpToolCallResponse {
        content: vec![McpContentBlock::Text { text: "Success".to_string() }],
        is_error: false,
    };
    assert_eq!(response_text(&one), "Success");
    let images_first = McpToolCallResponse {
        content: vec![
            McpContentBlock::Image { data: String::new(), mime_type: String::new() },
            McpContentBlock::Text { text: "a".to_string() },
            McpContentBlock::Text { text: String::new() },
        ],
        is_error: false,
    };
    assert_eq!(response_text(&images_first), "a\n");
}
