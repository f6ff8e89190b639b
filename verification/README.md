# mcp_manager

The verified core of a manager for MCP (Model Context Protocol) servers.

- `src/entries.rs`: string-keyed lists without repeated keys, with the map
  operations stated over `Seq` and the read-after-write laws.
- `src/types.rs`: configuration, tools, status lines and tool replies.
- `src/manager.rs`: `McpManager`, its view, its invariant and its laws.
- `src/commands.rs`: the tool list shown to the user and the text of a reply.
- `src/tool_name.rs`: the `mcp_<server>__<tool>` naming convention.
- `app/`: the asynchronous shell (process-wide manager, serde forms, commands).
