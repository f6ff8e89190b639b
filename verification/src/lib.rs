//! Verified core of a manager for MCP (Model Context Protocol) servers: the
//! server configuration, the table of connected servers, the auto-approve
//! cache, the status report, the tool listing and the tool-name convention.

pub mod entries;
pub mod types;
pub mod manager;
pub mod tool_name;
pub mod commands;
