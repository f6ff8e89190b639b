//! The data that the manager keeps and reports: server configuration, tool
//! descriptions, connection status and tool-call replies.
use std::collections::HashMap;
use vstd::prelude::*;
use crate::entries::{
    entries_view, find_key, has_key, insert_entry, lemma_insert_keeps_unique, lemma_unique_index,
    lookup, unique_keys, value_of,
};

verus! {

/// The JSON value type of `serde_json`; a tool's input schema is carried as
/// one, never inspected.
#[verifier::external_type_specification]
#[verifier::external_body]
pub struct ExJsonValue(serde_json::Value);

/// `serde_json` derives `Clone` for `Value`; the copy is trusted to be the
/// same value as the original.
pub assume_specification[ <serde_json::Value as Clone>::clone ](value: &serde_json::Value) -> (r: serde_json::Value)
    ensures
        r == *value,
;

/// Copies a list of strings.
pub fn clone_strings(v: &Vec<String>) -> (r: Vec<String>)
    ensures
        r@ == v@,
{
    let mut r: Vec<String> = Vec::new();
    let mut i: usize = 0;
    while i < v.len()
        invariant
            i <= v@.len(),
            r@ == v@.take(i as int),
        decreases v@.len() - i,
    {
        r.push(v[i].clone());
        proof {
            assert(v@.take(i + 1) =~= v@.take(i as int).push(v@[i as int]));
        }
        i = i + 1;
    }
    proof {
        assert(v@.take(v@.len() as int) =~= v@);
    }
    r
}

/// Copies an optional string.
pub fn clone_opt_string(s: &Option<String>) -> (r: Option<String>)
    ensures
        r == *s,
{
    match s {
        Some(x) => Some(x.clone()),
        None => None,
    }
}

/// How one MCP server is started and which of its tools run without asking.
#[derive(Clone, Debug)]
pub struct McpServerConfig {
    pub command: String,
    pub args: Vec<String>,
    pub env: HashMap<String, String>,
    pub disabled: bool,
    pub auto_approve: Vec<String>,
}

/// The servers of a configuration, each under its own name; no name occurs
/// twice, and the list keeps the order in which names first came.
pub struct McpConfig {
    servers: Vec<(String, McpServerConfig)>,
}

impl View for McpConfig {
    type V = Seq<(Seq<char>, McpServerConfig)>;

    closed spec fn view(&self) -> Seq<(Seq<char>, McpServerConfig)> {
        entries_view(self.servers@)
    }
}

impl McpConfig {
    /// No server name occurs twice.
    pub open spec fn wf(&self) -> bool {
        unique_keys(self@)
    }

    /// A configuration without servers.
    pub fn new() -> (r: Self)
        ensures
            r@ == Seq::<(Seq<char>, McpServerConfig)>::empty(),
            r.wf(),
    {
        let r = McpConfig { servers: Vec::new() };
        assert(r@ =~= Seq::<(Seq<char>, McpServerConfig)>::empty());
        r
    }

    /// Puts `config` under `name`, in place of what was there, which is
    /// handed back.
    pub fn insert(&mut self, name: String, config: McpServerConfig) -> (r: Option<McpServerConfig>)
        requires
            old(self).wf(),
        ensures
            final(self).wf(),
            final(self)@ == insert_entry(old(self)@, name@, config),
            r == lookup(old(self)@, name@),
    {
        let ghost old_view = self@;
        let ghost name_view = name@;
        let found = find_key(&self.servers, name.as_str());
        match found {
            Some(i) => {
                proof {
                    lemma_unique_index(old_view, i as int);
                }
                let (_, previous) = self.servers.remove(i);
                self.servers.insert(i, (name, config));
                proof {
                    assert(self@ =~= old_view.update(i as int, (name_view, config)));
                    lemma_insert_keeps_unique(old_view, name_view, config);
                }
                Some(previous)
            },
            None => {
                self.servers.push((name, config));
                proof {
                    assert(self@ =~= old_view.push((name_view, config)));
                    lemma_insert_keeps_unique(old_view, name_view, config);
                }
                None
            },
        }
    }

    /// The configuration stored under `name`.
    pub fn get(&self, name: &str) -> (r: Option<&McpServerConfig>)
        requires
            self.wf(),
        ensures
            match r {
                Some(c) => has_key(self@, name@) && *c == value_of(self@, name@),
                None => !has_key(self@, name@),
            },
    {
        match find_key(&self.servers, name) {
            Some(i) => {
                proof {
                    lemma_unique_index(self@, i as int);
                }
                Some(&self.servers[i].1)
            },
            None => None,
        }
    }

    /// Whether a server is configured under `name`.
    pub fn contains_key(&self, name: &str) -> (r: bool)
        ensures
            r == has_key(self@, name@),
    {
        match find_key(&self.servers, name) {
            Some(i) => {
                assert(self@[i as int].0 == name@);
                true
            },
            None => false,
        }
    }

    /// The number of configured servers.
    pub fn len(&self) -> (r: usize)
        ensures
            r == self@.len(),
    {
        self.servers.len()
    }

    /// Whether no server is configured.
    pub fn is_empty(&self) -> (r: bool)
        ensures
            r == (self@.len() == 0),
    {
        self.servers.len() == 0
    }

    /// The configured servers, in order.
    pub fn servers(&self) -> (r: &Vec<(String, McpServerConfig)>)
        ensures
            entries_view(r@) == self@,
    {
        &self.servers
    }
}

/// A tool that a server offers.
#[derive(Clone, Debug)]
pub struct McpTool {
    pub name: String,
    pub description: Option<String>,
    pub input_schema: serde_json::Value,
}

impl McpTool {
    /// Copies the tool.
    pub fn duplicate(&self) -> (r: McpTool)
        ensures
            r == *self,
    {
        McpTool {
            name: self.name.clone(),
            description: clone_opt_string(&self.description),
            input_schema: self.input_schema.clone(),
        }
    }
}

/// The state of a configured server as reported to the user.
#[derive(Clone, Copy, Debug, PartialEq, Eq, Structural)]
pub enum ServerConnectionStatus {
    Connected,
    Disconnected,
    Disabled,
    Error,
}

/// One line of the server report.
#[derive(Clone, Debug)]
pub struct McpServerStatus {
    pub name: String,
    pub status: ServerConnectionStatus,
    pub tools_count: usize,
    pub error: Option<String>,
}

/// The contents of a resource that a tool returned.
#[derive(Clone, Debug)]
pub struct McpResourceContents {
    pub uri: String,
    pub text: Option<String>,
    pub mime_type: Option<String>,
}

/// One block of a tool's reply.
#[derive(Clone, Debug)]
pub enum McpContentBlock {
    Text { text: String },
    Image { data: String, mime_type: String },
    Resource { resource: McpResourceContents },
}

/// The reply to a tool call.
#[derive(Clone, Debug)]
pub struct McpToolCallResponse {
    pub content: Vec<McpContentBlock>,
    pub is_error: bool,
}

/// A tool together with the server that offers it, as shown to the user.
#[derive(Clone, Debug)]
pub struct McpToolInfo {
    pub server_name: String,
    pub name: String,
    pub description: Option<String>,
    pub input_schema: serde_json::Value,
}

} // verus!
