//! The manager of MCP servers: the loaded configuration, the servers that are
//! connected, the workspace it serves and the cache of auto-approved tools.
//!
//! Connecting to a server, calling a tool and shutting a server down are
//! input and output, done by the caller; this module decides what to connect,
//! keeps what came back and answers queries on it. A server name should not
//! contain `__`, which separates server and tool in a qualified tool name.
use vstd::prelude::*;
use vstd::string::*;
use crate::entries::{
    entries_view, find_key, has_key, index_of, insert_entry, lemma_insert_keeps_unique,
    lemma_remove_keeps_unique, lemma_unique_index, lookup, remove_entry, unique_keys, value_of,
};
use crate::types::{
    clone_strings, McpConfig, McpServerConfig, McpServerStatus, McpTool, ServerConnectionStatus,
};

verus! {

/// A connected server: the client through which it is reached and the tools
/// it offered when it connected.
pub struct ServerConnection<C> {
    pub client: C,
    pub tools: Vec<McpTool>,
}

/// What a manager holds, with every string taken by its view.
pub struct ManagerView<C> {
    pub config: Option<Seq<(Seq<char>, McpServerConfig)>>,
    pub clients: Seq<(Seq<char>, ServerConnection<C>)>,
    pub workspace_path: Option<Seq<char>>,
    pub auto_approve: Seq<(Seq<char>, Seq<Seq<char>>)>,
}

/// A list of strings, each taken by its view.
pub open spec fn strings_view(v: Seq<String>) -> Seq<Seq<char>> {
    v.map_values(|s: String| s@)
}

/// The auto-approve lists of a configuration, server by server.
pub open spec fn approvals_of(config: Seq<(Seq<char>, McpServerConfig)>) -> Seq<(Seq<char>, Seq<Seq<char>>)> {
    config.map_values(|p: (Seq<char>, McpServerConfig)| (p.0, strings_view(p.1.auto_approve@)))
}

/// The auto-approve cache that belongs with a configuration, or with none.
pub open spec fn cache_for(config: Option<Seq<(Seq<char>, McpServerConfig)>>) -> Seq<(Seq<char>, Seq<Seq<char>>)> {
    match config {
        Some(c) => approvals_of(c),
        None => Seq::empty(),
    }
}

/// Whether `tool` of `server` is in an auto-approve cache.
pub open spec fn approves(cache: Seq<(Seq<char>, Seq<Seq<char>>)>, server: Seq<char>, tool: Seq<char>) -> bool {
    has_key(cache, server) && value_of(cache, server).contains(tool)
}

/// The names of the servers of a configuration that are not disabled, in order.
pub open spec fn enabled_servers(config: Seq<(Seq<char>, McpServerConfig)>) -> Seq<Seq<char>>
    decreases config.len(),
{
    if config.len() == 0 {
        Seq::empty()
    } else {
        let rest = enabled_servers(config.drop_last());
        if config.last().1.disabled {
            rest
        } else {
            rest.push(config.last().0)
        }
    }
}

impl<C> ManagerView<C> {
    /// No name occurs twice; the cache holds exactly the auto-approve lists
    /// of the loaded configuration, and is empty while none is loaded; and
    /// without a workspace no configuration is loaded.
    pub open spec fn wf(self) -> bool {
        &&& (self.config matches Some(c) ==> unique_keys(c))
        &&& self.auto_approve == cache_for(self.config)
        &&& (self.workspace_path is None ==> self.config is None)
        &&& unique_keys(self.clients)
        &&& unique_keys(self.auto_approve)
    }
}

/// The status that the report gives a configured server.
pub open spec fn expected_status<C>(
    name: Seq<char>,
    config: McpServerConfig,
    clients: Seq<(Seq<char>, ServerConnection<C>)>,
) -> ServerConnectionStatus {
    if config.disabled {
        ServerConnectionStatus::Disabled
    } else if has_key(clients, name) {
        ServerConnectionStatus::Connected
    } else {
        ServerConnectionStatus::Disconnected
    }
}

/// The number of tools that the report gives a configured server: those of
/// its connection where it is enabled and connected, else none.
pub open spec fn expected_tools_count<C>(
    name: Seq<char>,
    config: McpServerConfig,
    clients: Seq<(Seq<char>, ServerConnection<C>)>,
) -> nat {
    if !config.disabled && has_key(clients, name) {
        value_of(clients, name).tools@.len()
    } else {
        0
    }
}

/// `status` is the report line of the configured server `entry`.
pub open spec fn reports<C>(
    status: McpServerStatus,
    entry: (Seq<char>, McpServerConfig),
    clients: Seq<(Seq<char>, ServerConnection<C>)>,
) -> bool {
    &&& status.name@ == entry.0
    &&& status.status == expected_status(entry.0, entry.1, clients)
    &&& status.tools_count == expected_tools_count(entry.0, entry.1, clients)
    &&& status.error is None
}

/// Every tool of every connected server, paired with the server's name,
/// server by server in order.
pub open spec fn tools_of_clients<C>(clients: Seq<(Seq<char>, ServerConnection<C>)>) -> Seq<(Seq<char>, McpTool)>
    decreases clients.len(),
{
    if clients.len() == 0 {
        Seq::empty()
    } else {
        let last = clients.last();
        tools_of_clients(clients.drop_last()) + last.1.tools@.map_values(|t: McpTool| (last.0, t))
    }
}

/// What `start_server` answers for a name that the configuration lacks.
pub open spec fn not_in_config_message(name: Seq<char>) -> Seq<char> {
    "Server '"@ + name + "' not found in config"@
}

/// What `call_tool` answers for a server that is not connected.
pub open spec fn not_connected_message(name: Seq<char>) -> Seq<char> {
    "Server '"@ + name + "' not connected"@
}

/// `Server '<name><tail>`.
fn server_message(name: &str, tail: &str) -> (r: String)
    ensures
        r@ == "Server '"@ + name@ + tail@,
{
    let mut r = "Server '".to_owned();
    r.append(name);
    r.append(tail);
    r
}

/// The names of the servers of `config` that are not disabled, in order.
fn enabled_server_names(config: &McpConfig) -> (r: Vec<String>)
    ensures
        strings_view(r@) == enabled_servers(config@),
{
    let servers = config.servers();
    let ghost cv = config@;
    let mut names: Vec<String> = Vec::new();
    let mut i: usize = 0;
    while i < servers.len()
        invariant
            i <= servers@.len(),
            entries_view(servers@) == cv,
            strings_view(names@) == enabled_servers(cv.take(i as int)),
        decreases servers@.len() - i,
    {
        proof {
            assert(cv[i as int] == (servers@[i as int].0@, servers@[i as int].1));
            assert(cv.take(i + 1).drop_last() =~= cv.take(i as int));
        }
        if !servers[i].1.disabled {
            let ghost before = names@;
            names.push(servers[i].0.clone());
            proof {
                assert(strings_view(names@) =~= strings_view(before).push(cv[i as int].0));
            }
        }
        i = i + 1;
    }
    proof {
        assert(cv.take(servers@.len() as int) =~= cv);
    }
    names
}

/// Manages the configured MCP servers of one workspace.
pub struct McpManager<C> {
    config: Option<McpConfig>,
    clients: Vec<(String, ServerConnection<C>)>,
    workspace_path: Option<String>,
    auto_approve_cache: Vec<(String, Vec<String>)>,
}

/// A cache list with every string taken by its view.
pub open spec fn cache_view(v: Seq<(String, Vec<String>)>) -> Seq<(Seq<char>, Seq<Seq<char>>)> {
    v.map_values(|p: (String, Vec<String>)| (p.0@, strings_view(p.1@)))
}

impl<C> View for McpManager<C> {
    type V = ManagerView<C>;

    closed spec fn view(&self) -> ManagerView<C> {
        ManagerView {
            config: match self.config {
                Some(c) => Some(c@),
                None => None,
            },
            clients: entries_view(self.clients@),
            workspace_path: match self.workspace_path {
                Some(p) => Some(p@),
                None => None,
            },
            auto_approve: cache_view(self.auto_approve_cache@),
        }
    }
}

impl<C> McpManager<C> {
    /// A manager with no workspace, no configuration and no server.
    pub fn new() -> (r: Self)
        ensures
            r@.config is None,
            r@.clients == Seq::<(Seq<char>, ServerConnection<C>)>::empty(),
            r@.workspace_path is None,
            r@.auto_approve == Seq::<(Seq<char>, Seq<Seq<char>>)>::empty(),
            r@.wf(),
    {
        let r = McpManager {
            config: None,
            clients: Vec::new(),
            workspace_path: None,
            auto_approve_cache: Vec::new(),
        };
        assert(r@.clients =~= Seq::<(Seq<char>, ServerConnection<C>)>::empty());
        assert(r@.auto_approve =~= Seq::<(Seq<char>, Seq<Seq<char>>)>::empty());
        r
    }

    /// Refills the auto-approve cache from the loaded configuration; without
    /// one the cache is left empty.
    pub fn rebuild_auto_approve_cache(&mut self)
        requires
            old(self)@.config matches Some(c) ==> unique_keys(c),
            old(self)@.workspace_path is None ==> old(self)@.config is None,
            unique_keys(old(self)@.clients),
        ensures
            final(self)@.wf(),
            final(self)@.config == old(self)@.config,
            final(self)@.clients == old(self)@.clients,
            final(self)@.workspace_path == old(self)@.workspace_path,
            final(self)@.auto_approve == cache_for(old(self)@.config),
    {
        let mut cache: Vec<(String, Vec<String>)> = Vec::new();
        match &self.config {
            Some(config) => {
                let servers = config.servers();
                let ghost cv = config@;
                let mut i: usize = 0;
                while i < servers.len()
                    invariant
                        i <= servers@.len(),
                        entries_view(servers@) == cv,
                        cache_view(cache@) == approvals_of(cv.take(i as int)),
                    decreases servers@.len() - i,
                {
                    let name = servers[i].0.clone();
                    let list = clone_strings(&servers[i].1.auto_approve);
                    let ghost before = cache@;
                    let ghost entry = (name@, strings_view(list@));
                    cache.push((name, list));
                    proof {
                        assert(cv[i as int] == (servers@[i as int].0@, servers@[i as int].1));
                        assert(cache_view(cache@) =~= cache_view(before).push(entry));
                        assert(cv.take(i + 1) =~= cv.take(i as int).push(cv[i as int]));
                        assert(approvals_of(cv.take(i + 1)) =~= approvals_of(cv.take(i as int)).push(entry));
                    }
                    i = i + 1;
                }
                proof {
                    assert(cv.take(servers@.len() as int) =~= cv);
                }
            },
            None => {
                assert(cache_view(cache@) =~= Seq::<(Seq<char>, Seq<Seq<char>>)>::empty());
            },
        }
        self.auto_approve_cache = cache;
        proof {
            if let Some(c) = self@.config {
                let a = self@.auto_approve;
                assert forall|x: int, y: int| 0 <= x < a.len() && 0 <= y < a.len() && x != y implies #[trigger] a[x].0 != #[trigger] a[y].0 by {
                    assert(a[x].0 == c[x].0 && a[y].0 == c[y].0);
                }
            }
        }
    }
    /// The synchronous part of initialisation: records the workspace and the
    /// configuration loaded for it (none where loading failed) and rebuilds
    /// the cache from it. With a configuration the names of its enabled
    /// servers, to be connected by the caller, come back in order; without
    /// one the cache is emptied and nothing is to be connected.
    pub fn begin_init(&mut self, workspace_path: &str, config: Option<McpConfig>) -> (to_start: Vec<String>)
        requires
            old(self)@.wf(),
            config matches Some(c) ==> c.wf(),
        ensures
            final(self)@.wf(),
            final(self)@.workspace_path == Some(workspace_path@),
            final(self)@.config == (match config {
                Some(c) => Some(c@),
                None => None,
            }),
            final(self)@.clients == old(self)@.clients,
            final(self)@.auto_approve == (match config {
                Some(c) => approvals_of(c@),
                None => Seq::<(Seq<char>, Seq<Seq<char>>)>::empty(),
            }),
            strings_view(to_start@) == (match config {
                Some(c) => enabled_servers(c@),
                None => Seq::<Seq<char>>::empty(),
            }),
    {
        self.workspace_path = Some(workspace_path.to_owned());
        self.config = config;
        self.rebuild_auto_approve_cache();
        match &self.config {
            Some(c) => enabled_server_names(c),
            None => {
                let none: Vec<String> = Vec::new();
                assert(strings_view(none@) =~= Seq::<Seq<char>>::empty());
                none
            },
        }
    }

    /// The configuration of the server `name`, for starting it; an error
    /// where no configuration is loaded or it has no such server.
    pub fn server_config(&self, name: &str) -> (r: Result<&McpServerConfig, String>)
        requires
            self@.wf(),
        ensures
            match r {
                Ok(c) => self@.config matches Some(cfg) && has_key(cfg, name@) && *c == value_of(cfg, name@),
                Err(msg) => !(self@.config matches Some(cfg) && has_key(cfg, name@))
                    && msg@ == not_in_config_message(name@),
            },
    {
        let found = match &self.config {
            Some(c) => c.get(name),
            None => None,
        };
        match found {
            Some(c) => Ok(c),
            None => Err(server_message(name, "' not found in config")),
        }
    }

    /// Records the server `name` as connected through `client` with `tools`,
    /// in place of an earlier connection under that name.
    pub fn insert_client(&mut self, name: &str, client: C, tools: Vec<McpTool>)
        requires
            old(self)@.wf(),
        ensures
            final(self)@.wf(),
            final(self)@.clients == insert_entry(old(self)@.clients, name@, (ServerConnection { client, tools })),
            final(self)@.config == old(self)@.config,
            final(self)@.workspace_path == old(self)@.workspace_path,
            final(self)@.auto_approve == old(self)@.auto_approve,
    {
        let ghost old_clients = self@.clients;
        let ghost conn = ServerConnection { client, tools };
        let key = name.to_owned();
        match find_key(&self.clients, name) {
            Some(i) => {
                proof {
                    lemma_unique_index(old_clients, i as int);
                }
                let _ = self.clients.remove(i);
                self.clients.insert(i, (key, ServerConnection { client, tools }));
                assert(self@.clients =~= old_clients.update(i as int, (name@, conn)));
            },
            None => {
                self.clients.push((key, ServerConnection { client, tools }));
                assert(self@.clients =~= old_clients.push((name@, conn)));
            },
        }
        proof {
            lemma_insert_keeps_unique(old_clients, name@, conn);
        }
    }

    /// Forgets the server `name` and hands back its client, to be shut down
    /// by the caller; nothing where it was not connected.
    pub fn remove_client(&mut self, name: &str) -> (r: Option<C>)
        requires
            old(self)@.wf(),
        ensures
            final(self)@.wf(),
            final(self)@.clients == remove_entry(old(self)@.clients, name@),
            match r {
                Some(c) => has_key(old(self)@.clients, name@) && c == value_of(old(self)@.clients, name@).client,
                None => !has_key(old(self)@.clients, name@),
            },
            final(self)@.config == old(self)@.config,
            final(self)@.workspace_path == old(self)@.workspace_path,
            final(self)@.auto_approve == old(self)@.auto_approve,
    {
        let ghost old_clients = self@.clients;
        proof {
            lemma_remove_keeps_unique(old_clients, name@);
        }
        match find_key(&self.clients, name) {
            Some(i) => {
                proof {
                    lemma_unique_index(old_clients, i as int);
                }
                let (_, conn) = self.clients.remove(i);
                assert(self@.clients =~= old_clients.remove(i as int));
                Some(conn.client)
            },
            None => None,
        }
    }

    /// Forgets every connected server and hands back the clients, in order,
    /// each with its server's name, to be shut down by the caller.
    pub fn take_all_clients(&mut self) -> (r: Vec<(String, C)>)
        requires
            old(self)@.wf(),
        ensures
            final(self)@.wf(),
            final(self)@.clients == Seq::<(Seq<char>, ServerConnection<C>)>::empty(),
            entries_view(r@) == old(self)@.clients.map_values(
                |p: (Seq<char>, ServerConnection<C>)| (p.0, p.1.client),
            ),
            final(self)@.config == old(self)@.config,
            final(self)@.workspace_path == old(self)@.workspace_path,
            final(self)@.auto_approve == old(self)@.auto_approve,
    {
        let mut rest: Vec<(String, ServerConnection<C>)> = Vec::new();
        std::mem::swap(&mut rest, &mut self.clients);
        let ghost all = rest@;
        let ghost want = entries_view(all).map_values(|p: (Seq<char>, ServerConnection<C>)| (p.0, p.1.client));
        let mut out: Vec<(String, C)> = Vec::new();
        while rest.len() > 0
            invariant
                want == entries_view(all).map_values(|p: (Seq<char>, ServerConnection<C>)| (p.0, p.1.client)),
                out@.len() + rest@.len() == all.len(),
                rest@ == all.skip(out@.len() as int),
                entries_view(out@) == want.take(out@.len() as int),
            decreases rest@.len(),
        {
            let ghost k = out@.len() as int;
            let (name, conn) = rest.remove(0);
            let ghost before = out@;
            out.push((name, conn.client));
            proof {
                assert(all.skip(k)[0] == all[k]);
                assert(rest@ =~= all.skip(k + 1));
                assert(entries_view(out@) =~= entries_view(before).push(want[k]));
                assert(want.take(k + 1) =~= want.take(k).push(want[k]));
            }
        }
        proof {
            assert(want.take(all.len() as int) =~= want);
            assert(self@.clients =~= Seq::<(Seq<char>, ServerConnection<C>)>::empty());
        }
        out
    }

    /// One report line for each configured server, in the order of the
    /// configuration; none without a configuration.
    pub fn list_servers(&self) -> (r: Vec<McpServerStatus>)
        requires
            self@.wf(),
        ensures
            match self@.config {
                Some(c) => r@.len() == c.len() && forall|i: int|
                    0 <= i < c.len() ==> reports(#[trigger] r@[i], c[i], self@.clients),
                None => r@.len() == 0,
            },
    {
        let mut statuses: Vec<McpServerStatus> = Vec::new();
        match &self.config {
            Some(config) => {
                let servers = config.servers();
                let ghost cv = config@;
                let ghost clients = self@.clients;
                let mut i: usize = 0;
                while i < servers.len()
                    invariant
                        i <= servers@.len(),
                        entries_view(servers@) == cv,
                        clients == self@.clients,
                        unique_keys(clients),
                        statuses@.len() == i,
                        forall|k: int| 0 <= k < i ==> reports(#[trigger] statuses@[k], cv[k], clients),
                    decreases servers@.len() - i,
                {
                    let name = &servers[i].0;
                    let server_config = &servers[i].1;
                    proof {
                        assert(cv[i as int] == (name@, *server_config));
                    }
                    let status = if server_config.disabled {
                        McpServerStatus {
                            name: name.clone(),
                            status: ServerConnectionStatus::Disabled,
                            tools_count: 0,
                            error: None,
                        }
                    } else {
                        match find_key(&self.clients, name.as_str()) {
                            Some(j) => {
                                proof {
                                    lemma_unique_index(clients, j as int);
                                }
                                McpServerStatus {
                                    name: name.clone(),
                                    status: ServerConnectionStatus::Connected,
                                    tools_count: self.clients[j].1.tools.len(),
                                    error: None,
                                }
                            },
                            None => McpServerStatus {
                                name: name.clone(),
                                status: ServerConnectionStatus::Disconnected,
                                tools_count: 0,
                                error: None,
                            },
                        }
                    };
                    statuses.push(status);
                    i = i + 1;
                }
            },
            None => {},
        }
        statuses
    }

    /// Every tool of every connected server, each with its server's name.
    pub fn get_all_tools(&self) -> (r: Vec<(String, McpTool)>)
        requires
            self@.wf(),
        ensures
            entries_view(r@) == tools_of_clients(self@.clients),
    {
        let ghost clients = self@.clients;
        let mut all_tools: Vec<(String, McpTool)> = Vec::new();
        let mut i: usize = 0;
        assert(entries_view(all_tools@) =~= tools_of_clients(clients.take(0)));
        while i < self.clients.len()
            invariant
                i <= clients.len(),
                clients == self@.clients,
                entries_view(all_tools@) == tools_of_clients(clients.take(i as int)),
            decreases clients.len() - i,
        {
            let conn = &self.clients[i].1;
            let name = &self.clients[i].0;
            let tools = &self.clients[i].1.tools;
            let ghost done = tools_of_clients(clients.take(i as int));
            let ghost entry = clients[i as int];
            proof {
                assert(entry == (name@, *conn));
            }
            let mut j: usize = 0;
            assert(entries_view(all_tools@) =~= done + tools@.take(0).map_values(|t: McpTool| (entry.0, t)));
            while j < tools.len()
                invariant
                    j <= tools@.len(),
                    entry.0 == name@,
                    entries_view(all_tools@) == done + tools@.take(j as int).map_values(|t: McpTool| (entry.0, t)),
                decreases tools@.len() - j,
            {
                let ghost before = all_tools@;
                let tool = tools[j].duplicate();
                all_tools.push((name.clone(), tool));
                proof {
                    assert(tools@.take(j + 1) =~= tools@.take(j as int).push(tools@[j as int]));
                    assert(entries_view(all_tools@) =~= entries_view(before).push((entry.0, tools@[j as int])));
                    assert(entries_view(all_tools@) =~= done + tools@.take(j + 1).map_values(|t: McpTool| (entry.0, t)));
                }
                j = j + 1;
            }
            proof {
                assert(tools@.take(tools@.len() as int) =~= tools@);
                assert(clients.take(i + 1).drop_last() =~= clients.take(i as int));
                assert(clients.take(i + 1).last() == entry);
                assert(entry.1.tools == *tools);
            }
            i = i + 1;
        }
        proof {
            assert(clients.take(clients.len() as int) =~= clients);
        }
        all_tools
    }

    /// The client of the server `server_name`, for a tool call; an error
    /// where that server is not connected.
    pub fn client_for_call(&self, server_name: &str) -> (r: Result<&C, String>)
        requires
            self@.wf(),
        ensures
            match r {
                Ok(c) => has_key(self@.clients, server_name@) && *c == value_of(self@.clients, server_name@).client,
                Err(msg) => !has_key(self@.clients, server_name@) && msg@ == not_connected_message(server_name@),
            },
    {
        match self.get_client(server_name) {
            Some(c) => Ok(c),
            None => Err(server_message(server_name, "' not connected")),
        }
    }

    /// The client of the server `server_name`, if it is connected.
    pub fn get_client(&self, server_name: &str) -> (r: Option<&C>)
        requires
            self@.wf(),
        ensures
            match r {
                Some(c) => has_key(self@.clients, server_name@) && *c == value_of(self@.clients, server_name@).client,
                None => !has_key(self@.clients, server_name@),
            },
    {
        match find_key(&self.clients, server_name) {
            Some(i) => {
                proof {
                    lemma_unique_index(self@.clients, i as int);
                }
                Some(&self.clients[i].1.client)
            },
            None => None,
        }
    }

    /// Whether `tool_name` of `server_name` is in the auto-approve cache.
    pub fn is_auto_approved(&self, server_name: &str, tool_name: &str) -> (r: bool)
        requires
            self@.wf(),
        ensures
            r == approves(self@.auto_approve, server_name@, tool_name@),
    {
        let cache = &self.auto_approve_cache;
        let ghost cv = self@.auto_approve;
        let found = find_key(cache, server_name);
        assert(entries_view(cache@).len() == cv.len());
        assert forall|j: int| 0 <= j < cv.len() implies #[trigger] cv[j].0 == entries_view(cache@)[j].0 by {}
        match found {
            Some(i) => {
                proof {
                    lemma_unique_index(cv, i as int);
                }
                let list = &cache[i].1;
                let wanted = tool_name.to_owned();
                let ghost lv = strings_view(list@);
                assert(cv[i as int].0 == server_name@);
                assert(lv == cv[i as int].1);
                assert(value_of(cv, server_name@) == lv);
                let mut j: usize = 0;
                while j < list.len()
                    invariant
                        j <= list@.len(),
                        wanted@ == tool_name@,
                        lv == strings_view(list@),
                        has_key(cv, server_name@),
                        value_of(cv, server_name@) == lv,
                        cv == self@.auto_approve,
                        forall|k: int| 0 <= k < j ==> lv[k] != tool_name@,
                    decreases list@.len() - j,
                {
                    if list[j] == wanted {
                        assert(lv[j as int] == tool_name@);
                        return true;
                    }
                    j = j + 1;
                }
                false
            },
            None => {
                assert(!has_key(cv, server_name@)) by {
                    if has_key(cv, server_name@) {
                        let k = index_of(cv, server_name@);
                        assert(entries_view(cache@)[k].0 == server_name@);
                    }
                }
                false
            },
        }
    }

    /// The number of connected servers.
    pub fn connected_count(&self) -> (r: usize)
        ensures
            r == self@.clients.len(),
    {
        self.clients.len()
    }

    /// Whether a workspace has been set.
    pub fn is_initialized(&self) -> (r: bool)
        ensures
            r == self@.workspace_path is Some,
    {
        self.workspace_path.is_some()
    }

    /// The workspace, if one has been set.
    pub fn workspace_path(&self) -> (r: Option<&str>)
        ensures
            match r {
                Some(p) => self@.workspace_path == Some(p@),
                None => self@.workspace_path is None,
            },
    {
        match &self.workspace_path {
            Some(p) => Some(p.as_str()),
            None => None,
        }
    }
}

/// The servers to start are the configured servers that are not disabled,
/// in configuration order, whatever their command, arguments, environment
/// or auto-approve list.
pub proof fn lemma_enabled_servers_are_the_enabled_ones(config: Seq<(Seq<char>, McpServerConfig)>)
    ensures
        enabled_servers(config) == config.filter(|p: (Seq<char>, McpServerConfig)| !p.1.disabled).map_values(
            |p: (Seq<char>, McpServerConfig)| p.0,
        ),
    decreases config.len(),
{
    reveal(Seq::filter);
    if config.len() > 0 {
        lemma_enabled_servers_are_the_enabled_ones(config.drop_last());
        let f = config.filter(|p: (Seq<char>, McpServerConfig)| !p.1.disabled);
        let g = config.drop_last().filter(|p: (Seq<char>, McpServerConfig)| !p.1.disabled);
        if !config.last().1.disabled {
            assert(f == g.push(config.last()));
            assert(f.map_values(|p: (Seq<char>, McpServerConfig)| p.0) =~= g.map_values(
                |p: (Seq<char>, McpServerConfig)| p.0,
            ).push(config.last().0));
        } else {
            assert(f == g);
        }
    }
}

/// A name is to be started exactly when the configuration has a server of
/// that name that is not disabled; no name is to be started twice.
pub proof fn lemma_enabled_servers_membership(config: Seq<(Seq<char>, McpServerConfig)>, name: Seq<char>)
    requires
        unique_keys(config),
    ensures
        enabled_servers(config).contains(name) <==> (has_key(config, name) && !value_of(config, name).disabled),
        enabled_servers(config).no_duplicates(),
    decreases config.len(),
{
    let rest = config.drop_last();
    if config.len() > 0 {
        assert forall|i: int, j: int| 0 <= i < rest.len() && 0 <= j < rest.len() && i != j implies #[trigger] rest[i].0
            != #[trigger] rest[j].0 by {
            assert(rest[i] == config[i] && rest[j] == config[j]);
        }
        lemma_enabled_servers_membership(rest, name);
        lemma_enabled_servers_membership(rest, config.last().0);
        let n = config.len() - 1;
        let last = config.last();
        assert(config[n] == last);
        lemma_unique_index(config, n);
        if has_key(rest, name) {
            let i = index_of(rest, name);
            assert(config[i] == rest[i]);
            lemma_unique_index(config, i);
            lemma_unique_index(rest, i);
        }
        if has_key(config, name) && name != last.0 {
            let i = index_of(config, name);
            assert(i != n);
            assert(rest[i] == config[i]);
        }
        if has_key(rest, last.0) {
            let i = index_of(rest, last.0);
            assert(config[i] == rest[i]);
        }
        let r = enabled_servers(rest);
        if !last.1.disabled {
            assert(!r.contains(last.0));
            let e = r.push(last.0);
            assert forall|a: int, b: int| 0 <= a < e.len() && 0 <= b < e.len() && a != b implies e[a] != e[b] by {
                if a < r.len() && b < r.len() {
                } else if a == r.len() {
                    assert(e[b] == r[b]);
                } else {
                    assert(e[a] == r[a]);
                }
            }
            if e.contains(name) && name != last.0 {
                let k = choose|k: int| 0 <= k < e.len() && e[k] == name;
                assert(r[k] == name);
            }
            if r.contains(name) {
                let k = choose|k: int| 0 <= k < r.len() && r[k] == name;
                assert(e[k] == name);
            }
            assert(e[r.len() as int] == last.0);
        }
    }
}

/// A report line is Disabled exactly when the server is disabled; otherwise
/// it is Connected exactly when the server has a connection, whatever the
/// number of tools that connection offers, and Disconnected exactly when it
/// has none. Only a connected server counts tools: those of its connection.
pub proof fn lemma_report_status<C>(
    status: McpServerStatus,
    entry: (Seq<char>, McpServerConfig),
    clients: Seq<(Seq<char>, ServerConnection<C>)>,
)
    requires
        reports(status, entry, clients),
    ensures
        status.name@ == entry.0,
        status.error is None,
        (status.status == ServerConnectionStatus::Disabled) <==> entry.1.disabled,
        (status.status == ServerConnectionStatus::Connected) <==> (!entry.1.disabled && has_key(clients, entry.0)),
        (status.status == ServerConnectionStatus::Disconnected) <==> (!entry.1.disabled && !has_key(
            clients,
            entry.0,
        )),
        status.status != ServerConnectionStatus::Error,
        status.tools_count == (if status.status == ServerConnectionStatus::Connected {
            value_of(clients, entry.0).tools@.len()
        } else {
            0
        }),
{
}

impl<C> Default for McpManager<C> {
    /// The same as `new`.
    fn default() -> (r: Self)
        ensures
            r@.config is None,
            r@.clients == Seq::<(Seq<char>, ServerConnection<C>)>::empty(),
            r@.workspace_path is None,
            r@.auto_approve == Seq::<(Seq<char>, Seq<Seq<char>>)>::empty(),
            r@.wf(),
    {
        Self::new()
    }
}

/// While a configuration is loaded, a tool is auto-approved exactly when the
/// configuration lists it under its server.
pub proof fn lemma_auto_approve_follows_config<C>(m: ManagerView<C>, server: Seq<char>, tool: Seq<char>)
    requires
        m.wf(),
        m.config is Some,
    ensures
        approves(m.auto_approve, server, tool) == (has_key(m.config->0, server) && strings_view(
            value_of(m.config->0, server).auto_approve@,
        ).contains(tool)),
{
    let c = m.config->0;
    let a = m.auto_approve;
    assert(a.len() == c.len());
    assert forall|i: int| 0 <= i < c.len() implies #[trigger] a[i].0 == c[i].0 by {}
    if has_key(c, server) {
        let i = index_of(c, server);
        lemma_unique_index(c, i);
        assert(a[i].0 == server);
        lemma_unique_index(a, i);
        assert(a[i].1 == strings_view(c[i].1.auto_approve@));
    }
    if has_key(a, server) {
        let i = index_of(a, server);
        assert(c[i].0 == server);
    }
}

/// A manager that has no workspace has no configuration, so it reports no
/// server and approves no tool.
pub proof fn lemma_uninitialized_holds_nothing<C>(m: ManagerView<C>, server: Seq<char>, tool: Seq<char>)
    requires
        m.wf(),
        m.workspace_path is None,
    ensures
        m.config is None,
        m.auto_approve == Seq::<(Seq<char>, Seq<Seq<char>>)>::empty(),
        !approves(m.auto_approve, server, tool),
{
}

/// Without a configuration no tool is auto-approved.
pub proof fn lemma_no_approval_without_config<C>(m: ManagerView<C>, server: Seq<char>, tool: Seq<char>)
    requires
        m.wf(),
        m.config is None,
    ensures
        !approves(m.auto_approve, server, tool),
{
}

/// A server that has just been connected is reported connected, with the
/// tools of its new connection, unless it is disabled; the report of every
/// other server is unchanged.
pub proof fn lemma_report_after_connect<C>(
    clients: Seq<(Seq<char>, ServerConnection<C>)>,
    name: Seq<char>,
    conn: ServerConnection<C>,
    other: Seq<char>,
    config: McpServerConfig,
)
    requires
        unique_keys(clients),
    ensures
        expected_status(name, config, insert_entry(clients, name, conn)) == (if config.disabled {
            ServerConnectionStatus::Disabled
        } else {
            ServerConnectionStatus::Connected
        }),
        expected_tools_count(name, config, insert_entry(clients, name, conn)) == (if config.disabled {
            0
        } else {
            conn.tools@.len()
        }),
        other != name ==> expected_status(other, config, insert_entry(clients, name, conn))
            == expected_status(other, config, clients),
        other != name ==> expected_tools_count(other, config, insert_entry(clients, name, conn))
            == expected_tools_count(other, config, clients),
{
    lemma_insert_keeps_unique(clients, name, conn);
    let t = insert_entry(clients, name, conn);
    assert(lookup(t, name) == Some(conn));
    if other != name {
        assert(lookup(t, other) == lookup(clients, other));
    }
}

/// A server that has just been stopped is reported disconnected, unless it
/// is disabled; the report of every other server is unchanged.
pub proof fn lemma_report_after_stop<C>(
    clients: Seq<(Seq<char>, ServerConnection<C>)>,
    name: Seq<char>,
    other: Seq<char>,
    config: McpServerConfig,
)
    requires
        unique_keys(clients),
    ensures
        expected_status(name, config, remove_entry(clients, name)) == (if config.disabled {
            ServerConnectionStatus::Disabled
        } else {
            ServerConnectionStatus::Disconnected
        }),
        expected_tools_count(name, config, remove_entry(clients, name)) == 0,
        other != name ==> expected_status(other, config, remove_entry(clients, name))
            == expected_status(other, config, clients),
        other != name ==> expected_tools_count(other, config, remove_entry(clients, name))
            == expected_tools_count(other, config, clients),
{
    lemma_remove_keeps_unique(clients, name);
    let t = remove_entry(clients, name);
    assert(lookup(t, name) is None);
    if other != name {
        assert(lookup(t, other) == lookup(clients, other));
    }
}

/// Without connected servers there are no tools, and every enabled server is
/// reported disconnected.
pub proof fn lemma_nothing_after_shutdown<C>(name: Seq<char>, config: McpServerConfig)
    ensures
        tools_of_clients(Seq::<(Seq<char>, ServerConnection<C>)>::empty()) == Seq::<(Seq<char>, McpTool)>::empty(),
        expected_status(name, config, Seq::<(Seq<char>, ServerConnection<C>)>::empty()) == (if config.disabled {
            ServerConnectionStatus::Disabled
        } else {
            ServerConnectionStatus::Disconnected
        }),
{
}

/// The entries that one connected server adds to the tool list.
pub open spec fn server_block<C>(entry: (Seq<char>, ServerConnection<C>)) -> Seq<(Seq<char>, McpTool)> {
    entry.1.tools@.map_values(|t: McpTool| (entry.0, t))
}

/// The number of entries of a tool list that belong to the server `name`.
pub open spec fn entries_for(list: Seq<(Seq<char>, McpTool)>, name: Seq<char>) -> nat
    decreases list.len(),
{
    if list.len() == 0 {
        0
    } else {
        entries_for(list.drop_last(), name) + if list.last().0 == name {
            1nat
        } else {
            0nat
        }
    }
}

/// The total number of tools of the connected servers.
pub open spec fn total_tools<C>(clients: Seq<(Seq<char>, ServerConnection<C>)>) -> nat
    decreases clients.len(),
{
    if clients.len() == 0 {
        0
    } else {
        total_tools(clients.drop_last()) + clients.last().1.tools@.len()
    }
}

/// The tool list of two runs of servers is the tool list of the first
/// followed by that of the second.
pub proof fn lemma_tools_of_clients_append<C>(
    a: Seq<(Seq<char>, ServerConnection<C>)>,
    b: Seq<(Seq<char>, ServerConnection<C>)>,
)
    ensures
        tools_of_clients(a + b) == tools_of_clients(a) + tools_of_clients(b),
    decreases b.len(),
{
    if b.len() == 0 {
        assert(a + b =~= a);
        assert(tools_of_clients(a) + tools_of_clients(b) =~= tools_of_clients(a));
    } else {
        lemma_tools_of_clients_append(a, b.drop_last());
        assert((a + b).drop_last() =~= a + b.drop_last());
        assert((a + b).last() == b.last());
        assert(tools_of_clients(a + b) =~= tools_of_clients(a) + tools_of_clients(b));
    }
}

/// Every entry of the tool list carries the name of one of the servers.
pub proof fn lemma_tools_of_clients_names<C>(clients: Seq<(Seq<char>, ServerConnection<C>)>)
    ensures
        forall|j: int|
            0 <= j < tools_of_clients(clients).len() ==> exists|k: int|
                0 <= k < clients.len() && #[trigger] tools_of_clients(clients)[j].0 == clients[k].0,
    decreases clients.len(),
{
    if clients.len() > 0 {
        let rest = clients.drop_last();
        lemma_tools_of_clients_names(rest);
        let list = tools_of_clients(clients);
        let n = tools_of_clients(rest).len();
        assert forall|j: int| 0 <= j < list.len() implies exists|k: int|
            0 <= k < clients.len() && #[trigger] list[j].0 == clients[k].0 by {
            if j < n {
                assert(list[j] == tools_of_clients(rest)[j]);
                let k = choose|k: int| 0 <= k < rest.len() && tools_of_clients(rest)[j].0 == rest[k].0;
                assert(clients[k] == rest[k]);
            } else {
                assert(list[j].0 == clients.last().0);
                assert(clients[clients.len() - 1] == clients.last());
            }
        }
    }
}

/// The tool list of a single server is its block.
proof fn lemma_tools_of_one<C>(entry: (Seq<char>, ServerConnection<C>))
    ensures
        tools_of_clients(seq![entry]) == server_block(entry),
{
    let one = seq![entry];
    let none = Seq::<(Seq<char>, ServerConnection<C>)>::empty();
    assert(one.drop_last() =~= none);
    assert(one.last() == entry);
    assert(tools_of_clients(none) == Seq::<(Seq<char>, McpTool)>::empty());
    assert(tools_of_clients(one) == tools_of_clients(none) + server_block(entry));
    assert(tools_of_clients(one) =~= server_block(entry));
}

/// In the tool list, the entries of a connected server form one run, which
/// holds its tools in their order; no entry before or after that run
/// belongs to it.
pub proof fn lemma_server_tools_contiguous<C>(clients: Seq<(Seq<char>, ServerConnection<C>)>, i: int)
    requires
        unique_keys(clients),
        0 <= i < clients.len(),
    ensures
        tools_of_clients(clients) == tools_of_clients(clients.take(i)) + server_block(clients[i])
            + tools_of_clients(clients.skip(i + 1)),
        forall|j: int|
            0 <= j < tools_of_clients(clients.take(i)).len() ==> #[trigger] tools_of_clients(
                clients.take(i),
            )[j].0 != clients[i].0,
        forall|j: int|
            0 <= j < tools_of_clients(clients.skip(i + 1)).len() ==> #[trigger] tools_of_clients(
                clients.skip(i + 1),
            )[j].0 != clients[i].0,
{
    let pre = clients.take(i);
    let post = clients.skip(i + 1);
    assert(clients =~= pre + seq![clients[i]] + post);
    lemma_tools_of_clients_append(pre + seq![clients[i]], post);
    lemma_tools_of_clients_append(pre, seq![clients[i]]);
    lemma_tools_of_one(clients[i]);
    lemma_tools_of_clients_names(pre);
    lemma_tools_of_clients_names(post);
    assert forall|j: int| 0 <= j < tools_of_clients(pre).len() implies #[trigger] tools_of_clients(pre)[j].0
        != clients[i].0 by {
        let k = choose|k: int| 0 <= k < pre.len() && tools_of_clients(pre)[j].0 == pre[k].0;
        assert(pre[k] == clients[k]);
    }
    assert forall|j: int| 0 <= j < tools_of_clients(post).len() implies #[trigger] tools_of_clients(post)[j].0
        != clients[i].0 by {
        let k = choose|k: int| 0 <= k < post.len() && tools_of_clients(post)[j].0 == post[k].0;
        assert(post[k] == clients[i + 1 + k]);
    }
}

/// Counting entries distributes over concatenation.
proof fn lemma_entries_for_append(a: Seq<(Seq<char>, McpTool)>, b: Seq<(Seq<char>, McpTool)>, name: Seq<char>)
    ensures
        entries_for(a + b, name) == entries_for(a, name) + entries_for(b, name),
    decreases b.len(),
{
    if b.len() == 0 {
        assert(a + b =~= a);
    } else {
        lemma_entries_for_append(a, b.drop_last(), name);
        assert((a + b).drop_last() =~= a + b.drop_last());
        assert((a + b).last() == b.last());
    }
}

/// A list in which no entry belongs to `name` has no entry for it.
proof fn lemma_entries_for_absent(list: Seq<(Seq<char>, McpTool)>, name: Seq<char>)
    requires
        forall|j: int| 0 <= j < list.len() ==> #[trigger] list[j].0 != name,
    ensures
        entries_for(list, name) == 0,
    decreases list.len(),
{
    if list.len() > 0 {
        assert forall|j: int| 0 <= j < list.drop_last().len() implies #[trigger] list.drop_last()[j].0 != name by {
            assert(list.drop_last()[j] == list[j]);
        }
        lemma_entries_for_absent(list.drop_last(), name);
        assert(list.last() == list[list.len() - 1]);
    }
}

/// The tools `tools` of server `server` give one entry per tool for that
/// server and none for another.
proof fn lemma_entries_for_map_prefix(server: Seq<char>, tools: Seq<McpTool>, name: Seq<char>)
    ensures
        entries_for(tools.map_values(|t: McpTool| (server, t)), name) == if server == name {
            tools.len()
        } else {
            0
        },
    decreases tools.len(),
{
    let block = tools.map_values(|t: McpTool| (server, t));
    if tools.len() > 0 {
        lemma_entries_for_map_prefix(server, tools.drop_last(), name);
        assert(block.drop_last() =~= tools.drop_last().map_values(|t: McpTool| (server, t)));
    }
}

/// In the report, a server that is connected has as many tools as it has
/// entries in the tool list.
pub proof fn lemma_tools_count_matches_tool_list<C>(
    clients: Seq<(Seq<char>, ServerConnection<C>)>,
    name: Seq<char>,
    config: McpServerConfig,
)
    requires
        unique_keys(clients),
    ensures
        expected_status(name, config, clients) == ServerConnectionStatus::Connected ==> expected_tools_count(
            name,
            config,
            clients,
        ) == entries_for(tools_of_clients(clients), name),
        entries_for(tools_of_clients(clients), name) == if has_key(clients, name) {
            value_of(clients, name).tools@.len()
        } else {
            0
        },
{
    let list = tools_of_clients(clients);
    if has_key(clients, name) {
        let i = index_of(clients, name);
        lemma_server_tools_contiguous(clients, i);
        let pre = tools_of_clients(clients.take(i));
        let post = tools_of_clients(clients.skip(i + 1));
        lemma_entries_for_append(pre + server_block(clients[i]), post, name);
        lemma_entries_for_append(pre, server_block(clients[i]), name);
        lemma_entries_for_absent(pre, name);
        lemma_entries_for_absent(post, name);
        lemma_entries_for_map_prefix(name, clients[i].1.tools@, name);
    } else {
        lemma_tools_of_clients_names(clients);
        assert forall|j: int| 0 <= j < list.len() implies #[trigger] list[j].0 != name by {
            let k = choose|k: int| 0 <= k < clients.len() && list[j].0 == clients[k].0;
            assert(clients[k].0 == clients[k].0);
        }
        lemma_entries_for_absent(list, name);
    }
}

/// The tools of one server, as a multiset of (server, tool) pairs.
proof fn lemma_block_multiset(server: Seq<char>, tools: Seq<McpTool>, s: Seq<char>, t: McpTool)
    ensures
        tools.map_values(|x: McpTool| (server, x)).to_multiset().count((s, t)) == if server == s {
            tools.to_multiset().count(t)
        } else {
            0
        },
    decreases tools.len(),
{
    broadcast use vstd::seq_lib::group_to_multiset_ensures;

    let block = tools.map_values(|x: McpTool| (server, x));
    if tools.len() == 0 {
        assert(block =~= Seq::<(Seq<char>, McpTool)>::empty());
        assert(tools =~= Seq::<McpTool>::empty());
    } else {
        lemma_block_multiset(server, tools.drop_last(), s, t);
        assert(block =~= tools.drop_last().map_values(|x: McpTool| (server, x)).push((server, tools.last())));
        assert(tools =~= tools.drop_last().push(tools.last()));
    }
}

/// As multisets, the tool list holds each tool of each connected server
/// paired with that server's name, and nothing else; its length is the sum
/// of the servers' tool counts.
pub proof fn lemma_tool_list_multiset<C>(
    clients: Seq<(Seq<char>, ServerConnection<C>)>,
    s: Seq<char>,
    t: McpTool,
)
    requires
        unique_keys(clients),
    ensures
        tools_of_clients(clients).to_multiset().count((s, t)) == if has_key(clients, s) {
            value_of(clients, s).tools@.to_multiset().count(t)
        } else {
            0
        },
        tools_of_clients(clients).len() == total_tools(clients),
{
    broadcast use vstd::seq_lib::group_to_multiset_ensures;

    lemma_tool_list_len(clients);
    let list = tools_of_clients(clients);
    if has_key(clients, s) {
        let i = index_of(clients, s);
        lemma_server_tools_contiguous(clients, i);
        let pre = tools_of_clients(clients.take(i));
        let post = tools_of_clients(clients.skip(i + 1));
        vstd::seq_lib::lemma_multiset_commutative(pre + server_block(clients[i]), post);
        vstd::seq_lib::lemma_multiset_commutative(pre, server_block(clients[i]));
        lemma_block_multiset(s, clients[i].1.tools@, s, t);
        if pre.contains((s, t)) {
            let j = choose|j: int| 0 <= j < pre.len() && pre[j] == (s, t);
            assert(pre[j].0 != clients[i].0);
        }
        if post.contains((s, t)) {
            let j = choose|j: int| 0 <= j < post.len() && post[j] == (s, t);
            assert(post[j].0 != clients[i].0);
        }
    } else {
        lemma_tools_of_clients_names(clients);
        if list.contains((s, t)) {
            let j = choose|j: int| 0 <= j < list.len() && list[j] == (s, t);
            let k = choose|k: int| 0 <= k < clients.len() && list[j].0 == clients[k].0;
            assert(clients[k].0 == s);
        }
    }
}

/// The tool list has as many entries as the servers have tools.
proof fn lemma_tool_list_len<C>(clients: Seq<(Seq<char>, ServerConnection<C>)>)
    ensures
        tools_of_clients(clients).len() == total_tools(clients),
    decreases clients.len(),
{
    if clients.len() > 0 {
        lemma_tool_list_len(clients.drop_last());
    }
}

} // verus!
