//! Qualified tool names: the tool `t` of the server `s` is offered to the
//! agent as `mcp_s__t`. The first `__` after the prefix ends the server name,
//! which is why a server name should not contain `__`.
use vstd::prelude::*;
use vstd::string::*;

verus! {

/// The prefix of every qualified tool name.
pub open spec fn tool_prefix() -> Seq<char> {
    seq!['m', 'c', 'p', '_']
}

/// The separator between server and tool.
pub open spec fn separator() -> Seq<char> {
    seq!['_', '_']
}

/// `s` holds `__` at position `i`.
pub open spec fn separator_at(s: Seq<char>, i: int) -> bool {
    0 <= i && i + 1 < s.len() && s[i] == '_' && s[i + 1] == '_'
}

/// Position `i` holds the first `__` of `s`.
pub open spec fn first_separator(s: Seq<char>, i: int) -> bool {
    separator_at(s, i) && forall|j: int| 0 <= j < i ==> !#[trigger] separator_at(s, j)
}

/// The qualified name of the tool `tool` of the server `server`.
pub open spec fn qualified_tool_name(server: Seq<char>, tool: Seq<char>) -> Seq<char> {
    tool_prefix() + server + separator() + tool
}

/// The server and tool named by a qualified name: what lies between the
/// prefix and the first `__`, and what follows that `__`; none where the
/// name lacks the prefix or the separator.
pub open spec fn split_tool_name(full: Seq<char>) -> Option<(Seq<char>, Seq<char>)> {
    let rest = full.skip(4);
    if full.len() >= 4 && full.take(4) == tool_prefix() && exists|i: int| first_separator(rest, i) {
        let i = choose|i: int| first_separator(rest, i);
        Some((rest.take(i), rest.skip(i + 2)))
    } else {
        None
    }
}

/// A string has at most one first separator.
proof fn lemma_first_separator_unique(s: Seq<char>, i: int, j: int)
    requires
        first_separator(s, i),
        first_separator(s, j),
    ensures
        i == j,
{
    if i < j {
        assert(!separator_at(s, i));
    } else if j < i {
        assert(!separator_at(s, j));
    }
}

/// The qualified name of the tool `tool_name` of the server `server_name`.
pub fn format_tool_name(server_name: &str, tool_name: &str) -> (r: String)
    ensures
        r@ == qualified_tool_name(server_name@, tool_name@),
{
    let mut r = "mcp_".to_owned();
    r.append(server_name);
    r.append("__");
    r.append(tool_name);
    proof {
        reveal_strlit("mcp_");
        reveal_strlit("__");
        assert("mcp_"@ =~= tool_prefix());
        assert("__"@ =~= separator());
    }
    r
}

/// Splits a qualified tool name into server name and tool name.
pub fn parse_tool_name(full_name: &str) -> (r: Option<(String, String)>)
    ensures
        match r {
            Some((server, tool)) => split_tool_name(full_name@) == Some((server@, tool@)),
            None => split_tool_name(full_name@) is None,
        },
{
    let ghost full = full_name@;
    let ghost rest = full.skip(4);
    let n = full_name.unicode_len();
    if n < 4 || full_name.get_char(0) != 'm' || full_name.get_char(1) != 'c' || full_name.get_char(2) != 'p'
        || full_name.get_char(3) != '_' {
        proof {
            if n >= 4 {
                assert(full.take(4)[0] == full[0]);
                assert(full.take(4)[1] == full[1]);
                assert(full.take(4)[2] == full[2]);
                assert(full.take(4)[3] == full[3]);
                assert(full.take(4) != tool_prefix());
            }
        }
        return None;
    }
    proof {
        assert(full.take(4) =~= tool_prefix());
    }
    let mut i: usize = 4;
    while i < n - 1
        invariant
            n == full.len(),
            full == full_name@,
            rest == full.skip(4),
            full.take(4) == tool_prefix(),
            4 <= i <= n,
            forall|j: int| 0 <= j < i - 4 ==> !#[trigger] separator_at(rest, j),
        decreases n - i,
    {
        if full_name.get_char(i) == '_' && full_name.get_char(i + 1) == '_' {
            let server = full_name.substring_char(4, i).to_owned();
            let tool = full_name.substring_char(i + 2, n).to_owned();
            proof {
                let k = i - 4;
                assert(rest[k] == full[i as int]);
                assert(rest[k + 1] == full[i + 1]);
                assert(first_separator(rest, k));
                let c = choose|c: int| first_separator(rest, c);
                lemma_first_separator_unique(rest, c, k);
                assert(server@ =~= rest.take(k));
                assert(tool@ =~= rest.skip(k + 2));
            }
            return Some((server, tool));
        }
        proof {
            let k = i - 4;
            assert(rest[k] == full[i as int]);
            assert(rest[k + 1] == full[i + 1]);
        }
        i = i + 1;
    }
    proof {
        assert forall|c: int| !first_separator(rest, c) by {
            if first_separator(rest, c) {
                assert(!separator_at(rest, c));
            }
        }
    }
    None
}

/// Naming a tool and splitting the name gives back the server and the tool,
/// for every server name without `__` that does not end in `_`.
pub proof fn lemma_split_after_qualify(server: Seq<char>, tool: Seq<char>)
    requires
        forall|j: int| !#[trigger] separator_at(server, j),
        server.len() > 0 ==> server.last() != '_',
    ensures
        split_tool_name(qualified_tool_name(server, tool)) == Some((server, tool)),
{
    let full = qualified_tool_name(server, tool);
    let rest = full.skip(4);
    assert(full.take(4) =~= tool_prefix());
    assert(rest =~= server + separator() + tool);
    let k = server.len() as int;
    assert(rest[k] == '_' && rest[k + 1] == '_');
    assert forall|j: int| 0 <= j < k implies !#[trigger] separator_at(rest, j) by {
        if j + 1 < k {
            assert(rest[j] == server[j] && rest[j + 1] == server[j + 1]);
            assert(!separator_at(server, j));
        } else {
            assert(rest[j] == server[j]);
            assert(server.last() == server[j]);
        }
    }
    assert(first_separator(rest, k));
    let c = choose|c: int| first_separator(rest, c);
    lemma_first_separator_unique(rest, c, k);
    assert(rest.take(k) =~= server);
    assert(rest.skip(k + 2) =~= tool);
}

/// A name that splits is the qualified name of its two parts.
pub proof fn lemma_qualify_after_split(full: Seq<char>)
    ensures
        split_tool_name(full) matches Some(parts) ==> qualified_tool_name(parts.0, parts.1) == full,
{
    if let Some(parts) = split_tool_name(full) {
        let rest = full.skip(4);
        let i = choose|i: int| first_separator(rest, i);
        assert(parts.0 == rest.take(i));
        assert(parts.1 == rest.skip(i + 2));
        assert(rest.subrange(i, i + 2) =~= separator());
        assert(rest =~= rest.take(i) + separator() + rest.skip(i + 2));
        assert(full =~= full.take(4) + rest);
    }
}

} // verus!
