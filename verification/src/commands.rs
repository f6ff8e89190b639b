//! What the user-facing commands compute from the manager's answers: the
//! tool list shown for one server or for all, and the text of a tool's reply.
use vstd::prelude::*;
use vstd::string::*;
use crate::types::{McpContentBlock, McpResourceContents, McpTool, McpToolCallResponse, McpToolInfo};

verus! {

/// The description shown of a tool of the server `server`.
pub open spec fn tool_info(server: String, tool: McpTool) -> McpToolInfo {
    McpToolInfo {
        server_name: server,
        name: tool.name,
        description: tool.description,
        input_schema: tool.input_schema,
    }
}

/// The descriptions shown of `tools`: all of them, or, where a server is
/// named, those of that server, in order.
pub open spec fn tool_infos(tools: Seq<(String, McpTool)>, server: Option<Seq<char>>) -> Seq<McpToolInfo>
    decreases tools.len(),
{
    if tools.len() == 0 {
        Seq::empty()
    } else {
        let rest = tool_infos(tools.drop_last(), server);
        let last = tools.last();
        match server {
            Some(s) => if last.0@ == s {
                rest.push(tool_info(last.0, last.1))
            } else {
                rest
            },
            None => rest.push(tool_info(last.0, last.1)),
        }
    }
}

/// An optional name taken by its view.
pub open spec fn opt_view(name: Option<String>) -> Option<Seq<char>> {
    match name {
        Some(s) => Some(s@),
        None => None,
    }
}

/// Turns the tools of the connected servers into the descriptions shown to
/// the user: all of them, or only those of `server_name` where one is given.
pub fn list_tool_infos(all_tools: Vec<(String, McpTool)>, server_name: Option<String>) -> (r: Vec<McpToolInfo>)
    ensures
        r@ == tool_infos(all_tools@, opt_view(server_name)),
{
    let ghost all = all_tools@;
    let ghost filter = opt_view(server_name);
    assert(all.len() == all_tools.len());
    let mut rest = all_tools;
    let mut infos: Vec<McpToolInfo> = Vec::new();
    let mut k: usize = 0;
    assert(all.take(0) =~= Seq::<(String, McpTool)>::empty());
    while rest.len() > 0
        invariant
            k + rest@.len() == all.len(),
            all.len() <= usize::MAX,
            rest@ == all.skip(k as int),
            infos@ == tool_infos(all.take(k as int), filter),
            filter == opt_view(server_name),
        decreases rest@.len(),
    {
        let (server, tool) = rest.remove(0);
        proof {
            assert(all.skip(k as int)[0] == all[k as int]);
            assert(rest@ =~= all.skip(k + 1));
            assert(all.take(k + 1).drop_last() =~= all.take(k as int));
            assert(all.take(k + 1).last() == (server, tool));
        }
        let keep = match &server_name {
            Some(s) => server == *s,
            None => true,
        };
        if keep {
            infos.push(McpToolInfo {
                server_name: server,
                name: tool.name,
                description: tool.description,
                input_schema: tool.input_schema,
            });
        }
        k = k + 1;
    }
    proof {
        assert(all.take(k as int) =~= all);
    }
    infos
}

/// The text that a block of a reply contributes, if any: that of a text
/// block, and that of a resource where it has one.
pub open spec fn block_text(block: McpContentBlock) -> Option<Seq<char>> {
    match block {
        McpContentBlock::Text { text } => Some(text@),
        McpContentBlock::Resource { resource } => match resource.text {
            Some(t) => Some(t@),
            None => None,
        },
        McpContentBlock::Image { .. } => None,
    }
}

/// The texts of a reply's blocks, in order.
pub open spec fn reply_texts(blocks: Seq<McpContentBlock>) -> Seq<Seq<char>>
    decreases blocks.len(),
{
    if blocks.len() == 0 {
        Seq::empty()
    } else {
        let rest = reply_texts(blocks.drop_last());
        match block_text(blocks.last()) {
            Some(t) => rest.push(t),
            None => rest,
        }
    }
}

/// The pieces joined by `sep`.
pub open spec fn join(pieces: Seq<Seq<char>>, sep: Seq<char>) -> Seq<char>
    decreases pieces.len(),
{
    if pieces.len() == 0 {
        Seq::empty()
    } else if pieces.len() == 1 {
        pieces[0]
    } else {
        join(pieces.drop_last(), sep) + sep + pieces.last()
    }
}

/// The text of a tool's reply: the texts of its blocks, one per line.
pub fn response_text(response: &McpToolCallResponse) -> (r: String)
    ensures
        r@ == join(reply_texts(response.content@), "\n"@),
{
    let blocks = &response.content;
    let mut out = String::new();
    let mut count: usize = 0;
    let mut i: usize = 0;
    while i < blocks.len()
        invariant
            i <= blocks@.len(),
            count == reply_texts(blocks@.take(i as int)).len(),
            count <= i,
            out@ == join(reply_texts(blocks@.take(i as int)), "\n"@),
        decreases blocks@.len() - i,
    {
        let ghost before = reply_texts(blocks@.take(i as int));
        proof {
            assert(blocks@.take(i + 1).drop_last() =~= blocks@.take(i as int));
            assert(blocks@.take(i + 1).last() == blocks@[i as int]);
        }
        let piece: Option<&String> = match &blocks[i] {
            McpContentBlock::Text { text } => Some(text),
            McpContentBlock::Resource { resource } => match &resource.text {
                Some(t) => Some(t),
                None => None,
            },
            McpContentBlock::Image { .. } => None,
        };
        match piece {
            Some(p) => {
                if count > 0 {
                    out.append("\n");
                }
                out.append(p.as_str());
                proof {
                    let after = before.push(p@);
                    assert(after.drop_last() =~= before);
                }
                count = count + 1;
            },
            None => {},
        }
        i = i + 1;
    }
    proof {
        assert(blocks@.take(blocks@.len() as int) =~= blocks@);
    }
    out
}

/// Without a filter every pair is shown, in order, with its server, name,
/// description and schema carried over unchanged; with a filter the list is
/// exactly that list restricted to the entries of the named server.
pub proof fn lemma_tool_infos_filter(tools: Seq<(String, McpTool)>, server: Seq<char>)
    ensures
        tool_infos(tools, None) == tools.map_values(
            |p: (String, McpTool)|
                McpToolInfo {
                    server_name: p.0,
                    name: p.1.name,
                    description: p.1.description,
                    input_schema: p.1.input_schema,
                },
        ),
        tool_infos(tools, Some(server)) == tool_infos(tools, None).filter(
            |i: McpToolInfo| i.server_name@ == server,
        ),
    decreases tools.len(),
{
    reveal(Seq::filter);
    if tools.len() > 0 {
        lemma_tool_infos_filter(tools.drop_last(), server);
        let all = tool_infos(tools, None);
        let rest = tool_infos(tools.drop_last(), None);
        let shown = |p: (String, McpTool)|
            McpToolInfo {
                server_name: p.0,
                name: p.1.name,
                description: p.1.description,
                input_schema: p.1.input_schema,
            };
        assert(tools.map_values(shown) =~= tools.drop_last().map_values(shown).push(shown(tools.last())));
        assert(all == rest.push(tool_info(tools.last().0, tools.last().1)));
        assert(all.drop_last() =~= rest);
        assert(all.last() == tool_info(tools.last().0, tools.last().1));
    }
}

/// The text that a block contributes depends only on its text: a text
/// block gives its text, a resource gives its text where it has one,
/// whatever its uri and mime type, and an image gives nothing.
pub proof fn lemma_reply_texts_by_block(
    blocks: Seq<McpContentBlock>,
    text: String,
    resource: McpResourceContents,
    other: McpResourceContents,
    data: String,
    mime_type: String,
)
    ensures
        reply_texts(blocks.push(McpContentBlock::Text { text })) == reply_texts(blocks).push(text@),
        reply_texts(blocks.push(McpContentBlock::Resource { resource })) == match resource.text {
            Some(t) => reply_texts(blocks).push(t@),
            None => reply_texts(blocks),
        },
        reply_texts(blocks.push(McpContentBlock::Image { data, mime_type })) == reply_texts(blocks),
        resource.text == other.text ==> reply_texts(blocks.push(McpContentBlock::Resource { resource }))
            == reply_texts(blocks.push(McpContentBlock::Resource { resource: other })),
{
    let t1 = blocks.push(McpContentBlock::Text { text });
    let t2 = blocks.push(McpContentBlock::Resource { resource });
    let t3 = blocks.push(McpContentBlock::Image { data, mime_type });
    let t4 = blocks.push(McpContentBlock::Resource { resource: other });
    assert(t1.drop_last() =~= blocks);
    assert(t2.drop_last() =~= blocks);
    assert(t3.drop_last() =~= blocks);
    assert(t4.drop_last() =~= blocks);
}

/// Joining with a separator: nothing gives the empty text, and a further
/// piece is added after the separator, except to nothing.
pub proof fn lemma_join_push(pieces: Seq<Seq<char>>, piece: Seq<char>, sep: Seq<char>)
    ensures
        join(Seq::empty(), sep) == Seq::<char>::empty(),
        join(pieces.push(piece), sep) == if pieces.len() == 0 {
            piece
        } else {
            join(pieces, sep) + sep + piece
        },
{
    assert(pieces.push(piece).drop_last() =~= pieces);
    if pieces.len() == 0 {
        assert(pieces.push(piece)[0] == piece);
    }
}

} // verus!
