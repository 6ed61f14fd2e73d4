//! Laws on the kinds of nodes: returns end their paths, and a flowchart has one
//! end.
use crate::flow::{
    body_start, case_label, cases, condition_text, connector, do_statement, draw_node,
    for_back_jumps, for_decision, for_head, for_initializer, for_statement, for_update,
    if_statement, is_skipped, labelled_path, omits, optional_statement, pass, plain_path,
    repeat_edges, sequence, statement, switch_context, switch_statement, text_of, while_statement,
    Fragment, Omitted,
};
use crate::flowchart::{bodies, chart, end_edge, functions, program};
use crate::graph::{
    jump, jumps_from, node_id, path_edges, ContextView, EdgeView, NodeView, PathView,
};
use crate::numbering::{law_chart_node_ids_distinct, law_program_numbered};
use crate::syntax::Syntax;
use vstd::prelude::*;

verus! {

/// The ids of the nodes that are no returns.
pub open spec fn live(nodes: Seq<NodeView>) -> Set<Seq<char>> {
    Set::new(
        |id: Seq<char>|
            exists|i: int|
                0 <= i < nodes.len() && (#[trigger] nodes[i]).id == id && nodes[i].kind
                    != "return_statement"@,
    )
}

/// Whether all edges leave nodes of `known`.
pub open spec fn edges_from(edges: Seq<EdgeView>, known: Set<Seq<char>>) -> bool {
    forall|i: int| 0 <= i < edges.len() ==> known.contains((#[trigger] edges[i]).source)
}

/// Whether all open ends are at nodes of `known`.
pub open spec fn open_at(paths: Seq<PathView>, known: Set<Seq<char>>) -> bool {
    forall|i: int| 0 <= i < paths.len() ==> known.contains((#[trigger] paths[i]).node_id)
}

/// Whether the edges, jumps and open ends of a fragment leave nodes of `known`.
pub open spec fn leaves_from(f: Fragment, known: Set<Seq<char>>) -> bool {
    edges_from(f.edges, known) && edges_from(f.jumps, known) && open_at(f.exits, known)
}

/// The nodes of a part are among those of the whole.
proof fn lemma_live_part(before: Seq<NodeView>, part: Seq<NodeView>, behind: Seq<NodeView>)
    ensures
        live(part).subset_of(live(before + part + behind)),
{
    let whole = before + part + behind;
    assert forall|id: Seq<char>| live(part).contains(id) implies live(whole).contains(id) by {
        let i = choose|i: int|
            0 <= i < part.len() && (#[trigger] part[i]).id == id && part[i].kind
                != "return_statement"@;
        assert(whole[before.len() + i] == part[i]);
    }
}

/// A node that is no return is live.
proof fn lemma_live_node(nodes: Seq<NodeView>, i: int)
    requires
        0 <= i < nodes.len(),
        nodes[i].kind != "return_statement"@,
    ensures
        live(nodes).contains(nodes[i].id),
{
}

/// The kinds that drawing itself gives nodes are not that of a return.
proof fn lemma_drawn_kinds()
    ensures
        "decision"@ != "return_statement"@,
        "connector"@ != "return_statement"@,
        "expression_statement"@ != "return_statement"@,
        "decision"@ != "terminal"@,
        "connector"@ != "terminal"@,
        "expression_statement"@ != "terminal"@,
        "return_statement"@ != "terminal"@,
        "decision"@ != "connector"@,
        "expression_statement"@ != "connector"@,
        "return_statement"@ != "connector"@,
{
    reveal_strlit("decision");
    reveal_strlit("connector");
    reveal_strlit("expression_statement");
    reveal_strlit("return_statement");
    reveal_strlit("terminal");
    assert("decision"@[0] == 'd');
    assert("terminal"@[0] == 't');
    assert("connector"@.len() == 9);
    assert("expression_statement"@.len() == 20);
    assert("return_statement"@.len() == 16);
}

/// What leaves from known nodes does so when more are known.
proof fn lemma_leaves_wider(f: Fragment, known: Set<Seq<char>>, wider: Set<Seq<char>>)
    requires
        leaves_from(f, known),
        known.subset_of(wider),
    ensures
        leaves_from(f, wider),
{
}

/// Fragments drawn one after another leave from where they do.
proof fn lemma_then_leaves(f: Fragment, g: Fragment, known: Set<Seq<char>>)
    requires
        leaves_from(f, known),
        leaves_from(g, known),
    ensures
        leaves_from(f.then_draw(g), known),
{
    lemma_edges_concat(f.edges, g.edges, known);
    lemma_edges_concat(f.jumps, g.jumps, known);
}

/// Edges leave from where both parts of them do.
proof fn lemma_edges_concat(a: Seq<EdgeView>, b: Seq<EdgeView>, known: Set<Seq<char>>)
    requires
        edges_from(a, known),
        edges_from(b, known),
    ensures
        edges_from(a + b, known),
{
    let c = a + b;
    assert forall|i: int| 0 <= i < c.len() implies known.contains(
        (#[trigger] c[i]).source,
    ) by {
        if i < a.len() {
            assert(c[i] == a[i]);
        } else {
            assert(c[i] == b[i - a.len()]);
        }
    }
}

/// The edges and jumps of open ends leave from where these are.
proof fn lemma_paths_leave(paths: Seq<PathView>, to: Seq<char>, m: nat, known: Set<Seq<char>>)
    requires
        open_at(paths, known),
    ensures
        edges_from(path_edges(paths, to), known),
        edges_from(jumps_from(paths, to, m), known),
{
    let edges = path_edges(paths, to);
    let jumps = jumps_from(paths, to, m);
    assert forall|i: int| 0 <= i < edges.len() implies known.contains(
        (#[trigger] edges[i]).source,
    ) by {
        assert(known.contains(paths[i].node_id));
    }
    assert forall|i: int| 0 <= i < jumps.len() implies known.contains(
        (#[trigger] jumps[i]).source,
    ) by {
        assert(known.contains(paths[i].node_id));
    }
}

/// Whatever a statement adds leaves the open ends that lead into it, or nodes of
/// its own that are no returns.
pub proof fn law_statement_leaves_no_return(
    node: Syntax,
    code: Seq<char>,
    n: nat,
    m: nat,
    entry: Seq<PathView>,
    context: Option<ContextView>,
    outside: Set<Seq<char>>,
)
    requires
        open_at(entry, outside),
    ensures
        ({
            let drawn = statement(node, code, n, m, entry, context);
            leaves_from(drawn, outside.union(live(drawn.nodes)))
        }),
    decreases node, 1nat,
{
    let drawn = statement(node, code, n, m, entry, context);
    let known = outside.union(live(drawn.nodes));
    let len = node.children.len();
    assert(open_at(entry, known));
    lemma_paths_leave(entry, node_id(n), m, known);
    if let Some(c) = context {
        lemma_paths_leave(entry, c.break_sink_id, m, known);
        lemma_paths_leave(entry, c.header_id, m, known);
    }
    if is_skipped(node.kind) {
    } else if node.kind == "declaration"@ && !text_of(node, code).contains('=') {
    } else if node.kind == "compound_statement"@ {
        let none = Omitted::Nothing;
        lemma_sequence_leaves(node.children, len, none, code, n, m, entry, context, outside);
    } else if node.kind == "else_clause"@ {
        let tokens = Omitted::ElseTokens;
        lemma_sequence_leaves(node.children, len, tokens, code, n, m, entry, context, outside);
    } else if node.kind == "return_statement"@ {
    } else if node.kind == "break_statement"@ {
    } else if node.kind == "continue_statement"@ {
    } else if node.kind == "if_statement"@ {
        lemma_if_leaves(node, code, n, m, entry, context, outside);
    } else if node.kind == "while_statement"@ {
        lemma_while_leaves(node, code, n, m, entry, outside);
    } else if node.kind == "for_statement"@ {
        lemma_for_leaves(node, code, n, m, entry, outside);
    } else if node.kind == "do_statement"@ {
        lemma_do_leaves(node, code, n, m, entry, outside);
    } else if node.kind == "switch_statement"@ {
        lemma_switch_leaves(node, code, n, m, entry, context, outside);
    } else {
        lemma_live_node(drawn.nodes, 0);
    }
}

/// As [`law_statement_leaves_no_return`], of a statement that may be missing.
proof fn lemma_optional_leaves(
    node: Option<Box<Syntax>>,
    code: Seq<char>,
    n: nat,
    m: nat,
    entry: Seq<PathView>,
    context: Option<ContextView>,
    outside: Set<Seq<char>>,
)
    requires
        open_at(entry, outside),
    ensures
        ({
            let drawn = optional_statement(node, code, n, m, entry, context);
            leaves_from(drawn, outside.union(live(drawn.nodes)))
        }),
    decreases node, 2nat,
{
    if let Some(s) = node {
        law_statement_leaves_no_return(*s, code, n, m, entry, context, outside);
    }
}

/// A fragment drawn after another one, from where that leaves.
proof fn lemma_after_leaves(before: Fragment, now: Fragment, outside: Set<Seq<char>>)
    requires
        leaves_from(before, outside.union(live(before.nodes))),
        leaves_from(now, outside.union(live(before.nodes)).union(live(now.nodes))),
    ensures
        ({
            let both = before.then_draw(now);
            leaves_from(both, outside.union(live(both.nodes)))
        }),
{
    let both = before.then_draw(now);
    let known = outside.union(live(both.nodes));
    let none = Seq::<NodeView>::empty();
    lemma_live_part(none, before.nodes, now.nodes);
    lemma_live_part(before.nodes, now.nodes, none);
    assert(none + before.nodes + now.nodes == both.nodes);
    assert(before.nodes + now.nodes + none == both.nodes);
    lemma_leaves_wider(before, outside.union(live(before.nodes)), known);
    lemma_leaves_wider(
        now,
        outside.union(live(before.nodes)).union(live(now.nodes)),
        known,
    );
    lemma_then_leaves(before, now, known);
}

/// As [`law_statement_leaves_no_return`], of a list of statements.
proof fn lemma_sequence_leaves(
    nodes: Seq<Syntax>,
    k: nat,
    omitted: Omitted,
    code: Seq<char>,
    n: nat,
    m: nat,
    entry: Seq<PathView>,
    context: Option<ContextView>,
    outside: Set<Seq<char>>,
)
    requires
        open_at(entry, outside),
    ensures
        ({
            let drawn = sequence(nodes, k, omitted, code, n, m, entry, context);
            leaves_from(drawn, outside.union(live(drawn.nodes)))
        }),
    decreases nodes, k,
{
    if 0 < k <= nodes.len() {
        let before = sequence(nodes, (k - 1) as nat, omitted, code, n, m, entry, context);
        lemma_sequence_leaves(
            nodes,
            (k - 1) as nat,
            omitted,
            code,
            n,
            m,
            entry,
            context,
            outside,
        );
        if !omits(omitted, nodes[k - 1].kind) {
            let (n_now, m_now) = (n + before.nodes.len(), m + before.jumps.len());
            let known = outside.union(live(before.nodes));
            let now = statement(nodes[k - 1], code, n_now, m_now, before.exits, context);
            law_statement_leaves_no_return(
                nodes[k - 1],
                code,
                n_now,
                m_now,
                before.exits,
                context,
                known,
            );
            lemma_after_leaves(before, now, outside);
        }
    }
}

/// A part of a fragment whose nodes `front` are drawn before it leaves from what
/// is known of the whole.
proof fn lemma_part_leaves(
    front: Seq<NodeView>,
    part: Fragment,
    behind: Seq<NodeView>,
    inside: Set<Seq<char>>,
    known: Set<Seq<char>>,
)
    requires
        leaves_from(part, inside.union(live(part.nodes))),
        inside.subset_of(known),
        live(front + part.nodes + behind).subset_of(known),
    ensures
        leaves_from(part, known),
{
    lemma_live_part(front, part.nodes, behind);
    lemma_leaves_wider(part, inside.union(live(part.nodes)), known);
}

/// As [`law_statement_leaves_no_return`], of an `if`.
proof fn lemma_if_leaves(
    node: Syntax,
    code: Seq<char>,
    n: nat,
    m: nat,
    entry: Seq<PathView>,
    context: Option<ContextView>,
    outside: Set<Seq<char>>,
)
    requires
        open_at(entry, outside),
    ensures
        ({
            let drawn = if_statement(node, code, n, m, entry, context);
            leaves_from(drawn, outside.union(live(drawn.nodes)))
        }),
    decreases node, 0nat,
{
    let drawn = if_statement(node, code, n, m, entry, context);
    let known = outside.union(live(drawn.nodes));
    let head = draw_node(n, condition_text(node.condition, code), "decision"@, entry);
    let open_yes = seq![labelled_path(node_id(n), "Yes"@)];
    let open_no = seq![labelled_path(node_id(n), "No"@)];
    let inside = outside.insert(node_id(n));
    let yes = optional_statement(node.consequence, code, n + 1, m, open_yes, context);
    let (n_no, m_no) = (n + 1 + yes.nodes.len(), m + yes.jumps.len());
    let no = match node.alternative {
        Some(s) => statement(*s, code, n_no, m_no, open_no, context),
        None => pass(open_no),
    };
    let none = Seq::<NodeView>::empty();
    lemma_drawn_kinds();
    assert(drawn.nodes[0] == head.nodes[0]);
    lemma_live_node(drawn.nodes, 0);
    lemma_paths_leave(entry, node_id(n), m, known);
    lemma_optional_leaves(node.consequence, code, n + 1, m, open_yes, context, inside);
    assert(leaves_from(no, inside.union(live(no.nodes)))) by {
        if let Some(s) = node.alternative {
            law_statement_leaves_no_return(*s, code, n_no, m_no, open_no, context, inside);
        }
    }
    assert(head.nodes + yes.nodes + no.nodes == drawn.nodes);
    assert((head.nodes + yes.nodes) + no.nodes + none == drawn.nodes);
    lemma_part_leaves(head.nodes, yes, no.nodes, inside, known);
    lemma_part_leaves(head.nodes + yes.nodes, no, none, inside, known);
    lemma_then_leaves(head, yes, known);
    lemma_then_leaves(head.then_draw(yes), no, known);
    assert forall|i: int| 0 <= i < drawn.exits.len() implies known.contains(
        (#[trigger] drawn.exits[i]).node_id,
    ) by {
        if i < yes.exits.len() {
            assert(drawn.exits[i] == yes.exits[i]);
        } else {
            assert(drawn.exits[i] == no.exits[i - yes.exits.len()]);
        }
    }
}

/// As [`law_statement_leaves_no_return`], of a `while`.
proof fn lemma_while_leaves(
    node: Syntax,
    code: Seq<char>,
    n: nat,
    m: nat,
    entry: Seq<PathView>,
    outside: Set<Seq<char>>,
)
    requires
        open_at(entry, outside),
    ensures
        ({
            let drawn = while_statement(node, code, n, m, entry);
            leaves_from(drawn, outside.union(live(drawn.nodes)))
        }),
    decreases node, 0nat,
{
    let drawn = while_statement(node, code, n, m, entry);
    let known = outside.union(live(drawn.nodes));
    let (header, sink) = (node_id(n), node_id(n + 1));
    let head = draw_node(n, condition_text(node.condition, code), "decision"@, entry);
    let front = head.nodes.push(connector(n + 1));
    let open_yes = seq![labelled_path(header, "Yes"@)];
    let around = ContextView { header_id: header, break_sink_id: sink };
    let inside = outside.insert(header);
    let body = optional_statement(node.body, code, n + 2, m, open_yes, Some(around));
    let next = m + body.jumps.len();
    let back = jumps_from(body.exits, header, next);
    let out = jump(header, sink, "No"@, next + back.len());
    let none = Seq::<NodeView>::empty();
    lemma_drawn_kinds();
    assert(drawn.nodes[0] == front[0]);
    assert(drawn.nodes[1] == front[1]);
    lemma_live_node(drawn.nodes, 0);
    lemma_live_node(drawn.nodes, 1);
    lemma_paths_leave(entry, header, m, known);
    lemma_optional_leaves(node.body, code, n + 2, m, open_yes, Some(around), inside);
    assert(front + body.nodes + none == drawn.nodes);
    lemma_part_leaves(front, body, none, inside, known);
    lemma_paths_leave(body.exits, header, next, known);
    lemma_edges_concat(head.edges, body.edges, known);
    lemma_edges_concat(body.jumps, back, known);
    lemma_edges_concat(body.jumps + back, seq![out], known);
    assert(body.jumps + back + seq![out] == drawn.jumps);
}

/// As [`law_statement_leaves_no_return`], of a `for`.
proof fn lemma_for_leaves(
    node: Syntax,
    code: Seq<char>,
    n: nat,
    m: nat,
    entry: Seq<PathView>,
    outside: Set<Seq<char>>,
)
    requires
        open_at(entry, outside),
    ensures
        ({
            let drawn = for_statement(node, code, n, m, entry);
            leaves_from(drawn, outside.union(live(drawn.nodes)))
        }),
    decreases node, 0nat,
{
    let drawn = for_statement(node, code, n, m, entry);
    let known = outside.union(live(drawn.nodes));
    let init = for_initializer(node, code, n, entry);
    let head = for_head(node, code, n, entry);
    let h = for_decision(node, code, n, entry);
    let (header, sink, renew) = (node_id(h), node_id(h + 1), node_id(h + 2));
    let around = ContextView { header_id: header, break_sink_id: sink };
    let inside = outside.insert(header);
    let n_body = n + head.nodes.len();
    let body = optional_statement(node.body, code, n_body, m, head.exits, Some(around));
    let next = m + body.jumps.len();
    let update = if node.update is Some {
        Some(renew)
    } else {
        None
    };
    let back = for_back_jumps(node.body is Some, update, header, body.exits, next);
    let out = jump(header, sink, "No"@, next + back.len());
    let none = Seq::<NodeView>::empty();
    let i = init.nodes.len() as int;
    lemma_drawn_kinds();
    assert(drawn.nodes[i] == head.nodes[i]);
    assert(drawn.nodes[i + 1] == head.nodes[i + 1]);
    lemma_live_node(drawn.nodes, i);
    lemma_live_node(drawn.nodes, i + 1);
    if node.update is Some {
        assert(drawn.nodes[i + 2] == head.nodes[i + 2]);
        assert(head.nodes[i + 2] == for_update(node, code, h + 2)[0]);
        lemma_live_node(drawn.nodes, i + 2);
    }
    assert(open_at(init.exits, known)) by {
        if i > 0 {
            assert(drawn.nodes[0] == init.nodes[0]);
            lemma_live_node(drawn.nodes, 0);
        }
    }
    lemma_paths_leave(entry, node_id(n), m, known);
    lemma_paths_leave(init.exits, header, m, known);
    lemma_edges_concat(init.edges, path_edges(init.exits, header), known);
    lemma_optional_leaves(node.body, code, n_body, m, head.exits, Some(around), inside);
    assert(head.nodes + body.nodes + none == drawn.nodes);
    lemma_part_leaves(head.nodes, body, none, inside, known);
    lemma_paths_leave(body.exits, header, next, known);
    lemma_paths_leave(body.exits, renew, next, known);
    assert(edges_from(back, known)) by {
        if node.body is Some && node.update is Some {
            let turn = jump(renew, header, ""@, next + body.exits.len());
            let jumps = jumps_from(body.exits, renew, next);
            lemma_edges_concat(jumps, seq![turn], known);
            assert(jumps + seq![turn] == back);
        }
    }
    lemma_edges_concat(head.edges, body.edges, known);
    lemma_edges_concat(body.jumps, back, known);
    lemma_edges_concat(body.jumps + back, seq![out], known);
    assert(body.jumps + back + seq![out] == drawn.jumps);
}

/// As [`law_statement_leaves_no_return`], of a `do`.
proof fn lemma_do_leaves(
    node: Syntax,
    code: Seq<char>,
    n: nat,
    m: nat,
    entry: Seq<PathView>,
    outside: Set<Seq<char>>,
)
    requires
        open_at(entry, outside),
    ensures
        ({
            let drawn = do_statement(node, code, n, m, entry);
            leaves_from(drawn, outside.union(live(drawn.nodes)))
        }),
    decreases node, 0nat,
{
    let drawn = do_statement(node, code, n, m, entry);
    let known = outside.union(live(drawn.nodes));
    let (sink, header) = (node_id(n), node_id(n + 1));
    let around = ContextView { header_id: header, break_sink_id: sink };
    let body = optional_statement(node.body, code, n + 2, m, entry, Some(around));
    let again = n + 2 + body.nodes.len();
    let next = m + body.jumps.len();
    let front = drawn.nodes.take(2);
    let last = seq![connector(again)];
    let back = path_edges(body.exits, header);
    let repeat = repeat_edges(body_start(node.body, code, n), again);
    let turns = seq![
        jump(header, node_id(again), "Yes"@, next),
        jump(header, sink, "No"@, next + 1),
    ];
    lemma_drawn_kinds();
    lemma_live_node(drawn.nodes, 0);
    lemma_live_node(drawn.nodes, 1);
    assert(drawn.nodes[drawn.nodes.len() - 1] == connector(again));
    lemma_live_node(drawn.nodes, drawn.nodes.len() - 1);
    lemma_optional_leaves(node.body, code, n + 2, m, entry, Some(around), outside);
    assert(front + body.nodes + last == drawn.nodes);
    lemma_part_leaves(front, body, last, outside, known);
    lemma_paths_leave(body.exits, header, next, known);
    if let Some(s) = body_start(node.body, code, n) {
        lemma_paths_leave(seq![plain_path(node_id(again))], node_id(s), next, known);
    }
    lemma_edges_concat(body.edges, back, known);
    lemma_edges_concat(body.edges + back, repeat, known);
    lemma_edges_concat(body.jumps, turns, known);
}

/// As [`law_statement_leaves_no_return`], of the cases of a `switch`.
proof fn lemma_cases_leave(
    nodes: Seq<Syntax>,
    k: nat,
    code: Seq<char>,
    n: nat,
    m: nat,
    switch: Seq<char>,
    around: ContextView,
    outside: Set<Seq<char>>,
)
    requires
        outside.contains(switch),
    ensures
        ({
            let drawn = cases(nodes, k, code, n, m, switch, around);
            leaves_from(drawn, outside.union(live(drawn.nodes)))
        }),
    decreases nodes, k,
{
    if 0 < k <= nodes.len() {
        let drawn = cases(nodes, k, code, n, m, switch, around);
        let before = cases(nodes, (k - 1) as nat, code, n, m, switch, around);
        let case = nodes[k - 1];
        lemma_cases_leave(nodes, (k - 1) as nat, code, n, m, switch, around, outside);
        if case.kind == "case_statement"@ {
            let known = outside.union(live(drawn.nodes));
            let entry = seq![labelled_path(switch, case_label(case, code))];
            let (n_now, m_now) = (n + before.nodes.len(), m + before.jumps.len());
            let (len, tokens) = (case.children.len(), Omitted::CaseTokens);
            let list = case.children;
            let body = sequence(list, len, tokens, code, n_now, m_now, entry, Some(around));
            lemma_sequence_leaves(
                list,
                len,
                tokens,
                code,
                n_now,
                m_now,
                entry,
                Some(around),
                outside,
            );
            let none = Seq::<NodeView>::empty();
            let m_out = m_now + body.jumps.len();
            let out = jumps_from(body.exits, around.break_sink_id, m_out);
            assert(none + before.nodes + body.nodes == drawn.nodes);
            assert(before.nodes + body.nodes + none == drawn.nodes);
            lemma_part_leaves(none, before, body.nodes, outside, known);
            lemma_part_leaves(before.nodes, body, none, outside, known);
            lemma_paths_leave(body.exits, around.break_sink_id, m_out, known);
            lemma_edges_concat(before.edges, body.edges, known);
            lemma_edges_concat(before.jumps, body.jumps, known);
            lemma_edges_concat(before.jumps + body.jumps, out, known);
        }
    }
}

/// As [`law_statement_leaves_no_return`], of a `switch`.
proof fn lemma_switch_leaves(
    node: Syntax,
    code: Seq<char>,
    n: nat,
    m: nat,
    entry: Seq<PathView>,
    context: Option<ContextView>,
    outside: Set<Seq<char>>,
)
    requires
        open_at(entry, outside),
    ensures
        ({
            let drawn = switch_statement(node, code, n, m, entry, context);
            leaves_from(drawn, outside.union(live(drawn.nodes)))
        }),
    decreases node, 0nat,
{
    let drawn = switch_statement(node, code, n, m, entry, context);
    let known = outside.union(live(drawn.nodes));
    let (switch, sink) = (node_id(n), node_id(n + 1));
    let around = switch_context(context, switch, sink);
    let label = "switch ("@ + text_of(*node.value->0, code) + ")"@;
    let head = draw_node(n, label, "decision"@, entry);
    let front = head.nodes.push(connector(n + 1));
    let inside = outside.insert(switch);
    let inner = match node.body {
        Some(b) => cases(b.children, b.children.len(), code, n + 2, m, switch, around),
        None => pass(seq![]),
    };
    let none = Seq::<NodeView>::empty();
    lemma_drawn_kinds();
    assert(drawn.nodes[0] == front[0]);
    assert(drawn.nodes[1] == front[1]);
    lemma_live_node(drawn.nodes, 0);
    lemma_live_node(drawn.nodes, 1);
    lemma_paths_leave(entry, switch, m, known);
    if let Some(b) = node.body {
        let list = b.children;
        lemma_cases_leave(list, list.len(), code, n + 2, m, switch, around, inside);
    }
    assert(front + inner.nodes + none == drawn.nodes);
    lemma_part_leaves(front, inner, none, inside, known);
    lemma_edges_concat(head.edges, inner.edges, known);
}

/// As [`law_statement_leaves_no_return`], of the bodies of a function.
proof fn lemma_bodies_leave(
    parts: Seq<Syntax>,
    k: nat,
    code: Seq<char>,
    n: nat,
    m: nat,
    entry: Seq<PathView>,
    outside: Set<Seq<char>>,
)
    requires
        open_at(entry, outside),
    ensures
        ({
            let drawn = bodies(parts, k, code, n, m, entry);
            leaves_from(drawn, outside.union(live(drawn.nodes)))
        }),
    decreases k,
{
    if 0 < k <= parts.len() {
        let before = bodies(parts, (k - 1) as nat, code, n, m, entry);
        let part = parts[k - 1];
        lemma_bodies_leave(parts, (k - 1) as nat, code, n, m, entry, outside);
        if part.kind == "compound_statement"@ {
            let known = outside.union(live(before.nodes));
            let (n_now, m_now) = (n + before.nodes.len(), m + before.jumps.len());
            let (list, none) = (part.children, Omitted::Nothing);
            let len = list.len();
            let now = sequence(list, len, none, code, n_now, m_now, before.exits, None);
            lemma_sequence_leaves(
                list,
                len,
                none,
                code,
                n_now,
                m_now,
                before.exits,
                None,
                known,
            );
            lemma_after_leaves(before, now, outside);
        }
    }
}

/// As [`law_statement_leaves_no_return`], of the functions of a program.
proof fn lemma_functions_leave(
    nodes: Seq<Syntax>,
    k: nat,
    code: Seq<char>,
    n: nat,
    m: nat,
    entry: Seq<PathView>,
    outside: Set<Seq<char>>,
)
    requires
        open_at(entry, outside),
    ensures
        ({
            let drawn = functions(nodes, k, code, n, m, entry);
            leaves_from(drawn, outside.union(live(drawn.nodes)))
        }),
    decreases k,
{
    if 0 < k <= nodes.len() {
        let before = functions(nodes, (k - 1) as nat, code, n, m, entry);
        let node = nodes[k - 1];
        lemma_functions_leave(nodes, (k - 1) as nat, code, n, m, entry, outside);
        if node.kind == "function_definition"@ {
            let known = outside.union(live(before.nodes));
            let (n_now, m_now) = (n + before.nodes.len(), m + before.jumps.len());
            let list = node.children;
            let now = bodies(list, list.len(), code, n_now, m_now, before.exits);
            lemma_bodies_leave(list, list.len(), code, n_now, m_now, before.exits, known);
            lemma_after_leaves(before, now, outside);
        }
    }
}

/// A return ends its path: in a flowchart no edge leaves a node of kind
/// `return_statement`.
pub proof fn law_returns_end_their_paths(root: Syntax, code: Seq<char>)
    ensures
        ({
            let c = chart(root, code);
            forall|i: int, j: int|
                0 <= i < c.nodes.len() && (#[trigger] c.nodes[i]).kind == "return_statement"@ && 0
                    <= j < c.edges.len() ==> (#[trigger] c.edges[j]).source != c.nodes[i].id
        }),
{
    let c = chart(root, code);
    let drawn = program(root, code);
    let outside = set!["start"@];
    let entry = seq![plain_path("start"@)];
    let known = outside.union(live(drawn.nodes));
    let ends = drawn.exits.map_values(|p: PathView| end_edge(p));
    assert(open_at(entry, outside));
    lemma_functions_leave(root.children, root.children.len(), code, 0, 0, entry, outside);
    assert forall|i: int| 0 <= i < ends.len() implies known.contains(
        (#[trigger] ends[i]).source,
    ) by {
        assert(known.contains(drawn.exits[i].node_id));
    }
    lemma_edges_concat(drawn.edges, ends, known);
    lemma_edges_concat(drawn.edges + ends, drawn.jumps, known);
    law_chart_node_ids_distinct(root, code);
    assert forall|i: int, j: int|
        0 <= i < c.nodes.len() && (#[trigger] c.nodes[i]).kind == "return_statement"@ && 0 <= j
            < c.edges.len() implies (#[trigger] c.edges[j]).source != c.nodes[i].id by {
        let id = c.edges[j].source;
        assert(known.contains(id));
        if live(drawn.nodes).contains(id) {
            let l = choose|l: int|
                0 <= l < drawn.nodes.len() && (#[trigger] drawn.nodes[l]).id == id
                    && drawn.nodes[l].kind != "return_statement"@;
            assert(c.nodes[l] == drawn.nodes[l]);
            if l < i {
                assert(c.nodes[l].id != c.nodes[i].id);
            } else if i < l {
                assert(c.nodes[i].id != c.nodes[l].id);
            }
        }
    }
}

/// Whether no node of a tree is of kind `terminal` or `connector`.
pub open spec fn plain(node: Syntax) -> bool
    decreases node, 1nat,
{
    &&& node.kind != "terminal"@
    &&& node.kind != "connector"@
    &&& plain_list(node.children)
    &&& plain_if_any(node.condition)
    &&& plain_if_any(node.consequence)
    &&& plain_if_any(node.alternative)
    &&& plain_if_any(node.initializer)
    &&& plain_if_any(node.update)
    &&& plain_if_any(node.body)
    &&& plain_if_any(node.value)
}

/// Whether no node of a tree, if there is one, is of these kinds.
pub open spec fn plain_if_any(node: Option<Box<Syntax>>) -> bool
    decreases node, 2nat,
{
    match node {
        Some(n) => plain(*n),
        None => true,
    }
}

/// Whether no node of a list of trees is of these kinds.
pub open spec fn plain_list(nodes: Seq<Syntax>) -> bool
    decreases nodes, 0nat,
{
    forall|i: int| 0 <= i < nodes.len() ==> plain(#[trigger] nodes[i])
}

/// Whether none of the nodes is a terminal, and every connector is without a
/// label.
pub open spec fn inner_nodes(nodes: Seq<NodeView>) -> bool {
    forall|i: int|
        0 <= i < nodes.len() ==> (#[trigger] nodes[i]).kind != "terminal"@ && (nodes[i].kind
            == "connector"@ ==> nodes[i].label == ""@)
}

/// Nodes are as both parts of them are.
proof fn lemma_inner_concat(a: Seq<NodeView>, b: Seq<NodeView>)
    requires
        inner_nodes(a),
        inner_nodes(b),
    ensures
        inner_nodes(a + b),
{
    let c = a + b;
    assert forall|i: int| 0 <= i < c.len() implies (#[trigger] c[i]).kind != "terminal"@ && (
    c[i].kind == "connector"@ ==> c[i].label == ""@) by {
        if i < a.len() {
            assert(c[i] == a[i]);
        } else {
            assert(c[i] == b[i - a.len()]);
        }
    }
}

/// A statement of a tree without terminals and connectors adds no terminal, and
/// only connectors without a label.
pub proof fn law_statement_adds_inner_nodes(
    node: Syntax,
    code: Seq<char>,
    n: nat,
    m: nat,
    entry: Seq<PathView>,
    context: Option<ContextView>,
)
    requires
        plain(node),
    ensures
        inner_nodes(statement(node, code, n, m, entry, context).nodes),
    decreases node, 1nat,
{
    let len = node.children.len();
    let drawn = statement(node, code, n, m, entry, context);
    lemma_drawn_kinds();
    if is_skipped(node.kind) {
    } else if node.kind == "declaration"@ && !text_of(node, code).contains('=') {
    } else if node.kind == "compound_statement"@ {
        let none = Omitted::Nothing;
        lemma_sequence_adds_inner(node.children, len, none, code, n, m, entry, context);
    } else if node.kind == "else_clause"@ {
        let tokens = Omitted::ElseTokens;
        lemma_sequence_adds_inner(node.children, len, tokens, code, n, m, entry, context);
    } else if node.kind == "return_statement"@ || node.kind == "break_statement"@ || node.kind
        == "continue_statement"@ {
    } else if node.kind == "if_statement"@ {
        let open_yes = seq![labelled_path(node_id(n), "Yes"@)];
        let open_no = seq![labelled_path(node_id(n), "No"@)];
        let yes = optional_statement(node.consequence, code, n + 1, m, open_yes, context);
        let (n_no, m_no) = (n + 1 + yes.nodes.len(), m + yes.jumps.len());
        lemma_optional_adds_inner(node.consequence, code, n + 1, m, open_yes, context);
        lemma_optional_adds_inner(node.alternative, code, n_no, m_no, open_no, context);
        let no = optional_statement(node.alternative, code, n_no, m_no, open_no, context);
        let front = drawn.nodes.take(1);
        lemma_inner_concat(front, yes.nodes);
        lemma_inner_concat(front + yes.nodes, no.nodes);
        assert(front + yes.nodes + no.nodes == drawn.nodes);
    } else if node.kind == "while_statement"@ {
        let around = ContextView { header_id: node_id(n), break_sink_id: node_id(n + 1) };
        let open_yes = seq![labelled_path(node_id(n), "Yes"@)];
        lemma_optional_adds_inner(node.body, code, n + 2, m, open_yes, Some(around));
        let body = optional_statement(node.body, code, n + 2, m, open_yes, Some(around));
        lemma_inner_concat(drawn.nodes.take(2), body.nodes);
        assert(drawn.nodes.take(2) + body.nodes == drawn.nodes);
    } else if node.kind == "for_statement"@ {
        lemma_for_adds_inner(node, code, n, m, entry);
    } else if node.kind == "do_statement"@ {
        let around = ContextView { header_id: node_id(n + 1), break_sink_id: node_id(n) };
        lemma_optional_adds_inner(node.body, code, n + 2, m, entry, Some(around));
        let body = optional_statement(node.body, code, n + 2, m, entry, Some(around));
        let front = drawn.nodes.take(2);
        let last = seq![connector(n + 2 + body.nodes.len())];
        lemma_inner_concat(front, body.nodes);
        lemma_inner_concat(front + body.nodes, last);
        assert(front + body.nodes + last == drawn.nodes);
    } else if node.kind == "switch_statement"@ {
        let around = switch_context(context, node_id(n), node_id(n + 1));
        if let Some(b) = node.body {
            let list = b.children;
            assert(plain(*b));
            lemma_cases_add_inner(list, list.len(), code, n + 2, m, node_id(n), around);
            let inner = cases(list, list.len(), code, n + 2, m, node_id(n), around);
            lemma_inner_concat(drawn.nodes.take(2), inner.nodes);
            assert(drawn.nodes.take(2) + inner.nodes == drawn.nodes);
        }
    }
}

/// As [`law_statement_adds_inner_nodes`], of a statement that may be missing.
proof fn lemma_optional_adds_inner(
    node: Option<Box<Syntax>>,
    code: Seq<char>,
    n: nat,
    m: nat,
    entry: Seq<PathView>,
    context: Option<ContextView>,
)
    requires
        plain_if_any(node),
    ensures
        inner_nodes(optional_statement(node, code, n, m, entry, context).nodes),
    decreases node, 2nat,
{
    if let Some(s) = node {
        law_statement_adds_inner_nodes(*s, code, n, m, entry, context);
    }
}

/// As [`law_statement_adds_inner_nodes`], of a list of statements.
proof fn lemma_sequence_adds_inner(
    nodes: Seq<Syntax>,
    k: nat,
    omitted: Omitted,
    code: Seq<char>,
    n: nat,
    m: nat,
    entry: Seq<PathView>,
    context: Option<ContextView>,
)
    requires
        plain_list(nodes),
    ensures
        inner_nodes(sequence(nodes, k, omitted, code, n, m, entry, context).nodes),
    decreases nodes, k,
{
    if 0 < k <= nodes.len() {
        let before = sequence(nodes, (k - 1) as nat, omitted, code, n, m, entry, context);
        let (n_now, m_now) = (n + before.nodes.len(), m + before.jumps.len());
        let now = statement(nodes[k - 1], code, n_now, m_now, before.exits, context);
        lemma_sequence_adds_inner(
            nodes,
            (k - 1) as nat,
            omitted,
            code,
            n,
            m,
            entry,
            context,
        );
        assert(plain(nodes[k - 1]));
        law_statement_adds_inner_nodes(nodes[k - 1], code, n_now, m_now, before.exits, context);
        lemma_inner_concat(before.nodes, now.nodes);
    }
}

/// As [`law_statement_adds_inner_nodes`], of a `for`.
proof fn lemma_for_adds_inner(
    node: Syntax,
    code: Seq<char>,
    n: nat,
    m: nat,
    entry: Seq<PathView>,
)
    requires
        plain_if_any(node.body),
    ensures
        inner_nodes(for_statement(node, code, n, m, entry).nodes),
    decreases node, 0nat,
{
    let head = for_head(node, code, n, entry);
    let h = for_decision(node, code, n, entry);
    let around = ContextView { header_id: node_id(h), break_sink_id: node_id(h + 1) };
    let n_body = n + head.nodes.len();
    let body = optional_statement(node.body, code, n_body, m, head.exits, Some(around));
    lemma_drawn_kinds();
    lemma_optional_adds_inner(node.body, code, n_body, m, head.exits, Some(around));
    let init = for_initializer(node, code, n, entry);
    let front = init.nodes + seq![head.nodes[init.nodes.len() as int], connector(h + 1)];
    assert(inner_nodes(front));
    lemma_inner_concat(front, for_update(node, code, h + 2));
    assert(front + for_update(node, code, h + 2) == head.nodes);
    lemma_inner_concat(head.nodes, body.nodes);
}

/// As [`law_statement_adds_inner_nodes`], of the cases of a `switch`.
proof fn lemma_cases_add_inner(
    nodes: Seq<Syntax>,
    k: nat,
    code: Seq<char>,
    n: nat,
    m: nat,
    switch: Seq<char>,
    around: ContextView,
)
    requires
        plain_list(nodes),
    ensures
        inner_nodes(cases(nodes, k, code, n, m, switch, around).nodes),
    decreases nodes, k,
{
    if 0 < k <= nodes.len() {
        let before = cases(nodes, (k - 1) as nat, code, n, m, switch, around);
        let case = nodes[k - 1];
        lemma_cases_add_inner(nodes, (k - 1) as nat, code, n, m, switch, around);
        assert(plain(case));
        let entry = seq![labelled_path(switch, case_label(case, code))];
        let (n_now, m_now) = (n + before.nodes.len(), m + before.jumps.len());
        let (list, tokens) = (case.children, Omitted::CaseTokens);
        let len = list.len();
        let body = sequence(list, len, tokens, code, n_now, m_now, entry, Some(around));
        lemma_sequence_adds_inner(list, len, tokens, code, n_now, m_now, entry, Some(around));
        lemma_inner_concat(before.nodes, body.nodes);
    }
}

/// As [`law_statement_adds_inner_nodes`], of the bodies of a function.
proof fn lemma_bodies_add_inner(
    parts: Seq<Syntax>,
    k: nat,
    code: Seq<char>,
    n: nat,
    m: nat,
    entry: Seq<PathView>,
)
    requires
        plain_list(parts),
    ensures
        inner_nodes(bodies(parts, k, code, n, m, entry).nodes),
    decreases k,
{
    if 0 < k <= parts.len() {
        let before = bodies(parts, (k - 1) as nat, code, n, m, entry);
        lemma_bodies_add_inner(parts, (k - 1) as nat, code, n, m, entry);
        assert(plain(parts[k - 1]));
        let (n_now, m_now) = (n + before.nodes.len(), m + before.jumps.len());
        let (list, none) = (parts[k - 1].children, Omitted::Nothing);
        let len = list.len();
        let now = sequence(list, len, none, code, n_now, m_now, before.exits, None);
        lemma_sequence_adds_inner(list, len, none, code, n_now, m_now, before.exits, None);
        lemma_inner_concat(before.nodes, now.nodes);
    }
}

/// As [`law_statement_adds_inner_nodes`], of the functions of a program.
proof fn lemma_functions_add_inner(
    nodes: Seq<Syntax>,
    k: nat,
    code: Seq<char>,
    n: nat,
    m: nat,
    entry: Seq<PathView>,
)
    requires
        plain_list(nodes),
    ensures
        inner_nodes(functions(nodes, k, code, n, m, entry).nodes),
    decreases k,
{
    if 0 < k <= nodes.len() {
        let before = functions(nodes, (k - 1) as nat, code, n, m, entry);
        lemma_functions_add_inner(nodes, (k - 1) as nat, code, n, m, entry);
        assert(plain(nodes[k - 1]));
        let (n_now, m_now) = (n + before.nodes.len(), m + before.jumps.len());
        let list = nodes[k - 1].children;
        let now = bodies(list, list.len(), code, n_now, m_now, before.exits);
        lemma_bodies_add_inner(list, list.len(), code, n_now, m_now, before.exits);
        lemma_inner_concat(before.nodes, now.nodes);
    }
}

/// The nodes of a flowchart are numbered from zero on, up to the last one, which
/// is the end.
pub proof fn law_chart_ends(root: Syntax, code: Seq<char>)
    ensures
        ({
            let nodes = chart(root, code).nodes;
            &&& nodes.len() >= 1
            &&& nodes.last() == (NodeView { id: "end"@, label: "End"@, kind: "terminal"@ })
            &&& forall|i: int|
                0 <= i < nodes.len() - 1 ==> (#[trigger] nodes[i]).id == node_id(i as nat)
        }),
{
    let nodes = chart(root, code).nodes;
    let drawn = program(root, code);
    law_program_numbered(root, code);
    assert forall|i: int| 0 <= i < nodes.len() - 1 implies (#[trigger] nodes[i]).id == node_id(
        i as nat,
    ) by {
        assert(nodes[i] == drawn.nodes[i]);
    }
}

/// Whether exactly one node is a terminal, the last one, and every connector is
/// without a label.
pub open spec fn one_terminal(nodes: Seq<NodeView>) -> bool {
    &&& nodes.len() >= 1
    &&& forall|i: int|
        0 <= i < nodes.len() ==> ((#[trigger] nodes[i]).kind == "terminal"@ <==> i == nodes.len()
            - 1)
    &&& forall|i: int|
        0 <= i < nodes.len() && (#[trigger] nodes[i]).kind == "connector"@ ==> nodes[i].label
            == ""@
}

/// The flowchart of a tree without terminals and connectors has exactly one
/// terminal, its last node, and its connectors are without a label.
pub proof fn law_chart_has_one_terminal(root: Syntax, code: Seq<char>)
    requires
        plain(root),
    ensures
        one_terminal(chart(root, code).nodes),
{
    let nodes = chart(root, code).nodes;
    let drawn = program(root, code);
    let entry = seq![plain_path("start"@)];
    lemma_drawn_kinds();
    lemma_functions_add_inner(root.children, root.children.len(), code, 0, 0, entry);
    assert forall|i: int| 0 <= i < nodes.len() - 1 implies #[trigger] nodes[i]
        == drawn.nodes[i] by {}
}

} // verus!
