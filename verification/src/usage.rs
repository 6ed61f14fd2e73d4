//! Laws on how often paths are used: each leads on at most once.
use crate::closure::law_chart_closed;
use crate::flow::{
    body_start, case_label, cases, condition_text, do_statement, draw_node, for_back_jumps,
    for_decision, for_head, for_initializer, for_statement, if_statement, is_skipped, labelled_path,
    omits, optional_statement, pass, plain_path, repeat_edges, sequence, statement, switch_context,
    switch_statement, text_of, while_statement, Fragment, Omitted,
};
use crate::flowchart::{bodies, chart, end_edge, functions, program};
use crate::graph::{jump, jumps_from, node_id, path_edges, ContextView, EdgeView, PathView};
use crate::numbering::{law_chart_node_ids_distinct, law_node_id_is_neither_start_nor_end};
use crate::syntax::Syntax;
use vstd::prelude::*;

verus! {

/// How many of the edges leave the node `id`.
pub open spec fn edges_at(edges: Seq<EdgeView>, id: Seq<char>) -> nat
    decreases edges.len(),
{
    if edges.len() == 0 {
        0
    } else {
        edges_at(edges.drop_last(), id) + if edges.last().source == id {
            1nat
        } else {
            0
        }
    }
}

/// How many of the open ends are at the node `id`.
pub open spec fn ends_at(paths: Seq<PathView>, id: Seq<char>) -> nat
    decreases paths.len(),
{
    if paths.len() == 0 {
        0
    } else {
        ends_at(paths.drop_last(), id) + if paths.last().node_id == id {
            1nat
        } else {
            0
        }
    }
}

/// How often a fragment leaves the node `id`: over edges, over jumps and at open
/// ends.
pub open spec fn uses(f: Fragment, id: Seq<char>) -> nat {
    edges_at(f.edges, id) + edges_at(f.jumps, id) + ends_at(f.exits, id)
}

/// Whether `id` is the id of no node from number `n` on.
pub open spec fn is_older(id: Seq<char>, n: nat) -> bool {
    forall|j: nat| j >= n ==> id != #[trigger] node_id(j)
}

/// Edges are counted by their parts.
pub(crate) proof fn lemma_edges_at_concat(a: Seq<EdgeView>, b: Seq<EdgeView>, id: Seq<char>)
    ensures
        edges_at(a + b, id) == edges_at(a, id) + edges_at(b, id),
    decreases b.len(),
{
    if b.len() == 0 {
        assert(a + b == a);
    } else {
        lemma_edges_at_concat(a, b.drop_last(), id);
        assert((a + b).drop_last() == a + b.drop_last());
    }
}

/// Open ends are counted by their parts.
proof fn lemma_ends_at_concat(a: Seq<PathView>, b: Seq<PathView>, id: Seq<char>)
    ensures
        ends_at(a + b, id) == ends_at(a, id) + ends_at(b, id),
    decreases b.len(),
{
    if b.len() == 0 {
        assert(a + b == a);
    } else {
        lemma_ends_at_concat(a, b.drop_last(), id);
        assert((a + b).drop_last() == a + b.drop_last());
    }
}

/// An open end alone is counted once, if at all.
pub(crate) proof fn lemma_one_end(path: PathView, id: Seq<char>)
    ensures
        ends_at(seq![path], id) == if path.node_id == id {
            1nat
        } else {
            0
        },
{
    reveal_with_fuel(ends_at, 2);
    assert(seq![path].drop_last() == Seq::<PathView>::empty());
}

/// An edge alone is counted once, if at all.
proof fn lemma_one_edge(edge: EdgeView, id: Seq<char>)
    ensures
        edges_at(seq![edge], id) == if edge.source == id {
            1nat
        } else {
            0
        },
{
    reveal_with_fuel(edges_at, 2);
    assert(seq![edge].drop_last() == Seq::<EdgeView>::empty());
}

/// Open ends are left by as many edges or jumps as there are of them.
pub(crate) proof fn lemma_paths_used(paths: Seq<PathView>, to: Seq<char>, m: nat, id: Seq<char>)
    ensures
        edges_at(path_edges(paths, to), id) == ends_at(paths, id),
        edges_at(jumps_from(paths, to, m), id) == ends_at(paths, id),
    decreases paths.len(),
{
    if paths.len() > 0 {
        lemma_paths_used(paths.drop_last(), to, m, id);
        assert(path_edges(paths, to).drop_last() == path_edges(paths.drop_last(), to));
        assert(jumps_from(paths, to, m).drop_last() == jumps_from(paths.drop_last(), to, m));
    }
}

/// Fragments drawn one after another use what they do, but for the open ends
/// between them.
proof fn lemma_then_uses(f: Fragment, g: Fragment, entry: Seq<PathView>, id: Seq<char>)
    requires
        uses(f, id) <= ends_at(entry, id),
        uses(g, id) <= ends_at(f.exits, id),
    ensures
        uses(f.then_draw(g), id) <= ends_at(entry, id),
{
    lemma_edges_at_concat(f.edges, g.edges, id);
    lemma_edges_at_concat(f.jumps, g.jumps, id);
}

/// A statement uses each path at most once: from a node that was there before,
/// it leads on no more often than paths lead into it from there.
pub proof fn law_statement_uses_paths_once(
    node: Syntax,
    code: Seq<char>,
    n: nat,
    m: nat,
    entry: Seq<PathView>,
    context: Option<ContextView>,
    id: Seq<char>,
)
    requires
        is_older(id, n),
    ensures
        uses(statement(node, code, n, m, entry, context), id) <= ends_at(entry, id),
    decreases node, 1nat,
{
    let len = node.children.len();
    lemma_paths_used(entry, node_id(n), m, id);
    lemma_one_end(plain_path(node_id(n)), id);
    if let Some(c) = context {
        lemma_paths_used(entry, c.break_sink_id, m, id);
        lemma_paths_used(entry, c.header_id, m, id);
    }
    if is_skipped(node.kind) {
    } else if node.kind == "declaration"@ && !text_of(node, code).contains('=') {
    } else if node.kind == "compound_statement"@ {
        let none = Omitted::Nothing;
        lemma_sequence_uses(node.children, len, none, code, n, m, entry, context, id);
    } else if node.kind == "else_clause"@ {
        let tokens = Omitted::ElseTokens;
        lemma_sequence_uses(node.children, len, tokens, code, n, m, entry, context, id);
    } else if node.kind == "return_statement"@ {
    } else if node.kind == "break_statement"@ {
    } else if node.kind == "continue_statement"@ {
    } else if node.kind == "if_statement"@ {
        lemma_if_uses(node, code, n, m, entry, context, id);
    } else if node.kind == "while_statement"@ {
        lemma_while_uses(node, code, n, m, entry, id);
    } else if node.kind == "for_statement"@ {
        lemma_for_uses(node, code, n, m, entry, id);
    } else if node.kind == "do_statement"@ {
        lemma_do_uses(node, code, n, m, entry, id);
    } else if node.kind == "switch_statement"@ {
        lemma_switch_uses(node, code, n, m, entry, context, id);
    }
}

/// As [`law_statement_uses_paths_once`], of a statement that may be missing.
proof fn lemma_optional_uses(
    node: Option<Box<Syntax>>,
    code: Seq<char>,
    n: nat,
    m: nat,
    entry: Seq<PathView>,
    context: Option<ContextView>,
    id: Seq<char>,
)
    requires
        is_older(id, n),
    ensures
        uses(optional_statement(node, code, n, m, entry, context), id) <= ends_at(entry, id),
    decreases node, 2nat,
{
    if let Some(s) = node {
        law_statement_uses_paths_once(*s, code, n, m, entry, context, id);
    }
}

/// As [`law_statement_uses_paths_once`], of a list of statements.
proof fn lemma_sequence_uses(
    nodes: Seq<Syntax>,
    k: nat,
    omitted: Omitted,
    code: Seq<char>,
    n: nat,
    m: nat,
    entry: Seq<PathView>,
    context: Option<ContextView>,
    id: Seq<char>,
)
    requires
        is_older(id, n),
    ensures
        uses(sequence(nodes, k, omitted, code, n, m, entry, context), id) <= ends_at(entry, id),
    decreases nodes, k,
{
    if 0 < k <= nodes.len() {
        let before = sequence(nodes, (k - 1) as nat, omitted, code, n, m, entry, context);
        lemma_sequence_uses(
            nodes,
            (k - 1) as nat,
            omitted,
            code,
            n,
            m,
            entry,
            context,
            id,
        );
        if !omits(omitted, nodes[k - 1].kind) {
            let (n_now, m_now) = (n + before.nodes.len(), m + before.jumps.len());
            let now = statement(nodes[k - 1], code, n_now, m_now, before.exits, context);
            law_statement_uses_paths_once(
                nodes[k - 1],
                code,
                n_now,
                m_now,
                before.exits,
                context,
                id,
            );
            lemma_then_uses(before, now, entry, id);
        }
    }
}

/// As [`law_statement_uses_paths_once`], of an `if`.
proof fn lemma_if_uses(
    node: Syntax,
    code: Seq<char>,
    n: nat,
    m: nat,
    entry: Seq<PathView>,
    context: Option<ContextView>,
    id: Seq<char>,
)
    requires
        is_older(id, n),
    ensures
        uses(if_statement(node, code, n, m, entry, context), id) <= ends_at(entry, id),
    decreases node, 0nat,
{
    let head = draw_node(n, condition_text(node.condition, code), "decision"@, entry);
    let open_yes = seq![labelled_path(node_id(n), "Yes"@)];
    let open_no = seq![labelled_path(node_id(n), "No"@)];
    let yes = optional_statement(node.consequence, code, n + 1, m, open_yes, context);
    let (n_no, m_no) = (n + 1 + yes.nodes.len(), m + yes.jumps.len());
    let no = match node.alternative {
        Some(s) => statement(*s, code, n_no, m_no, open_no, context),
        None => pass(open_no),
    };
    lemma_one_end(open_yes[0], id);
    lemma_one_end(open_no[0], id);
    lemma_paths_used(entry, node_id(n), m, id);
    lemma_optional_uses(node.consequence, code, n + 1, m, open_yes, context, id);
    if let Some(s) = node.alternative {
        law_statement_uses_paths_once(*s, code, n_no, m_no, open_no, context, id);
    }
    assert(uses(yes, id) == 0 && uses(no, id) == 0);
    lemma_edges_at_concat(head.edges, yes.edges, id);
    lemma_edges_at_concat(head.edges + yes.edges, no.edges, id);
    lemma_edges_at_concat(head.jumps, yes.jumps, id);
    lemma_edges_at_concat(head.jumps + yes.jumps, no.jumps, id);
    lemma_ends_at_concat(yes.exits, no.exits, id);
}

/// As [`law_statement_uses_paths_once`], of a `while`.
proof fn lemma_while_uses(
    node: Syntax,
    code: Seq<char>,
    n: nat,
    m: nat,
    entry: Seq<PathView>,
    id: Seq<char>,
)
    requires
        is_older(id, n),
    ensures
        uses(while_statement(node, code, n, m, entry), id) <= ends_at(entry, id),
    decreases node, 0nat,
{
    let drawn = while_statement(node, code, n, m, entry);
    let (header, sink) = (node_id(n), node_id(n + 1));
    let head = draw_node(n, condition_text(node.condition, code), "decision"@, entry);
    let open_yes = seq![labelled_path(header, "Yes"@)];
    let around = ContextView { header_id: header, break_sink_id: sink };
    let body = optional_statement(node.body, code, n + 2, m, open_yes, Some(around));
    let next = m + body.jumps.len();
    let back = jumps_from(body.exits, header, next);
    let out = jump(header, sink, "No"@, next + back.len());
    lemma_one_end(open_yes[0], id);
    lemma_one_end(plain_path(sink), id);
    lemma_paths_used(entry, header, m, id);
    lemma_optional_uses(node.body, code, n + 2, m, open_yes, Some(around), id);
    lemma_paths_used(body.exits, header, next, id);
    lemma_edges_at_concat(head.edges, body.edges, id);
    lemma_edges_at_concat(body.jumps, back, id);
    lemma_edges_at_concat(body.jumps + back, seq![out], id);
    lemma_one_edge(out, id);
    assert(body.jumps + back + seq![out] == drawn.jumps);
}

/// As [`law_statement_uses_paths_once`], of a `for`.
proof fn lemma_for_uses(
    node: Syntax,
    code: Seq<char>,
    n: nat,
    m: nat,
    entry: Seq<PathView>,
    id: Seq<char>,
)
    requires
        is_older(id, n),
    ensures
        uses(for_statement(node, code, n, m, entry), id) <= ends_at(entry, id),
    decreases node, 0nat,
{
    let drawn = for_statement(node, code, n, m, entry);
    let init = for_initializer(node, code, n, entry);
    let head = for_head(node, code, n, entry);
    let h = for_decision(node, code, n, entry);
    let (header, sink, renew) = (node_id(h), node_id(h + 1), node_id(h + 2));
    let around = ContextView { header_id: header, break_sink_id: sink };
    let n_body = n + head.nodes.len();
    let body = optional_statement(node.body, code, n_body, m, head.exits, Some(around));
    let next = m + body.jumps.len();
    let update = if node.update is Some {
        Some(renew)
    } else {
        None
    };
    let back = for_back_jumps(node.body is Some, update, header, body.exits, next);
    let out = jump(header, sink, "No"@, next + back.len());
    lemma_one_end(plain_path(node_id(n)), id);
    lemma_one_end(labelled_path(header, "Yes"@), id);
    lemma_one_end(plain_path(sink), id);
    lemma_paths_used(entry, node_id(n), m, id);
    lemma_paths_used(init.exits, header, m, id);
    lemma_edges_at_concat(init.edges, path_edges(init.exits, header), id);
    assert(edges_at(head.edges, id) <= ends_at(entry, id));
    lemma_optional_uses(node.body, code, n_body, m, head.exits, Some(around), id);
    assert(uses(body, id) == 0);
    lemma_paths_used(body.exits, header, next, id);
    lemma_paths_used(body.exits, renew, next, id);
    assert(edges_at(back, id) == 0) by {
        if node.body is Some && node.update is Some {
            let turn = jump(renew, header, ""@, next + body.exits.len());
            let jumps = jumps_from(body.exits, renew, next);
            lemma_edges_at_concat(jumps, seq![turn], id);
            lemma_one_edge(turn, id);
            assert(jumps + seq![turn] == back);
        }
    }
    lemma_edges_at_concat(head.edges, body.edges, id);
    lemma_edges_at_concat(body.jumps, back, id);
    lemma_edges_at_concat(body.jumps + back, seq![out], id);
    lemma_one_edge(out, id);
    assert(body.jumps + back + seq![out] == drawn.jumps);
}

/// As [`law_statement_uses_paths_once`], of a `do`.
proof fn lemma_do_uses(
    node: Syntax,
    code: Seq<char>,
    n: nat,
    m: nat,
    entry: Seq<PathView>,
    id: Seq<char>,
)
    requires
        is_older(id, n),
    ensures
        uses(do_statement(node, code, n, m, entry), id) <= ends_at(entry, id),
    decreases node, 0nat,
{
    let drawn = do_statement(node, code, n, m, entry);
    let (sink, header) = (node_id(n), node_id(n + 1));
    let around = ContextView { header_id: header, break_sink_id: sink };
    let body = optional_statement(node.body, code, n + 2, m, entry, Some(around));
    let again = n + 2 + body.nodes.len();
    let next = m + body.jumps.len();
    let back = path_edges(body.exits, header);
    let repeat = repeat_edges(body_start(node.body, code, n), again);
    let yes = jump(header, node_id(again), "Yes"@, next);
    let no = jump(header, sink, "No"@, next + 1);
    lemma_optional_uses(node.body, code, n + 2, m, entry, Some(around), id);
    lemma_paths_used(body.exits, header, next, id);
    lemma_one_end(plain_path(sink), id);
    assert(edges_at(repeat, id) == 0) by {
        if let Some(s) = body_start(node.body, code, n) {
            lemma_one_end(plain_path(node_id(again)), id);
            lemma_paths_used(seq![plain_path(node_id(again))], node_id(s), next, id);
        }
    }
    lemma_edges_at_concat(body.edges, back, id);
    lemma_edges_at_concat(body.edges + back, repeat, id);
    lemma_edges_at_concat(body.jumps, seq![yes], id);
    lemma_edges_at_concat(body.jumps + seq![yes], seq![no], id);
    lemma_one_edge(yes, id);
    lemma_one_edge(no, id);
    assert(body.jumps + seq![yes] + seq![no] == drawn.jumps);
}

/// As [`law_statement_uses_paths_once`], of the cases of a `switch`.
proof fn lemma_cases_use(
    nodes: Seq<Syntax>,
    k: nat,
    code: Seq<char>,
    n: nat,
    m: nat,
    switch: Seq<char>,
    around: ContextView,
    id: Seq<char>,
)
    requires
        is_older(id, n),
        id != switch,
    ensures
        uses(cases(nodes, k, code, n, m, switch, around), id) == 0,
    decreases nodes, k,
{
    if 0 < k <= nodes.len() {
        let before = cases(nodes, (k - 1) as nat, code, n, m, switch, around);
        let case = nodes[k - 1];
        lemma_cases_use(nodes, (k - 1) as nat, code, n, m, switch, around, id);
        if case.kind == "case_statement"@ {
            let entry = seq![labelled_path(switch, case_label(case, code))];
            let (n_now, m_now) = (n + before.nodes.len(), m + before.jumps.len());
            let (list, tokens) = (case.children, Omitted::CaseTokens);
            let len = list.len();
            let body = sequence(list, len, tokens, code, n_now, m_now, entry, Some(around));
            let m_out = m_now + body.jumps.len();
            let out = jumps_from(body.exits, around.break_sink_id, m_out);
            lemma_one_end(entry[0], id);
            lemma_sequence_uses(
                list,
                len,
                tokens,
                code,
                n_now,
                m_now,
                entry,
                Some(around),
                id,
            );
            lemma_paths_used(body.exits, around.break_sink_id, m_out, id);
            lemma_edges_at_concat(before.edges, body.edges, id);
            lemma_edges_at_concat(before.jumps, body.jumps, id);
            lemma_edges_at_concat(before.jumps + body.jumps, out, id);
        }
    }
}

/// As [`law_statement_uses_paths_once`], of a `switch`.
proof fn lemma_switch_uses(
    node: Syntax,
    code: Seq<char>,
    n: nat,
    m: nat,
    entry: Seq<PathView>,
    context: Option<ContextView>,
    id: Seq<char>,
)
    requires
        is_older(id, n),
    ensures
        uses(switch_statement(node, code, n, m, entry, context), id) <= ends_at(entry, id),
    decreases node, 0nat,
{
    let (switch, sink) = (node_id(n), node_id(n + 1));
    let around = switch_context(context, switch, sink);
    let label = "switch ("@ + text_of(*node.value->0, code) + ")"@;
    let head = draw_node(n, label, "decision"@, entry);
    let inner = match node.body {
        Some(b) => cases(b.children, b.children.len(), code, n + 2, m, switch, around),
        None => pass(seq![]),
    };
    lemma_one_end(plain_path(sink), id);
    lemma_paths_used(entry, switch, m, id);
    if let Some(b) = node.body {
        let list = b.children;
        lemma_cases_use(list, list.len(), code, n + 2, m, switch, around, id);
    }
    lemma_edges_at_concat(head.edges, inner.edges, id);
}

/// As [`law_statement_uses_paths_once`], of the bodies of a function.
proof fn lemma_bodies_use(
    parts: Seq<Syntax>,
    k: nat,
    code: Seq<char>,
    n: nat,
    m: nat,
    entry: Seq<PathView>,
    id: Seq<char>,
)
    requires
        is_older(id, n),
    ensures
        uses(bodies(parts, k, code, n, m, entry), id) <= ends_at(entry, id),
    decreases k,
{
    if 0 < k <= parts.len() {
        let before = bodies(parts, (k - 1) as nat, code, n, m, entry);
        lemma_bodies_use(parts, (k - 1) as nat, code, n, m, entry, id);
        if parts[k - 1].kind == "compound_statement"@ {
            let (n_now, m_now) = (n + before.nodes.len(), m + before.jumps.len());
            let (list, none) = (parts[k - 1].children, Omitted::Nothing);
            let len = list.len();
            let now = sequence(list, len, none, code, n_now, m_now, before.exits, None);
            lemma_sequence_uses(list, len, none, code, n_now, m_now, before.exits, None, id);
            lemma_then_uses(before, now, entry, id);
        }
    }
}

/// As [`law_statement_uses_paths_once`], of the functions of a program.
proof fn lemma_functions_use(
    nodes: Seq<Syntax>,
    k: nat,
    code: Seq<char>,
    n: nat,
    m: nat,
    entry: Seq<PathView>,
    id: Seq<char>,
)
    requires
        is_older(id, n),
    ensures
        uses(functions(nodes, k, code, n, m, entry), id) <= ends_at(entry, id),
    decreases k,
{
    if 0 < k <= nodes.len() {
        let before = functions(nodes, (k - 1) as nat, code, n, m, entry);
        lemma_functions_use(nodes, (k - 1) as nat, code, n, m, entry, id);
        if nodes[k - 1].kind == "function_definition"@ {
            let (n_now, m_now) = (n + before.nodes.len(), m + before.jumps.len());
            let list = nodes[k - 1].children;
            let now = bodies(list, list.len(), code, n_now, m_now, before.exits);
            lemma_bodies_use(list, list.len(), code, n_now, m_now, before.exits, id);
            lemma_then_uses(before, now, entry, id);
        }
    }
}

/// The edges to the end are as many as the open ends.
proof fn lemma_ends_used(paths: Seq<PathView>, id: Seq<char>)
    ensures
        edges_at(paths.map_values(|p: PathView| end_edge(p)), id) == ends_at(paths, id),
    decreases paths.len(),
{
    let ends = paths.map_values(|p: PathView| end_edge(p));
    if paths.len() > 0 {
        lemma_ends_used(paths.drop_last(), id);
        assert(ends.drop_last() == paths.drop_last().map_values(|p: PathView| end_edge(p)));
    }
}

/// Edges that are counted at most once are one.
pub(crate) proof fn lemma_counted_once(edges: Seq<EdgeView>, id: Seq<char>, i: int)
    requires
        0 <= i < edges.len(),
        edges[i].source == id,
    ensures
        edges_at(edges, id) >= 1,
        edges_at(edges, id) == 1 ==> forall|j: int|
            0 <= j < edges.len() && (#[trigger] edges[j]).source == id ==> j == i,
    decreases edges.len(),
{
    let rest = edges.drop_last();
    if i < edges.len() - 1 {
        lemma_counted_once(rest, id, i);
        assert forall|j: int|
            0 <= j < edges.len() && (#[trigger] edges[j]).source == id && edges_at(edges, id)
                == 1 implies j == i by {
            if j < edges.len() - 1 {
                assert(rest[j].source == id);
            }
        }
    } else {
        assert forall|j: int|
            0 <= j < edges.len() && (#[trigger] edges[j]).source == id && edges_at(edges, id)
                == 1 implies j == i by {
            if j < edges.len() - 1 {
                lemma_counted_once(rest, id, j);
            }
        }
    }
}

/// A flowchart is entered over at most one edge, and none leads to its start or
/// away from its end.
pub proof fn law_chart_start_and_end(root: Syntax, code: Seq<char>)
    ensures
        ({
            let edges = chart(root, code).edges;
            &&& forall|i: int|
                0 <= i < edges.len() ==> (#[trigger] edges[i]).source != "end"@ && edges[i].target
                    != "start"@
            &&& forall|i: int, j: int|
                0 <= i < edges.len() && 0 <= j < edges.len() && (#[trigger] edges[i]).source
                    == "start"@ && (#[trigger] edges[j]).source == "start"@ ==> i == j
        }),
{
    let c = chart(root, code);
    let drawn = program(root, code);
    let entry = seq![plain_path("start"@)];
    let ends = drawn.exits.map_values(|p: PathView| end_edge(p));
    let (start, end) = ("start"@, "end"@);
    assert forall|k: nat| start != #[trigger] node_id(k) && end != node_id(k) by {
        law_node_id_is_neither_start_nor_end(k);
    }
    reveal_strlit("start");
    reveal_strlit("end");
    assert(start.len() != end.len());
    lemma_functions_use(root.children, root.children.len(), code, 0, 0, entry, start);
    lemma_functions_use(root.children, root.children.len(), code, 0, 0, entry, end);
    lemma_one_end(entry[0], start);
    lemma_one_end(entry[0], end);
    lemma_ends_used(drawn.exits, start);
    lemma_ends_used(drawn.exits, end);
    lemma_edges_at_concat(drawn.edges, ends, start);
    lemma_edges_at_concat(drawn.edges + ends, drawn.jumps, start);
    lemma_edges_at_concat(drawn.edges, ends, end);
    lemma_edges_at_concat(drawn.edges + ends, drawn.jumps, end);
    law_chart_closed(root, code);
    law_chart_node_ids_distinct(root, code);
    assert forall|i: int| 0 <= i < c.edges.len() implies (#[trigger] c.edges[i]).source != end
        && c.edges[i].target != start by {
        if c.edges[i].source == end {
            lemma_counted_once(c.edges, end, i);
        }
    }
    assert forall|i: int, j: int|
        0 <= i < c.edges.len() && 0 <= j < c.edges.len() && (#[trigger] c.edges[i]).source == start
            && (#[trigger] c.edges[j]).source == start implies i == j by {
        lemma_counted_once(c.edges, start, i);
    }
}

} // verus!
