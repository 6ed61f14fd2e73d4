//! Laws on where control goes on: no path of a complete program gets lost.
use crate::flow::{
    body_start, case_label, cases, clause_text, condition_text, do_statement, draw_node,
    for_back_jumps, for_condition_text, for_decision, for_head, for_initializer, for_statement,
    for_update, if_statement, is_skipped, labelled_path, omits, optional_statement, pass,
    plain_path, repeat_edges, sequence, statement, switch_context, switch_statement, text_of,
    while_statement, Fragment, Omitted,
};
use crate::flowchart::{bodies, chart, end_edge, functions, program};
use crate::graph::{jump, jumps_from, node_id, path_edges, ContextView, EdgeView, PathView};
use crate::syntax::Syntax;
use vstd::prelude::*;

verus! {

/// Whether one of the edges leaves the node `id`.
pub open spec fn leaves(edges: Seq<EdgeView>, id: Seq<char>) -> bool {
    exists|i: int| 0 <= i < edges.len() && (#[trigger] edges[i]).source == id
}

/// Whether one of the open ends is at the node `id`.
pub open spec fn is_open(paths: Seq<PathView>, id: Seq<char>) -> bool {
    exists|i: int| 0 <= i < paths.len() && (#[trigger] paths[i]).node_id == id
}

/// Whether control goes on from the node `id`: over an edge or a jump, or at
/// an open end.
pub open spec fn goes_on(f: Fragment, id: Seq<char>) -> bool {
    leaves(f.edges, id) || leaves(f.jumps, id) || is_open(f.exits, id)
}

/// Whether control stops at nodes of kind `kind`.
pub open spec fn stops(kind: Seq<char>) -> bool {
    kind == "return_statement"@
}

/// Whether control goes on from each node of a fragment at which it does not
/// stop, and from each open end that leads into the fragment.
pub open spec fn carries_on(f: Fragment, entry: Seq<PathView>) -> bool {
    &&& forall|i: int|
        0 <= i < f.nodes.len() ==> stops((#[trigger] f.nodes[i]).kind) || goes_on(f, f.nodes[i].id)
    &&& forall|i: int| 0 <= i < entry.len() ==> goes_on(f, (#[trigger] entry[i]).node_id)
}

/// Whether a statement has the parts that lead control on: a `break` or a
/// `continue` stands inside a loop or a `switch`, a `for` with an update has a
/// body, a `do` has a body that does not begin with a jump away from it, and a
/// `switch` has a `case`.
pub open spec fn complete(node: Syntax, code: Seq<char>, inside: bool) -> bool
    decreases node, 1nat,
{
    if is_skipped(node.kind) {
        true
    } else if node.kind == "compound_statement"@ {
        complete_list(node.children, Omitted::Nothing, code, inside)
    } else if node.kind == "else_clause"@ {
        complete_list(node.children, Omitted::ElseTokens, code, inside)
    } else if node.kind == "break_statement"@ || node.kind == "continue_statement"@ {
        inside
    } else if node.kind == "if_statement"@ {
        complete_if_any(node.consequence, code, inside) && complete_if_any(
            node.alternative,
            code,
            inside,
        )
    } else if node.kind == "while_statement"@ {
        complete_if_any(node.body, code, true)
    } else if node.kind == "for_statement"@ {
        complete_if_any(node.body, code, true) && (node.update is Some ==> node.body is Some)
    } else if node.kind == "do_statement"@ {
        complete_if_any(node.body, code, true) && body_start(node.body, code, 0) is Some
    } else if node.kind == "switch_statement"@ {
        match node.body {
            Some(b) => has_case(b.children, b.children.len()) && complete_cases(b.children, code),
            None => false,
        }
    } else {
        true
    }
}

/// Whether a statement, if there is one, is complete.
pub open spec fn complete_if_any(
    node: Option<Box<Syntax>>,
    code: Seq<char>,
    inside: bool,
) -> bool
    decreases node, 2nat,
{
    match node {
        Some(n) => complete(*n, code, inside),
        None => true,
    }
}

/// Whether all of `nodes` but the `omitted` ones are complete.
pub open spec fn complete_list(
    nodes: Seq<Syntax>,
    omitted: Omitted,
    code: Seq<char>,
    inside: bool,
) -> bool
    decreases nodes, 0nat,
{
    forall|i: int|
        0 <= i < nodes.len() ==> omits(omitted, #[trigger] nodes[i].kind) || complete(
            nodes[i],
            code,
            inside,
        )
}

/// Whether the `case`s among `nodes` are complete.
pub open spec fn complete_cases(nodes: Seq<Syntax>, code: Seq<char>) -> bool
    decreases nodes, 0nat,
{
    forall|i: int|
        0 <= i < nodes.len() && #[trigger] nodes[i].kind == "case_statement"@ ==> complete_list(
            nodes[i].children,
            Omitted::CaseTokens,
            code,
            true,
        )
}

/// Whether there is a `case` among the first `k` of `nodes`.
pub open spec fn has_case(nodes: Seq<Syntax>, k: nat) -> bool {
    exists|i: int| 0 <= i < k && i < nodes.len() && #[trigger] nodes[i].kind == "case_statement"@
}

/// Whether all statements of a program are complete.
pub open spec fn complete_program(root: Syntax, code: Seq<char>) -> bool {
    forall|i: int, j: int|
        0 <= i < root.children.len() && root.children[i].kind == "function_definition"@ && 0 <= j
            < root.children[i].children.len() && (#[trigger] root.children[i].children[j]).kind
            == "compound_statement"@ ==> complete_list(
            root.children[i].children[j].children,
            Omitted::Nothing,
            code,
            false,
        )
}

/// An edge stays when others are added.
proof fn lemma_leaves_concat(a: Seq<EdgeView>, b: Seq<EdgeView>, id: Seq<char>)
    ensures
        leaves(a + b, id) == (leaves(a, id) || leaves(b, id)),
{
    let c = a + b;
    if leaves(a, id) {
        let i = choose|i: int| 0 <= i < a.len() && (#[trigger] a[i]).source == id;
        assert(c[i] == a[i]);
    }
    if leaves(b, id) {
        let i = choose|i: int| 0 <= i < b.len() && (#[trigger] b[i]).source == id;
        assert(c[a.len() + i] == b[i]);
    }
    if leaves(c, id) {
        let i = choose|i: int| 0 <= i < c.len() && (#[trigger] c[i]).source == id;
        if i < a.len() {
            assert(a[i] == c[i]);
        } else {
            assert(b[i - a.len()] == c[i]);
        }
    }
}

/// An open end stays when others are added.
proof fn lemma_open_concat(a: Seq<PathView>, b: Seq<PathView>, id: Seq<char>)
    ensures
        is_open(a, id) ==> is_open(a + b, id),
        is_open(b, id) ==> is_open(a + b, id),
{
    let c = a + b;
    if is_open(a, id) {
        let i = choose|i: int| 0 <= i < a.len() && (#[trigger] a[i]).node_id == id;
        assert(c[i] == a[i]);
    }
    if is_open(b, id) {
        let i = choose|i: int| 0 <= i < b.len() && (#[trigger] b[i]).node_id == id;
        assert(c[a.len() + i] == b[i]);
    }
}

/// Connected open ends are left over edges.
proof fn lemma_connected(paths: Seq<PathView>, to: Seq<char>, id: Seq<char>)
    requires
        is_open(paths, id),
    ensures
        leaves(path_edges(paths, to), id),
{
    let i = choose|i: int| 0 <= i < paths.len() && (#[trigger] paths[i]).node_id == id;
    assert(path_edges(paths, to)[i].source == id);
}

/// Open ends that jump are left over jumps.
proof fn lemma_jumped(paths: Seq<PathView>, to: Seq<char>, m: nat, id: Seq<char>)
    requires
        is_open(paths, id),
    ensures
        leaves(jumps_from(paths, to, m), id),
{
    let i = choose|i: int| 0 <= i < paths.len() && (#[trigger] paths[i]).node_id == id;
    assert(jumps_from(paths, to, m)[i].source == id);
}

/// The last of a list of jumps leaves its source.
proof fn lemma_last_leaves(jumps: Seq<EdgeView>, last: EdgeView, id: Seq<char>)
    ensures
        leaves(jumps, id) ==> leaves(jumps.push(last), id),
        leaves(jumps.push(last), last.source),
{
    let all = jumps.push(last);
    assert(all[jumps.len() as int].source == last.source);
    if leaves(jumps, id) {
        let i = choose|i: int| 0 <= i < jumps.len() && (#[trigger] jumps[i]).source == id;
        assert(all[i] == jumps[i]);
    }
}

/// Where control goes on in one of two fragments, it goes on in both together.
proof fn lemma_then_goes_on(f: Fragment, g: Fragment, id: Seq<char>)
    requires
        goes_on(g, id) || (goes_on(f, id) && forall|i: int|
            0 <= i < f.exits.len() ==> goes_on(g, (#[trigger] f.exits[i]).node_id)),
    ensures
        goes_on(f.then_draw(g), id),
{
    lemma_leaves_concat(f.edges, g.edges, id);
    lemma_leaves_concat(f.jumps, g.jumps, id);
    if is_open(f.exits, id) && !goes_on(g, id) {
        let i = choose|i: int| 0 <= i < f.exits.len() && (#[trigger] f.exits[i]).node_id == id;
        assert(goes_on(g, f.exits[i].node_id));
    }
}

/// Fragments that carry on do so one after another.
proof fn lemma_then_carries_on(f: Fragment, g: Fragment, entry: Seq<PathView>)
    requires
        carries_on(f, entry),
        carries_on(g, f.exits),
    ensures
        carries_on(f.then_draw(g), entry),
{
    let h = f.then_draw(g);
    assert forall|i: int| 0 <= i < h.nodes.len() implies stops((#[trigger] h.nodes[i]).kind)
        || goes_on(h, h.nodes[i].id) by {
        if i < f.nodes.len() {
            assert(h.nodes[i] == f.nodes[i]);
            if !stops(f.nodes[i].kind) {
                lemma_then_goes_on(f, g, f.nodes[i].id);
            }
        } else {
            let j = i - f.nodes.len();
            assert(h.nodes[i] == g.nodes[j]);
            if !stops(g.nodes[j].kind) {
                lemma_then_goes_on(f, g, g.nodes[j].id);
            }
        }
    }
    assert forall|i: int| 0 <= i < entry.len() implies goes_on(
        h,
        (#[trigger] entry[i]).node_id,
    ) by {
        lemma_then_goes_on(f, g, entry[i].node_id);
    }
}

/// A node carries on.
proof fn lemma_node_carries_on(n: nat, label: Seq<char>, kind: Seq<char>, entry: Seq<PathView>)
    ensures
        carries_on(draw_node(n, label, kind, entry), entry),
{
    let f = draw_node(n, label, kind, entry);
    assert(f.exits[0].node_id == node_id(n));
    assert(is_open(f.exits, node_id(n)));
    assert forall|i: int| 0 <= i < entry.len() implies goes_on(
        f,
        (#[trigger] entry[i]).node_id,
    ) by {
        lemma_connected(entry, node_id(n), entry[i].node_id);
    }
}

/// In a complete statement no path of control gets lost: it goes on from each
/// open end that leads into the statement, and from each node that the
/// statement adds but returns.
pub proof fn law_statement_carries_on(
    node: Syntax,
    code: Seq<char>,
    n: nat,
    m: nat,
    entry: Seq<PathView>,
    context: Option<ContextView>,
)
    requires
        complete(node, code, context is Some),
    ensures
        carries_on(statement(node, code, n, m, entry, context), entry),
    decreases node, 1nat,
{
    let drawn = statement(node, code, n, m, entry, context);
    let len = node.children.len();
    lemma_node_carries_on(n, text_of(node, code), node.kind, entry);
    lemma_node_carries_on(n, text_of(node, code), "return_statement"@, entry);
    if is_skipped(node.kind) {
    } else if node.kind == "declaration"@ && !text_of(node, code).contains('=') {
    } else if node.kind == "compound_statement"@ {
        let none = Omitted::Nothing;
        lemma_sequence_carries_on(node.children, len, none, code, n, m, entry, context);
    } else if node.kind == "else_clause"@ {
        let tokens = Omitted::ElseTokens;
        lemma_sequence_carries_on(node.children, len, tokens, code, n, m, entry, context);
    } else if node.kind == "return_statement"@ {
        assert forall|i: int| 0 <= i < entry.len() implies goes_on(
            drawn,
            (#[trigger] entry[i]).node_id,
        ) by {
            lemma_connected(entry, node_id(n), entry[i].node_id);
        }
    } else if node.kind == "break_statement"@ || node.kind == "continue_statement"@ {
        let target = if node.kind == "break_statement"@ {
            context->0.break_sink_id
        } else {
            context->0.header_id
        };
        assert forall|i: int| 0 <= i < entry.len() implies goes_on(
            drawn,
            (#[trigger] entry[i]).node_id,
        ) by {
            lemma_jumped(entry, target, m, entry[i].node_id);
        }
    } else if node.kind == "if_statement"@ {
        lemma_if_carries_on(node, code, n, m, entry, context);
    } else if node.kind == "while_statement"@ {
        lemma_while_carries_on(node, code, n, m, entry);
    } else if node.kind == "for_statement"@ {
        lemma_for_carries_on(node, code, n, m, entry);
    } else if node.kind == "do_statement"@ {
        lemma_do_carries_on(node, code, n, m, entry);
    } else if node.kind == "switch_statement"@ {
        lemma_switch_carries_on(node, code, n, m, entry, context);
    }
}

/// The nodes of a part that may be missing carry on.
proof fn lemma_optional_carries_on(
    node: Option<Box<Syntax>>,
    code: Seq<char>,
    n: nat,
    m: nat,
    entry: Seq<PathView>,
    context: Option<ContextView>,
)
    requires
        complete_if_any(node, code, context is Some),
    ensures
        ({
            let drawn = optional_statement(node, code, n, m, entry, context);
            &&& carries_on(drawn, seq![])
            &&& node is Some ==> carries_on(drawn, entry)
        }),
    decreases node, 2nat,
{
    if let Some(s) = node {
        law_statement_carries_on(*s, code, n, m, entry, context);
    }
}

/// As [`law_statement_carries_on`], of a list of statements.
proof fn lemma_sequence_carries_on(
    nodes: Seq<Syntax>,
    k: nat,
    omitted: Omitted,
    code: Seq<char>,
    n: nat,
    m: nat,
    entry: Seq<PathView>,
    context: Option<ContextView>,
)
    requires
        complete_list(nodes, omitted, code, context is Some),
    ensures
        carries_on(sequence(nodes, k, omitted, code, n, m, entry, context), entry),
    decreases nodes, k,
{
    if 0 < k <= nodes.len() {
        let before = sequence(nodes, (k - 1) as nat, omitted, code, n, m, entry, context);
        lemma_sequence_carries_on(
            nodes,
            (k - 1) as nat,
            omitted,
            code,
            n,
            m,
            entry,
            context,
        );
        if !omits(omitted, nodes[k - 1].kind) {
            let (n_now, m_now) = (n + before.nodes.len(), m + before.jumps.len());
            law_statement_carries_on(nodes[k - 1], code, n_now, m_now, before.exits, context);
            let now = statement(nodes[k - 1], code, n_now, m_now, before.exits, context);
            lemma_then_carries_on(before, now, entry);
        }
    }
}

/// As [`law_statement_carries_on`], of an `if`.
proof fn lemma_if_carries_on(
    node: Syntax,
    code: Seq<char>,
    n: nat,
    m: nat,
    entry: Seq<PathView>,
    context: Option<ContextView>,
)
    requires
        complete_if_any(node.consequence, code, context is Some),
        complete_if_any(node.alternative, code, context is Some),
    ensures
        carries_on(if_statement(node, code, n, m, entry, context), entry),
    decreases node, 0nat,
{
    let drawn = if_statement(node, code, n, m, entry, context);
    let label = condition_text(node.condition, code);
    let head = draw_node(n, label, "decision"@, entry);
    let open_yes = seq![labelled_path(node_id(n), "Yes"@)];
    let open_no = seq![labelled_path(node_id(n), "No"@)];
    let yes = optional_statement(node.consequence, code, n + 1, m, open_yes, context);
    let (n_no, m_no) = (n + 1 + yes.nodes.len(), m + yes.jumps.len());
    let no = match node.alternative {
        Some(s) => statement(*s, code, n_no, m_no, open_no, context),
        None => pass(open_no),
    };
    lemma_node_carries_on(n, label, "decision"@, entry);
    lemma_optional_carries_on(node.consequence, code, n + 1, m, open_yes, context);
    assert(carries_on(no, open_no)) by {
        if let Some(s) = node.alternative {
            law_statement_carries_on(*s, code, n_no, m_no, open_no, context);
        }
    }
    assert forall|id: Seq<char>| goes_on(yes, id) || goes_on(no, id) || leaves(
        head.edges,
        id,
    ) implies #[trigger] goes_on(drawn, id) by {
        lemma_leaves_concat(head.edges, yes.edges, id);
        lemma_leaves_concat(head.edges + yes.edges, no.edges, id);
        lemma_leaves_concat(head.jumps, yes.jumps, id);
        lemma_leaves_concat(head.jumps + yes.jumps, no.jumps, id);
        lemma_open_concat(yes.exits, no.exits, id);
    }
    assert(goes_on(no, open_no[0].node_id));
    assert forall|i: int| 0 <= i < drawn.nodes.len() implies stops(
        (#[trigger] drawn.nodes[i]).kind,
    ) || goes_on(drawn, drawn.nodes[i].id) by {
        if i == 0 {
            assert(drawn.nodes[i] == head.nodes[0]);
        } else if i < 1 + yes.nodes.len() {
            assert(drawn.nodes[i] == yes.nodes[i - 1]);
        } else {
            assert(drawn.nodes[i] == no.nodes[i - 1 - yes.nodes.len()]);
        }
    }
    assert forall|i: int| 0 <= i < entry.len() implies goes_on(
        drawn,
        (#[trigger] entry[i]).node_id,
    ) by {
        lemma_connected(entry, node_id(n), entry[i].node_id);
    }
}

/// As [`law_statement_carries_on`], of a `while`.
proof fn lemma_while_carries_on(
    node: Syntax,
    code: Seq<char>,
    n: nat,
    m: nat,
    entry: Seq<PathView>,
)
    requires
        complete_if_any(node.body, code, true),
    ensures
        carries_on(while_statement(node, code, n, m, entry), entry),
    decreases node, 0nat,
{
    let drawn = while_statement(node, code, n, m, entry);
    let (header, sink) = (node_id(n), node_id(n + 1));
    let head = draw_node(n, condition_text(node.condition, code), "decision"@, entry);
    let open_yes = seq![labelled_path(header, "Yes"@)];
    let around = ContextView { header_id: header, break_sink_id: sink };
    let body = optional_statement(node.body, code, n + 2, m, open_yes, Some(around));
    lemma_optional_carries_on(node.body, code, n + 2, m, open_yes, Some(around));
    let next = m + body.jumps.len();
    let back = jumps_from(body.exits, header, next);
    let out = jump(header, sink, "No"@, next + back.len());
    lemma_last_leaves(body.jumps + back, out, header);
    assert forall|id: Seq<char>| goes_on(body, id) || leaves(head.edges, id) implies #[trigger]
        goes_on(drawn, id) by {
        lemma_leaves_concat(head.edges, body.edges, id);
        lemma_leaves_concat(body.jumps, back, id);
        if is_open(body.exits, id) {
            lemma_jumped(body.exits, header, next, id);
        }
        lemma_last_leaves(body.jumps + back, out, id);
    }
    assert(drawn.exits[0].node_id == sink);
    assert(is_open(drawn.exits, sink));
    assert forall|i: int| 0 <= i < drawn.nodes.len() implies stops(
        (#[trigger] drawn.nodes[i]).kind,
    ) || goes_on(drawn, drawn.nodes[i].id) by {
        if i >= 2 {
            assert(drawn.nodes[i] == body.nodes[i - 2]);
        }
    }
    assert forall|i: int| 0 <= i < entry.len() implies goes_on(
        drawn,
        (#[trigger] entry[i]).node_id,
    ) by {
        lemma_connected(entry, header, entry[i].node_id);
    }
}

/// The first clause of a `for` carries on.
proof fn lemma_initializer_carries_on(
    node: Syntax,
    code: Seq<char>,
    n: nat,
    entry: Seq<PathView>,
)
    ensures
        carries_on(for_initializer(node, code, n, entry), entry),
{
    if let Some(i) = node.initializer {
        lemma_node_carries_on(n, clause_text(*i, code), "expression_statement"@, entry);
    }
}

/// As [`law_statement_carries_on`], of a `for`.
proof fn lemma_for_carries_on(
    node: Syntax,
    code: Seq<char>,
    n: nat,
    m: nat,
    entry: Seq<PathView>,
)
    requires
        complete_if_any(node.body, code, true),
        node.update is Some ==> node.body is Some,
    ensures
        carries_on(for_statement(node, code, n, m, entry), entry),
    decreases node, 0nat,
{
    let drawn = for_statement(node, code, n, m, entry);
    let init = for_initializer(node, code, n, entry);
    let head = for_head(node, code, n, entry);
    let h = for_decision(node, code, n, entry);
    let (header, sink) = (node_id(h), node_id(h + 1));
    let deciding = draw_node(h, for_condition_text(node, code), "decision"@, init.exits);
    let around = ContextView { header_id: header, break_sink_id: sink };
    let n_body = n + head.nodes.len();
    let body = optional_statement(node.body, code, n_body, m, head.exits, Some(around));
    lemma_initializer_carries_on(node, code, n, entry);
    lemma_node_carries_on(h, for_condition_text(node, code), "decision"@, init.exits);
    lemma_then_carries_on(init, deciding, entry);
    lemma_optional_carries_on(node.body, code, n_body, m, head.exits, Some(around));
    let start = init.then_draw(deciding);
    let next = m + body.jumps.len();
    let update = if node.update is Some {
        Some(node_id(h + 2))
    } else {
        None
    };
    let back = for_back_jumps(node.body is Some, update, header, body.exits, next);
    let out = jump(header, sink, "No"@, next + back.len());
    lemma_last_leaves(body.jumps + back, out, header);
    assert forall|id: Seq<char>| goes_on(body, id) || leaves(start.edges, id) || leaves(
        back,
        id,
    ) implies #[trigger] goes_on(drawn, id) by {
        lemma_leaves_concat(start.edges, body.edges, id);
        lemma_leaves_concat(body.jumps, back, id);
        if is_open(body.exits, id) {
            match update {
                Some(u) => {
                    lemma_jumped(body.exits, u, next, id);
                    lemma_last_leaves(
                        jumps_from(body.exits, u, next),
                        jump(u, header, ""@, next + body.exits.len()),
                        id,
                    );
                },
                None => {
                    lemma_jumped(body.exits, header, next, id);
                },
            }
        }
        lemma_last_leaves(body.jumps + back, out, id);
    }
    assert(goes_on(drawn, header));
    assert forall|id: Seq<char>| goes_on(start, id) implies #[trigger] goes_on(drawn, id) by {
        if is_open(start.exits, id) {
            assert(id == header);
        }
    }
    assert(drawn.exits[0].node_id == sink);
    assert(is_open(drawn.exits, sink));
    assert forall|i: int| 0 <= i < drawn.nodes.len() implies stops(
        (#[trigger] drawn.nodes[i]).kind,
    ) || goes_on(drawn, drawn.nodes[i].id) by {
        let s = start.nodes.len();
        if i < s {
            assert(drawn.nodes[i] == start.nodes[i]);
        } else if i == s {
        } else if i < head.nodes.len() {
            let u = node_id(h + 2);
            assert(drawn.nodes[i] == for_update(node, code, h + 2)[0]);
            lemma_last_leaves(
                jumps_from(body.exits, u, next),
                jump(u, header, ""@, next + body.exits.len()),
                u,
            );
        } else {
            assert(drawn.nodes[i] == body.nodes[i - head.nodes.len()]);
        }
    }
}

/// As [`law_statement_carries_on`], of a `do`.
proof fn lemma_do_carries_on(
    node: Syntax,
    code: Seq<char>,
    n: nat,
    m: nat,
    entry: Seq<PathView>,
)
    requires
        complete_if_any(node.body, code, true),
        body_start(node.body, code, 0) is Some,
    ensures
        carries_on(do_statement(node, code, n, m, entry), entry),
    decreases node, 0nat,
{
    let drawn = do_statement(node, code, n, m, entry);
    let (sink, header) = (node_id(n), node_id(n + 1));
    let around = ContextView { header_id: header, break_sink_id: sink };
    let body = optional_statement(node.body, code, n + 2, m, entry, Some(around));
    let again = n + 2 + body.nodes.len();
    let next = m + body.jumps.len();
    lemma_optional_carries_on(node.body, code, n + 2, m, entry, Some(around));
    let turns = seq![
        jump(header, node_id(again), "Yes"@, next),
        jump(header, sink, "No"@, next + 1),
    ];
    assert(turns[0].source == header);
    assert(leaves(turns, header));
    lemma_leaves_concat(body.jumps, turns, header);
    let back = path_edges(body.exits, header);
    let repeat = repeat_edges(body_start(node.body, code, n), again);
    assert(repeat[0].source == node_id(again));
    assert(leaves(repeat, node_id(again)));
    lemma_leaves_concat(body.edges + back, repeat, node_id(again));
    assert(drawn.exits[0].node_id == sink);
    assert(is_open(drawn.exits, sink));
    assert forall|id: Seq<char>| goes_on(body, id) implies #[trigger] goes_on(drawn, id) by {
        if is_open(body.exits, id) {
            lemma_connected(body.exits, header, id);
        }
        lemma_leaves_concat(body.edges, back, id);
        lemma_leaves_concat(body.edges + back, repeat, id);
        lemma_leaves_concat(body.jumps, turns, id);
    }
    assert forall|i: int| 0 <= i < drawn.nodes.len() implies stops(
        (#[trigger] drawn.nodes[i]).kind,
    ) || goes_on(drawn, drawn.nodes[i].id) by {
        if 2 <= i < 2 + body.nodes.len() {
            assert(drawn.nodes[i] == body.nodes[i - 2]);
        }
    }
}

/// As [`law_statement_carries_on`], of the cases of a `switch`: control goes on
/// from the decision once there is a `case`.
proof fn lemma_cases_carry_on(
    nodes: Seq<Syntax>,
    k: nat,
    code: Seq<char>,
    n: nat,
    m: nat,
    switch: Seq<char>,
    around: ContextView,
)
    requires
        complete_cases(nodes, code),
        k <= nodes.len(),
    ensures
        ({
            let drawn = cases(nodes, k, code, n, m, switch, around);
            &&& carries_on(drawn, seq![])
            &&& has_case(nodes, k) ==> goes_on(drawn, switch)
            &&& drawn.exits.len() == 0
        }),
    decreases nodes, k,
{
    if k > 0 {
        let drawn = cases(nodes, k, code, n, m, switch, around);
        let before = cases(nodes, (k - 1) as nat, code, n, m, switch, around);
        let case = nodes[k - 1];
        lemma_cases_carry_on(nodes, (k - 1) as nat, code, n, m, switch, around);
        if case.kind == "case_statement"@ {
            let entry = seq![labelled_path(switch, case_label(case, code))];
            let sink = around.break_sink_id;
            let (n_now, m_now) = (n + before.nodes.len(), m + before.jumps.len());
            let len = case.children.len();
            let tokens = Omitted::CaseTokens;
            let body = sequence(
                case.children,
                len,
                tokens,
                code,
                n_now,
                m_now,
                entry,
                Some(around),
            );
            lemma_sequence_carries_on(
                case.children,
                len,
                tokens,
                code,
                n_now,
                m_now,
                entry,
                Some(around),
            );
            let m_out = m_now + body.jumps.len();
            let out = jumps_from(body.exits, sink, m_out);
            assert forall|id: Seq<char>| goes_on(before, id) || goes_on(body, id) implies #[trigger]
                goes_on(drawn, id) by {
                lemma_leaves_concat(before.edges, body.edges, id);
                lemma_leaves_concat(before.jumps, body.jumps, id);
                lemma_leaves_concat(before.jumps + body.jumps, out, id);
                if is_open(body.exits, id) {
                    lemma_jumped(body.exits, sink, m_out, id);
                }
            }
            assert(goes_on(body, entry[0].node_id));
            assert forall|i: int| 0 <= i < drawn.nodes.len() implies stops(
                (#[trigger] drawn.nodes[i]).kind,
            ) || goes_on(drawn, drawn.nodes[i].id) by {
                if i < before.nodes.len() {
                    assert(drawn.nodes[i] == before.nodes[i]);
                } else {
                    assert(drawn.nodes[i] == body.nodes[i - before.nodes.len()]);
                }
            }
        } else if has_case(nodes, k) {
            let i = choose|i: int|
                0 <= i < k && i < nodes.len() && #[trigger] nodes[i].kind == "case_statement"@;
            assert(has_case(nodes, (k - 1) as nat));
        }
    }
}

/// As [`law_statement_carries_on`], of a `switch`.
proof fn lemma_switch_carries_on(
    node: Syntax,
    code: Seq<char>,
    n: nat,
    m: nat,
    entry: Seq<PathView>,
    context: Option<ContextView>,
)
    requires
        node.body is Some,
        has_case(node.body->0.children, node.body->0.children.len()),
        complete_cases(node.body->0.children, code),
    ensures
        carries_on(switch_statement(node, code, n, m, entry, context), entry),
    decreases node, 0nat,
{
    let drawn = switch_statement(node, code, n, m, entry, context);
    let (switch, sink) = (node_id(n), node_id(n + 1));
    let around = switch_context(context, switch, sink);
    let label = "switch ("@ + text_of(*node.value->0, code) + ")"@;
    let head = draw_node(n, label, "decision"@, entry);
    let list = node.body->0.children;
    let inner = cases(list, list.len(), code, n + 2, m, switch, around);
    lemma_cases_carry_on(list, list.len(), code, n + 2, m, switch, around);
    assert forall|id: Seq<char>| goes_on(inner, id) || leaves(head.edges, id) implies #[trigger]
        goes_on(drawn, id) by {
        lemma_leaves_concat(head.edges, inner.edges, id);
    }
    assert(drawn.exits[0].node_id == sink);
    assert(is_open(drawn.exits, sink));
    assert forall|i: int| 0 <= i < drawn.nodes.len() implies stops(
        (#[trigger] drawn.nodes[i]).kind,
    ) || goes_on(drawn, drawn.nodes[i].id) by {
        if i >= 2 {
            assert(drawn.nodes[i] == inner.nodes[i - 2]);
        }
    }
    assert forall|i: int| 0 <= i < entry.len() implies goes_on(
        drawn,
        (#[trigger] entry[i]).node_id,
    ) by {
        lemma_connected(entry, switch, entry[i].node_id);
    }
}

/// As [`law_statement_carries_on`], of the bodies of a function.
proof fn lemma_bodies_carry_on(
    parts: Seq<Syntax>,
    k: nat,
    code: Seq<char>,
    n: nat,
    m: nat,
    entry: Seq<PathView>,
)
    requires
        forall|j: int|
            0 <= j < parts.len() && (#[trigger] parts[j]).kind == "compound_statement"@
                ==> complete_list(parts[j].children, Omitted::Nothing, code, false),
    ensures
        carries_on(bodies(parts, k, code, n, m, entry), entry),
    decreases k,
{
    if 0 < k <= parts.len() {
        let before = bodies(parts, (k - 1) as nat, code, n, m, entry);
        let part = parts[k - 1];
        lemma_bodies_carry_on(parts, (k - 1) as nat, code, n, m, entry);
        if part.kind == "compound_statement"@ {
            let (n_now, m_now) = (n + before.nodes.len(), m + before.jumps.len());
            let (list, none) = (part.children, Omitted::Nothing);
            let len = list.len();
            let now = sequence(list, len, none, code, n_now, m_now, before.exits, None);
            lemma_sequence_carries_on(list, len, none, code, n_now, m_now, before.exits, None);
            lemma_then_carries_on(before, now, entry);
        }
    }
}

/// As [`law_statement_carries_on`], of the functions of a program.
proof fn lemma_functions_carry_on(
    root: Syntax,
    k: nat,
    code: Seq<char>,
    entry: Seq<PathView>,
)
    requires
        complete_program(root, code),
    ensures
        carries_on(functions(root.children, k, code, 0, 0, entry), entry),
    decreases k,
{
    let nodes = root.children;
    if 0 < k <= nodes.len() {
        let before = functions(nodes, (k - 1) as nat, code, 0, 0, entry);
        let parts = nodes[k - 1].children;
        lemma_functions_carry_on(root, (k - 1) as nat, code, entry);
        if nodes[k - 1].kind == "function_definition"@ {
            let (n_now, m_now) = (before.nodes.len(), before.jumps.len());
            assert forall|j: int|
                0 <= j < parts.len() && (#[trigger] parts[j]).kind
                    == "compound_statement"@ implies complete_list(
                parts[j].children,
                Omitted::Nothing,
                code,
                false,
            ) by {
                assert(root.children[k - 1].children[j].kind == "compound_statement"@);
            }
            let now = bodies(parts, parts.len(), code, n_now, m_now, before.exits);
            lemma_bodies_carry_on(parts, parts.len(), code, n_now, m_now, before.exits);
            lemma_then_carries_on(before, now, entry);
        }
    }
}

/// In the flowchart of a complete program an edge leaves the start and every
/// node but returns and the end, which is the last one.
pub proof fn law_chart_carries_on(root: Syntax, code: Seq<char>)
    requires
        complete_program(root, code),
    ensures
        ({
            let c = chart(root, code);
            &&& leaves(c.edges, "start"@)
            &&& forall|i: int|
                0 <= i < c.nodes.len() - 1 ==> stops((#[trigger] c.nodes[i]).kind) || leaves(
                    c.edges,
                    c.nodes[i].id,
                )
        }),
{
    let c = chart(root, code);
    let drawn = program(root, code);
    let entry = seq![plain_path("start"@)];
    let ends = drawn.exits.map_values(|p: PathView| end_edge(p));
    lemma_functions_carry_on(root, root.children.len(), code, entry);
    assert forall|id: Seq<char>| #[trigger] goes_on(drawn, id) implies leaves(c.edges, id) by {
        if is_open(drawn.exits, id) {
            let i = choose|i: int|
                0 <= i < drawn.exits.len() && (#[trigger] drawn.exits[i]).node_id == id;
            assert(ends[i].source == id);
        }
        lemma_leaves_concat(drawn.edges, ends, id);
        lemma_leaves_concat(drawn.edges + ends, drawn.jumps, id);
    }
    assert(goes_on(drawn, entry[0].node_id));
    assert forall|i: int| 0 <= i < c.nodes.len() - 1 implies stops((#[trigger] c.nodes[i]).kind)
        || leaves(c.edges, c.nodes[i].id) by {
        assert(c.nodes[i] == drawn.nodes[i]);
    }
}

} // verus!
