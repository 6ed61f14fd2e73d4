//! Laws on the ids of nodes and jumps.
use crate::flow::{
    body_start, case_label, cases, condition_text, connector, do_statement, draw_node,
    for_back_jumps, for_decision, for_head, for_statement, grown, if_statement, labelled_path,
    optional_statement, pass, plain_path, repeat_edges, sequence, statement, switch_context,
    switch_statement, text_of, while_statement, Fragment, Omitted,
};
use crate::flowchart::{bodies, chart, end_edge, functions, program};
use crate::graph::{
    jump, jumps_from, node_id, path_edge, path_edges, with_edges, with_id, with_jump, with_jumps,
    with_node, ContextView, GraphView, NodeView, PathView,
};
use crate::syntax::Syntax;
use crate::text::decimal;
use vstd::prelude::*;

verus! {

/// Whether the ids of a fragment tell what they are the ids of: the nodes are
/// numbered from `n` on, the jumps from `m` on, and an edge is named after its
/// ends.
pub open spec fn numbered(f: Fragment, n: nat, m: nat) -> bool {
    &&& forall|i: int|
        0 <= i < f.nodes.len() ==> (#[trigger] f.nodes[i]).id == node_id(n + i as nat)
    &&& forall|i: int|
        0 <= i < f.jumps.len() ==> #[trigger] f.jumps[i] == jump(
            f.jumps[i].source,
            f.jumps[i].target,
            f.jumps[i].label,
            m + i as nat,
        )
    &&& forall|i: int|
        0 <= i < f.edges.len() ==> #[trigger] f.edges[i] == path_edge(
            labelled_path(f.edges[i].source, f.edges[i].label),
            f.edges[i].target,
        )
}

/// The nodes that a statement adds bear the ids that follow the number `n`, in
/// order, its jumps the numbers that follow `m`, and its edges are named after
/// their ends.
pub proof fn law_statement_numbered(
    node: Syntax,
    code: Seq<char>,
    n: nat,
    m: nat,
    entry: Seq<PathView>,
    context: Option<ContextView>,
)
    ensures
        numbered(statement(node, code, n, m, entry, context), n, m),
    decreases node, 1nat,
{
    if node.kind == "compound_statement"@ || node.kind == "else_clause"@ {
        let k = node.children.len();
        lemma_sequence_numbered(node.children, k, Omitted::Nothing, code, n, m, entry, context);
        lemma_sequence_numbered(node.children, k, Omitted::ElseTokens, code, n, m, entry, context);
    } else if node.kind == "if_statement"@ {
        lemma_if_numbered(node, code, n, m, entry, context);
    } else if node.kind == "while_statement"@ {
        lemma_while_numbered(node, code, n, m, entry);
    } else if node.kind == "for_statement"@ {
        lemma_for_numbered(node, code, n, m, entry);
    } else if node.kind == "do_statement"@ {
        lemma_do_numbered(node, code, n, m, entry);
    } else if node.kind == "switch_statement"@ {
        lemma_switch_numbered(node, code, n, m, entry, context);
    }
}

/// Fragments drawn one after another stay numbered.
proof fn lemma_then_numbered(f: Fragment, g: Fragment, n: nat, m: nat)
    requires
        numbered(f, n, m),
        numbered(g, n + f.nodes.len(), m + f.jumps.len()),
    ensures
        numbered(f.then_draw(g), n, m),
{
    let h = f.then_draw(g);
    assert forall|i: int| 0 <= i < h.nodes.len() implies (#[trigger] h.nodes[i]).id == node_id(
        n + i as nat,
    ) by {
        if i >= f.nodes.len() {
            let j = i - f.nodes.len();
            assert(h.nodes[i] == g.nodes[j]);
            assert(g.nodes[j].id == node_id(n + f.nodes.len() + j as nat));
        }
    }
    assert forall|i: int| 0 <= i < h.jumps.len() implies #[trigger] h.jumps[i] == jump(
        h.jumps[i].source,
        h.jumps[i].target,
        h.jumps[i].label,
        m + i as nat,
    ) by {
        if i >= f.jumps.len() {
            let j = i - f.jumps.len();
            assert(h.jumps[i] == g.jumps[j]);
        }
    }
    assert forall|i: int| 0 <= i < h.edges.len() implies #[trigger] h.edges[i] == path_edge(
        labelled_path(h.edges[i].source, h.edges[i].label),
        h.edges[i].target,
    ) by {
        if i >= f.edges.len() {
            let j = i - f.edges.len();
            assert(h.edges[i] == g.edges[j]);
        }
    }
}

/// As [`law_statement_numbered`], of an `if`.
proof fn lemma_if_numbered(
    node: Syntax,
    code: Seq<char>,
    n: nat,
    m: nat,
    entry: Seq<PathView>,
    context: Option<ContextView>,
)
    ensures
        numbered(if_statement(node, code, n, m, entry, context), n, m),
    decreases node, 0nat,
{
    let head = draw_node(n, condition_text(node.condition, code), "decision"@, entry);
    let open_yes = seq![labelled_path(node_id(n), "Yes"@)];
    let open_no = seq![labelled_path(node_id(n), "No"@)];
    let yes = optional_statement(node.consequence, code, n + 1, m, open_yes, context);
    let n_no = n + 1 + yes.nodes.len();
    let m_no = m + yes.jumps.len();
    lemma_optional_numbered(node.consequence, code, n + 1, m, open_yes, context);
    lemma_then_numbered(head, yes, n, m);
    match node.alternative {
        Some(s) => {
            law_statement_numbered(*s, code, n_no, m_no, open_no, context);
            lemma_then_numbered(
                head.then_draw(yes),
                statement(*s, code, n_no, m_no, open_no, context),
                n,
                m,
            );
        },
        None => {
            lemma_then_numbered(head.then_draw(yes), pass(open_no), n, m);
        },
    }
}

/// As [`law_statement_numbered`], of a `while`.
proof fn lemma_while_numbered(
    node: Syntax,
    code: Seq<char>,
    n: nat,
    m: nat,
    entry: Seq<PathView>,
)
    ensures
        numbered(while_statement(node, code, n, m, entry), n, m),
    decreases node, 0nat,
{
    let drawn = while_statement(node, code, n, m, entry);
    let head = draw_node(n, condition_text(node.condition, code), "decision"@, entry);
    let both = Fragment { nodes: head.nodes.push(connector(n + 1)), ..head };
    let inner = ContextView { header_id: node_id(n), break_sink_id: node_id(n + 1) };
    let open_yes = seq![labelled_path(node_id(n), "Yes"@)];
    let body = optional_statement(node.body, code, n + 2, m, open_yes, Some(inner));
    let back = jumps_from(body.exits, node_id(n), m + body.jumps.len());
    let out = jump(node_id(n), node_id(n + 1), "No"@, m + body.jumps.len() + back.len());
    let tail = Fragment { jumps: back.push(out), ..pass(Seq::empty()) };
    lemma_optional_numbered(node.body, code, n + 2, m, open_yes, Some(inner));
    lemma_then_numbered(both, body, n, m);
    lemma_then_numbered(both.then_draw(body), tail, n, m);
    assert(both.then_draw(body).then_draw(tail).nodes == drawn.nodes);
    assert(both.then_draw(body).then_draw(tail).jumps == drawn.jumps);
    assert(both.then_draw(body).then_draw(tail).edges == drawn.edges);
}

/// As [`law_statement_numbered`], of a `for`.
proof fn lemma_for_numbered(
    node: Syntax,
    code: Seq<char>,
    n: nat,
    m: nat,
    entry: Seq<PathView>,
)
    ensures
        numbered(for_statement(node, code, n, m, entry), n, m),
    decreases node, 0nat,
{
    let drawn = for_statement(node, code, n, m, entry);
    let head = for_head(node, code, n, entry);
    let h = for_decision(node, code, n, entry);
    let inner = ContextView { header_id: node_id(h), break_sink_id: node_id(h + 1) };
    let body = optional_statement(
        node.body,
        code,
        n + head.nodes.len(),
        m,
        head.exits,
        Some(inner),
    );
    let next = m + body.jumps.len();
    let update = if node.update is Some {
        Some(node_id(h + 2))
    } else {
        None
    };
    let back = for_back_jumps(node.body is Some, update, node_id(h), body.exits, next);
    let out = jump(node_id(h), node_id(h + 1), "No"@, next + back.len());
    let tail = Fragment { jumps: back.push(out), ..pass(Seq::empty()) };
    lemma_optional_numbered(
        node.body,
        code,
        n + head.nodes.len(),
        m,
        head.exits,
        Some(inner),
    );
    assert(numbered(head, n, m));
    lemma_then_numbered(head, body, n, m);
    assert(numbered(tail, n + head.nodes.len() + body.nodes.len(), next));
    lemma_then_numbered(head.then_draw(body), tail, n, m);
    assert(head.then_draw(body).then_draw(tail).nodes == drawn.nodes);
    assert(head.then_draw(body).then_draw(tail).jumps == drawn.jumps);
    assert(head.then_draw(body).then_draw(tail).edges == drawn.edges);
}

/// As [`law_statement_numbered`], of a `do`.
proof fn lemma_do_numbered(
    node: Syntax,
    code: Seq<char>,
    n: nat,
    m: nat,
    entry: Seq<PathView>,
)
    ensures
        numbered(do_statement(node, code, n, m, entry), n, m),
    decreases node, 0nat,
{
    let drawn = do_statement(node, code, n, m, entry);
    let decision = NodeView {
        id: node_id(n + 1),
        label: condition_text(node.condition, code),
        kind: "decision"@,
    };
    let head = Fragment { nodes: seq![connector(n), decision], ..pass(entry) };
    let inner = ContextView { header_id: node_id(n + 1), break_sink_id: node_id(n) };
    let body = optional_statement(node.body, code, n + 2, m, entry, Some(inner));
    let again = n + 2 + body.nodes.len();
    let next = m + body.jumps.len();
    let tail = Fragment {
        nodes: seq![connector(again)],
        jumps: seq![
            jump(node_id(n + 1), node_id(again), "Yes"@, next),
            jump(node_id(n + 1), node_id(n), "No"@, next + 1),
        ],
        edges: path_edges(body.exits, node_id(n + 1)) + repeat_edges(
            body_start(node.body, code, n),
            again,
        ),
        ..pass(Seq::empty())
    };
    lemma_optional_numbered(node.body, code, n + 2, m, entry, Some(inner));
    lemma_then_numbered(head, body, n, m);
    lemma_then_numbered(head.then_draw(body), tail, n, m);
    assert(head.then_draw(body).then_draw(tail).nodes == drawn.nodes);
    assert(head.then_draw(body).then_draw(tail).jumps == drawn.jumps);
    assert(head.then_draw(body).then_draw(tail).edges == drawn.edges);
}

/// As [`law_statement_numbered`], of a `switch`.
proof fn lemma_switch_numbered(
    node: Syntax,
    code: Seq<char>,
    n: nat,
    m: nat,
    entry: Seq<PathView>,
    context: Option<ContextView>,
)
    ensures
        numbered(switch_statement(node, code, n, m, entry, context), n, m),
    decreases node, 0nat,
{
    let drawn = switch_statement(node, code, n, m, entry, context);
    let label = "switch ("@ + text_of(*node.value->0, code) + ")"@;
    let head = draw_node(n, label, "decision"@, entry);
    let both = Fragment { nodes: head.nodes.push(connector(n + 1)), ..head };
    let around = switch_context(context, node_id(n), node_id(n + 1));
    let inner = match node.body {
        Some(b) => cases(
            b.children,
            b.children.len(),
            code,
            n + 2,
            m,
            node_id(n),
            around,
        ),
        None => pass(Seq::empty()),
    };
    if let Some(b) = node.body {
        lemma_cases_numbered(
            b.children,
            b.children.len(),
            code,
            n + 2,
            m,
            node_id(n),
            around,
        );
    }
    lemma_then_numbered(both, inner, n, m);
    assert(both.then_draw(inner).nodes == drawn.nodes);
    assert(both.then_draw(inner).jumps == drawn.jumps);
    assert(both.then_draw(inner).edges == drawn.edges);
}

/// As [`law_statement_numbered`], of a statement that may be missing.
proof fn lemma_optional_numbered(
    node: Option<Box<Syntax>>,
    code: Seq<char>,
    n: nat,
    m: nat,
    entry: Seq<PathView>,
    context: Option<ContextView>,
)
    ensures
        numbered(optional_statement(node, code, n, m, entry, context), n, m),
    decreases node, 2nat,
{
    if let Some(s) = node {
        law_statement_numbered(*s, code, n, m, entry, context);
    }
}

/// As [`law_statement_numbered`], of a list of statements.
proof fn lemma_sequence_numbered(
    nodes: Seq<Syntax>,
    k: nat,
    omitted: Omitted,
    code: Seq<char>,
    n: nat,
    m: nat,
    entry: Seq<PathView>,
    context: Option<ContextView>,
)
    ensures
        numbered(sequence(nodes, k, omitted, code, n, m, entry, context), n, m),
    decreases nodes, k,
{
    if 0 < k <= nodes.len() {
        let before = sequence(nodes, (k - 1) as nat, omitted, code, n, m, entry, context);
        lemma_sequence_numbered(nodes, (k - 1) as nat, omitted, code, n, m, entry, context);
        let (n_now, m_now) = (n + before.nodes.len(), m + before.jumps.len());
        law_statement_numbered(nodes[k - 1], code, n_now, m_now, before.exits, context);
        lemma_then_numbered(
            before,
            statement(nodes[k - 1], code, n_now, m_now, before.exits, context),
            n,
            m,
        );
    }
}

/// As [`law_statement_numbered`], of the cases of a `switch`.
proof fn lemma_cases_numbered(
    nodes: Seq<Syntax>,
    k: nat,
    code: Seq<char>,
    n: nat,
    m: nat,
    switch: Seq<char>,
    around: ContextView,
)
    ensures
        numbered(cases(nodes, k, code, n, m, switch, around), n, m),
    decreases nodes, k,
{
    if 0 < k <= nodes.len() {
        let before = cases(nodes, (k - 1) as nat, code, n, m, switch, around);
        let case = nodes[k - 1];
        lemma_cases_numbered(nodes, (k - 1) as nat, code, n, m, switch, around);
        lemma_sequence_numbered(
            case.children,
            case.children.len(),
            Omitted::CaseTokens,
            code,
            n + before.nodes.len(),
            m + before.jumps.len(),
            seq![labelled_path(switch, case_label(case, code))],
            Some(around),
        );
    }
}

/// As [`law_statement_numbered`], of the bodies of a function.
proof fn lemma_bodies_numbered(
    parts: Seq<Syntax>,
    k: nat,
    code: Seq<char>,
    n: nat,
    m: nat,
    entry: Seq<PathView>,
)
    ensures
        numbered(bodies(parts, k, code, n, m, entry), n, m),
    decreases k,
{
    if 0 < k <= parts.len() {
        let before = bodies(parts, (k - 1) as nat, code, n, m, entry);
        let part = parts[k - 1];
        lemma_bodies_numbered(parts, (k - 1) as nat, code, n, m, entry);
        lemma_sequence_numbered(
            part.children,
            part.children.len(),
            Omitted::Nothing,
            code,
            n + before.nodes.len(),
            m + before.jumps.len(),
            before.exits,
            None,
        );
    }
}

/// As [`law_statement_numbered`], of the functions of a program.
proof fn lemma_functions_numbered(
    nodes: Seq<Syntax>,
    k: nat,
    code: Seq<char>,
    n: nat,
    m: nat,
    entry: Seq<PathView>,
)
    ensures
        numbered(functions(nodes, k, code, n, m, entry), n, m),
    decreases k,
{
    if 0 < k <= nodes.len() {
        let before = functions(nodes, (k - 1) as nat, code, n, m, entry);
        let node = nodes[k - 1];
        lemma_functions_numbered(nodes, (k - 1) as nat, code, n, m, entry);
        lemma_bodies_numbered(
            node.children,
            node.children.len(),
            code,
            n + before.nodes.len(),
            m + before.jumps.len(),
            before.exits,
        );
    }
}

/// The nodes and jumps that a program adds are numbered from zero on, and its
/// edges are named after their ends.
pub proof fn law_program_numbered(root: Syntax, code: Seq<char>)
    ensures
        numbered(program(root, code), 0, 0),
{
    lemma_functions_numbered(
        root.children,
        root.children.len(),
        code,
        0,
        0,
        seq![plain_path("start"@)],
    );
}

/// The numerals of two different numbers differ.
pub proof fn law_decimals_differ(a: nat, b: nat)
    requires
        a != b,
    ensures
        decimal(a) != decimal(b),
    decreases a,
{
    if a < 10 && b < 10 {
        assert(decimal(a)[0] != decimal(b)[0]);
    } else if a < 10 {
        lemma_decimal_is_digits(b / 10);
        assert(decimal(a).len() == 1);
        assert(decimal(b).len() >= 2);
    } else if b < 10 {
        lemma_decimal_is_digits(a / 10);
        assert(decimal(b).len() == 1);
        assert(decimal(a).len() >= 2);
    } else if a % 10 != b % 10 {
        assert(decimal(a).last() != decimal(b).last());
    } else {
        law_decimals_differ(a / 10, b / 10);
        assert(decimal(a).drop_last() == decimal(a / 10));
        assert(decimal(b).drop_last() == decimal(b / 10));
    }
}

/// A numeral is not empty and holds no hyphen.
proof fn lemma_decimal_is_digits(n: nat)
    ensures
        decimal(n).len() >= 1,
        forall|i: int| 0 <= i < decimal(n).len() ==> #[trigger] decimal(n)[i] != '-',
    decreases n,
{
    if n >= 10 {
        lemma_decimal_is_digits(n / 10);
    }
}

/// Two different numbers give different node ids.
pub proof fn law_node_ids_differ(a: nat, b: nat)
    requires
        a != b,
    ensures
        node_id(a) != node_id(b),
{
    law_decimals_differ(a, b);
    let p = "node-"@.len() as int;
    assert(node_id(a).skip(p) == decimal(a));
    assert(node_id(b).skip(p) == decimal(b));
}

/// A node id begins as no other id of a flowchart does: it is neither `start`
/// nor `end`.
pub proof fn law_node_id_is_neither_start_nor_end(n: nat)
    ensures
        node_id(n) != "start"@,
        node_id(n) != "end"@,
{
    reveal_strlit("node-");
    reveal_strlit("start");
    reveal_strlit("end");
    assert(node_id(n)[0] == 'n');
    assert("start"@[0] == 's');
    assert("end"@[0] == 'e');
}

/// Jumps of different numbers have different ids, whatever they join.
pub proof fn law_jump_ids_differ(
    source1: Seq<char>,
    target1: Seq<char>,
    label1: Seq<char>,
    m1: nat,
    source2: Seq<char>,
    target2: Seq<char>,
    label2: Seq<char>,
    m2: nat,
)
    requires
        m1 != m2,
    ensures
        jump(source1, target1, label1, m1).id != jump(source2, target2, label2, m2).id,
{
    reveal_strlit("-");
    let front1 = "x-"@ + source1 + "-"@ + target1;
    let front2 = "x-"@ + source2 + "-"@ + target2;
    let id1 = front1 + "-"@ + decimal(m1);
    let id2 = front2 + "-"@ + decimal(m2);
    let (d1, d2) = (decimal(m1), decimal(m2));
    if id1 == id2 {
        lemma_decimal_is_digits(m1);
        lemma_decimal_is_digits(m2);
        law_decimals_differ(m1, m2);
        let len = id1.len() as int;
        if d1.len() < d2.len() {
            let at = len - 1 - d1.len();
            assert(id1[at] == '-');
            assert(id2[at] == d2[at - (len - d2.len())]);
            assert(false);
        } else if d2.len() < d1.len() {
            let at = len - 1 - d2.len();
            assert(id2[at] == '-');
            assert(id1[at] == d1[at - (len - d1.len())]);
            assert(false);
        } else {
            assert(id1.skip(len - d1.len()) == d1);
            assert(id2.skip(len - d2.len()) == d2);
        }
    }
}

/// No two nodes of a flowchart have the same id, and no node has the id `start`
/// from which the flowchart is entered.
pub proof fn law_chart_node_ids_distinct(root: Syntax, code: Seq<char>)
    ensures
        ({
            let nodes = chart(root, code).nodes;
            &&& forall|i: int, j: int|
                0 <= i < j < nodes.len() ==> (#[trigger] nodes[i]).id != (#[trigger] nodes[j]).id
            &&& forall|i: int| 0 <= i < nodes.len() ==> (#[trigger] nodes[i]).id != "start"@
        }),
{
    let nodes = chart(root, code).nodes;
    let drawn = program(root, code);
    law_program_numbered(root, code);
    reveal_strlit("start");
    reveal_strlit("end");
    assert forall|i: int, j: int| 0 <= i < j < nodes.len() implies (#[trigger] nodes[i]).id != (
    #[trigger] nodes[j]).id by {
        assert(nodes[i] == drawn.nodes[i]);
        if j < drawn.nodes.len() {
            assert(nodes[j] == drawn.nodes[j]);
            law_node_ids_differ(i as nat, j as nat);
        } else {
            law_node_id_is_neither_start_nor_end(i as nat);
        }
    }
    assert forall|i: int| 0 <= i < nodes.len() implies (#[trigger] nodes[i]).id != "start"@ by {
        if i < drawn.nodes.len() {
            assert(nodes[i] == drawn.nodes[i]);
            law_node_id_is_neither_start_nor_end(i as nat);
        } else {
            assert("start"@.len() != "end"@.len());
        }
    }
}

/// In a flowchart the jumps come last, and the id of a jump is that of no other
/// edge.
pub proof fn law_chart_jump_ids_distinct(root: Syntax, code: Seq<char>)
    ensures
        ({
            let edges = chart(root, code).edges;
            let jumps = program(root, code).jumps;
            let first = edges.len() - jumps.len();
            &&& 0 <= first
            &&& edges.skip(first) == jumps
            &&& forall|i: int, j: int|
                first <= i < edges.len() && 0 <= j < edges.len() && i != j ==> (
                #[trigger] edges[i]).id != (#[trigger] edges[j]).id
        }),
{
    let edges = chart(root, code).edges;
    let drawn = program(root, code);
    let first = edges.len() - drawn.jumps.len();
    law_program_numbered(root, code);
    reveal_strlit("e-");
    reveal_strlit("x-");
    assert(edges.skip(first) == drawn.jumps);
    assert forall|i: int, j: int|
        first <= i < edges.len() && 0 <= j < edges.len() && i != j implies (#[trigger] edges[i]).id
        != (#[trigger] edges[j]).id by {
        let a = drawn.jumps[i - first];
        assert(edges[i] == a);
        assert(a.id[0] == 'x');
        if j >= first {
            let b = drawn.jumps[j - first];
            assert(edges[j] == b);
            law_jump_ids_differ(
                a.source,
                a.target,
                a.label,
                (i - first) as nat,
                b.source,
                b.target,
                b.label,
                (j - first) as nat,
            );
        } else if j < drawn.edges.len() {
            assert(edges[j] == drawn.edges[j]);
            assert(edges[j].id[0] == 'e');
        } else {
            assert(edges[j] == end_edge(drawn.exits[j - drawn.edges.len()]));
            assert(edges[j].id[0] == 'e');
        }
    }
}

/// A call of a [`GraphBuilder`](crate::graph::GraphBuilder).
pub enum Call {
    /// `next_id`.
    NextId,
    /// `add_node`.
    AddNode { label: Seq<char>, kind: Seq<char> },
    /// `connect_paths`.
    ConnectPaths { from: Seq<PathView>, to: Seq<char> },
    /// `add_extra_edge`.
    AddExtraEdge { source: Seq<char>, target: Seq<char>, label: Seq<char> },
    /// `jump_paths`.
    JumpPaths { from: Seq<PathView>, target: Seq<char> },
    /// `clean_condition`.
    CleanCondition,
    /// `process_statement`, `process_if`, `process_while`, `process_for`,
    /// `process_do_while` or `process_switch`.
    Process(Fragment),
}

/// The builder after a call.
pub open spec fn after_call(graph: GraphView, call: Call) -> GraphView {
    match call {
        Call::NextId => with_id(graph),
        Call::AddNode { label, kind } => with_node(graph, label, kind),
        Call::ConnectPaths { from, to } => with_edges(graph, from, to),
        Call::AddExtraEdge { source, target, label } => with_jump(graph, source, target, label),
        Call::JumpPaths { from, target } => with_jumps(graph, from, target),
        Call::CleanCondition => graph,
        Call::Process(fragment) => grown(graph, fragment),
    }
}

/// The builder after the first `k` of a sequence of calls.
pub open spec fn after_calls(graph: GraphView, calls: Seq<Call>, k: nat) -> GraphView
    decreases k,
{
    if k == 0 || k > calls.len() {
        graph
    } else {
        after_call(after_calls(graph, calls, (k - 1) as nat), calls[k - 1])
    }
}

/// Whether a call hands out the id `id`: `next_id` and `add_node` return the one
/// they draw, and the nodes of what is drawn bear theirs.
pub open spec fn hands_out(graph: GraphView, call: Call, id: Seq<char>) -> bool {
    exists|k: nat|
        graph.id_counter <= k < after_call(graph, call).id_counter && id == #[trigger] node_id(k)
}

/// `next_id` and `add_node` hand out the id of the counter.
pub proof fn law_next_id_is_handed_out(graph: GraphView, label: Seq<char>, kind: Seq<char>)
    ensures
        hands_out(graph, Call::NextId, node_id(graph.id_counter)),
        hands_out(graph, Call::AddNode { label, kind }, node_id(graph.id_counter)),
        with_node(graph, label, kind).nodes.last().id == node_id(graph.id_counter),
{
}

/// A statement hands out the ids of the nodes that it adds.
pub proof fn law_node_ids_are_handed_out(
    node: Syntax,
    code: Seq<char>,
    graph: GraphView,
    entry: Seq<PathView>,
    context: Option<ContextView>,
    i: int,
)
    requires
        0 <= i < statement(
            node,
            code,
            graph.id_counter,
            graph.extra_edges.len(),
            entry,
            context,
        ).nodes.len(),
    ensures
        ({
            let (n, m) = (graph.id_counter, graph.extra_edges.len());
            let drawn = statement(node, code, n, m, entry, context);
            hands_out(graph, Call::Process(drawn), drawn.nodes[i].id)
        }),
{
    let (n, m) = (graph.id_counter, graph.extra_edges.len());
    let drawn = statement(node, code, n, m, entry, context);
    law_statement_numbered(node, code, n, m, entry, context);
    assert(drawn.nodes[i].id == node_id(n + i as nat));
}

/// Every call keeps the counter or raises it.
pub proof fn law_counter_never_falls(graph: GraphView, calls: Seq<Call>, j: nat, k: nat)
    requires
        j <= k <= calls.len(),
    ensures
        after_calls(graph, calls, j).id_counter <= after_calls(graph, calls, k).id_counter,
    decreases k,
{
    if j < k {
        law_counter_never_falls(graph, calls, j, (k - 1) as nat);
    }
}

/// No id is handed out by two calls of one builder, whatever is called between
/// them, and none is `start` or `end`.
pub proof fn law_ids_are_handed_out_once(
    graph: GraphView,
    calls: Seq<Call>,
    j: nat,
    k: nat,
    first: Seq<char>,
    second: Seq<char>,
)
    requires
        j < k < calls.len(),
        hands_out(after_calls(graph, calls, j), calls[j as int], first),
        hands_out(after_calls(graph, calls, k), calls[k as int], second),
    ensures
        first != second,
        first != "start"@,
        first != "end"@,
        second != "start"@,
        second != "end"@,
{
    let (before, later) = (after_calls(graph, calls, j), after_calls(graph, calls, k));
    let a = choose|a: nat|
        before.id_counter <= a < after_call(before, calls[j as int]).id_counter && first
            == #[trigger] node_id(a);
    let b = choose|b: nat|
        later.id_counter <= b < after_call(later, calls[k as int]).id_counter && second
            == #[trigger] node_id(b);
    assert(after_calls(graph, calls, j + 1) == after_call(before, calls[j as int]));
    law_counter_never_falls(graph, calls, j + 1, k);
    law_node_ids_differ(a, b);
    law_node_id_is_neither_start_nor_end(a);
    law_node_id_is_neither_start_nor_end(b);
}

} // verus!
