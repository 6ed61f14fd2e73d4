//! Laws on what the edges of a flowchart join.
use crate::entry::lemma_body_start;
use crate::flow::{
    body_start, case_label, cases, condition_text, do_statement, draw_node, for_back_jumps,
    for_decision, for_head, for_initializer, for_statement, if_statement, labelled_path,
    optional_statement, pass, plain_path, repeat_edges, sequence, statement, switch_context,
    switch_statement, text_of, while_statement, Fragment, Omitted,
};
use crate::flowchart::{bodies, chart, end_edge, functions, program};
use crate::graph::{
    jump, jumps_from, node_id, path_edge, path_edges, ContextView, EdgeView, NodeView, PathView,
};
use crate::numbering::law_program_numbered;
use crate::syntax::Syntax;
use vstd::prelude::*;

verus! {

/// Whether `id` is the id of one of the `k` nodes from number `n` on.
pub open spec fn is_drawn(id: Seq<char>, n: nat, k: nat) -> bool {
    exists|j: nat| n <= j < n + k && id == #[trigger] node_id(j)
}

/// Whether `id` is known from outside or the id of one of the `k` nodes from
/// number `n` on.
pub open spec fn is_known(id: Seq<char>, outside: Set<Seq<char>>, n: nat, k: nat) -> bool {
    outside.contains(id) || is_drawn(id, n, k)
}

/// What is known of the surroundings of a statement.
pub struct Outside {
    /// The ids at which open ends may lie.
    pub ends: Set<Seq<char>>,
    /// The ids to which jumps may lead.
    pub targets: Set<Seq<char>>,
}

impl Outside {
    /// The surroundings with one more node.
    pub open spec fn with(self, id: Seq<char>) -> Outside {
        Outside { ends: self.ends.insert(id), targets: self.targets.insert(id) }
    }
}

/// Whether all open ends are at known nodes.
pub open spec fn paths_known(
    paths: Seq<PathView>,
    outside: Outside,
    n: nat,
    k: nat,
) -> bool {
    forall|i: int|
        0 <= i < paths.len() ==> is_known((#[trigger] paths[i]).node_id, outside.ends, n, k)
}

/// Whether all jumps join known nodes.
pub open spec fn jumps_known(
    jumps: Seq<EdgeView>,
    outside: Outside,
    n: nat,
    k: nat,
) -> bool {
    forall|i: int|
        0 <= i < jumps.len() ==> is_known((#[trigger] jumps[i]).source, outside.ends, n, k)
            && is_known(jumps[i].target, outside.targets, n, k)
}

/// Whether all edges lead from known nodes to drawn ones.
pub open spec fn edges_known(
    edges: Seq<EdgeView>,
    outside: Outside,
    n: nat,
    k: nat,
) -> bool {
    forall|i: int|
        0 <= i < edges.len() ==> is_known((#[trigger] edges[i]).source, outside.ends, n, k)
            && is_drawn(edges[i].target, n, k)
}

/// Whether a fragment joins nothing but what is known: its edges lead to drawn
/// nodes, and all else is at drawn nodes or at those of `outside`.
pub open spec fn closed(f: Fragment, outside: Outside, n: nat, k: nat) -> bool {
    &&& edges_known(f.edges, outside, n, k)
    &&& jumps_known(f.jumps, outside, n, k)
    &&& paths_known(f.exits, outside, n, k)
}

/// Whether `outside` holds the open ends that lead into a statement and the
/// jump targets around it.
pub open spec fn covers(
    outside: Outside,
    entry: Seq<PathView>,
    context: Option<ContextView>,
) -> bool {
    &&& forall|i: int| 0 <= i < entry.len() ==> outside.ends.contains((#[trigger] entry[i]).node_id)
    &&& context matches Some(c) ==> outside.targets.contains(c.header_id)
        && outside.targets.contains(c.break_sink_id)
}

/// The ids that are known once `k` nodes from number `n` on are drawn.
pub open spec fn with_drawn(outside: Outside, n: nat, k: nat) -> Outside {
    Outside {
        ends: Set::new(|id: Seq<char>| is_known(id, outside.ends, n, k)),
        targets: outside.targets,
    }
}

/// The number `j` is among the `k` numbers from `n` on.
proof fn lemma_drawn(j: nat, n: nat, k: nat)
    requires
        n <= j < n + k,
    ensures
        is_drawn(node_id(j), n, k),
{
}

/// What is closed in a part is closed in the whole.
proof fn lemma_widen(
    f: Fragment,
    inner: Outside,
    n1: nat,
    k1: nat,
    outside: Outside,
    n: nat,
    k: nat,
)
    requires
        closed(f, inner, n1, k1),
        n <= n1,
        n1 + k1 <= n + k,
        forall|id: Seq<char>| #[trigger]
            inner.ends.contains(id) ==> is_known(id, outside.ends, n, k),
        forall|id: Seq<char>| #[trigger]
            inner.targets.contains(id) ==> is_known(id, outside.targets, n, k),
    ensures
        closed(f, outside, n, k),
{
    assert forall|id: Seq<char>| is_drawn(id, n1, k1) implies is_drawn(id, n, k) by {
        let j = choose|j: nat| n1 <= j < n1 + k1 && id == #[trigger] node_id(j);
        lemma_drawn(j, n, k);
    }
}

/// Closed fragments drawn one after another are closed.
proof fn lemma_then_closed(
    f: Fragment,
    g: Fragment,
    outside: Outside,
    n: nat,
    k: nat,
)
    requires
        closed(f, outside, n, k),
        closed(g, outside, n, k),
    ensures
        closed(f.then_draw(g), outside, n, k),
{
    let h = f.then_draw(g);
    assert forall|i: int| 0 <= i < h.edges.len() implies is_known(
        (#[trigger] h.edges[i]).source,
        outside.ends,
        n,
        k,
    ) && is_drawn(h.edges[i].target, n, k) by {
        if i >= f.edges.len() {
            assert(h.edges[i] == g.edges[i - f.edges.len()]);
        } else {
            assert(h.edges[i] == f.edges[i]);
        }
    }
    assert forall|i: int| 0 <= i < h.jumps.len() implies is_known(
        (#[trigger] h.jumps[i]).source,
        outside.ends,
        n,
        k,
    ) && is_known(h.jumps[i].target, outside.targets, n, k) by {
        if i >= f.jumps.len() {
            assert(h.jumps[i] == g.jumps[i - f.jumps.len()]);
        } else {
            assert(h.jumps[i] == f.jumps[i]);
        }
    }
}

/// A node that is reached from known open ends is closed.
proof fn lemma_draw_closed(
    n1: nat,
    label: Seq<char>,
    kind: Seq<char>,
    entry: Seq<PathView>,
    outside: Outside,
    n: nat,
    k: nat,
)
    requires
        paths_known(entry, outside, n, k),
        n <= n1 < n + k,
    ensures
        closed(draw_node(n1, label, kind, entry), outside, n, k),
{
    let f = draw_node(n1, label, kind, entry);
    lemma_drawn(n1, n, k);
    lemma_edges_closed(entry, n1, outside, n, k);
    assert(closed(f, outside, n, k));
}

/// Edges from known open ends to a drawn node are closed.
proof fn lemma_edges_closed(
    entry: Seq<PathView>,
    n1: nat,
    outside: Outside,
    n: nat,
    k: nat,
)
    requires
        paths_known(entry, outside, n, k),
        n <= n1 < n + k,
    ensures
        edges_known(path_edges(entry, node_id(n1)), outside, n, k),
{
    lemma_drawn(n1, n, k);
    let edges = path_edges(entry, node_id(n1));
    assert forall|i: int| 0 <= i < edges.len() implies is_known(
        (#[trigger] edges[i]).source,
        outside.ends,
        n,
        k,
    ) && is_drawn(edges[i].target, n, k) by {
        assert(edges[i] == path_edge(entry[i], node_id(n1)));
    }
}

/// Jumps from known open ends to a known node are closed.
proof fn lemma_jumps_closed(
    paths: Seq<PathView>,
    target: Seq<char>,
    m: nat,
    outside: Outside,
    n: nat,
    k: nat,
)
    requires
        paths_known(paths, outside, n, k),
        is_known(target, outside.targets, n, k),
    ensures
        jumps_known(jumps_from(paths, target, m), outside, n, k),
{
    let jumps = jumps_from(paths, target, m);
    assert forall|i: int| 0 <= i < jumps.len() implies is_known(
        (#[trigger] jumps[i]).source,
        outside.ends,
        n,
        k,
    ) && is_known(jumps[i].target, outside.targets, n, k) by {
        assert(is_known(paths[i].node_id, outside.ends, n, k));
    }
}

/// A statement joins nothing but its own nodes, the open ends that lead into it
/// and the jump targets of the loop around it; its edges lead to its own nodes.
pub proof fn law_statement_closed(
    node: Syntax,
    code: Seq<char>,
    n: nat,
    m: nat,
    entry: Seq<PathView>,
    context: Option<ContextView>,
    outside: Outside,
)
    requires
        covers(outside, entry, context),
    ensures
        ({
            let drawn = statement(node, code, n, m, entry, context);
            closed(drawn, outside, n, drawn.nodes.len())
        }),
    decreases node, 1nat,
{
    let drawn = statement(node, code, n, m, entry, context);
    let k = drawn.nodes.len();
    assert(paths_known(entry, outside, n, k));
    if node.kind == "compound_statement"@ || node.kind == "else_clause"@ {
        let len = node.children.len();
        lemma_sequence_closed(
            node.children,
            len,
            Omitted::Nothing,
            code,
            n,
            m,
            entry,
            context,
            outside,
        );
        lemma_sequence_closed(
            node.children,
            len,
            Omitted::ElseTokens,
            code,
            n,
            m,
            entry,
            context,
            outside,
        );
    } else if node.kind == "if_statement"@ {
        lemma_if_closed(node, code, n, m, entry, context, outside);
    } else if node.kind == "while_statement"@ {
        lemma_while_closed(node, code, n, m, entry, outside);
    } else if node.kind == "for_statement"@ {
        lemma_for_closed(node, code, n, m, entry, outside);
    } else if node.kind == "do_statement"@ {
        lemma_do_closed(node, code, n, m, entry, outside);
    } else if node.kind == "switch_statement"@ {
        lemma_switch_closed(node, code, n, m, entry, context, outside);
    }
    if k > 0 {
        lemma_draw_closed(n, text_of(node, code), node.kind, entry, outside, n, k);
        lemma_draw_closed(n, text_of(node, code), "return_statement"@, entry, outside, n, k);
    }
    if let Some(c) = context {
        lemma_jumps_closed(entry, c.break_sink_id, m, outside, n, k);
        lemma_jumps_closed(entry, c.header_id, m, outside, n, k);
    }
}

/// As [`law_statement_closed`], of a statement that may be missing.
proof fn lemma_optional_closed(
    node: Option<Box<Syntax>>,
    code: Seq<char>,
    n: nat,
    m: nat,
    entry: Seq<PathView>,
    context: Option<ContextView>,
    outside: Outside,
)
    requires
        covers(outside, entry, context),
    ensures
        ({
            let drawn = optional_statement(node, code, n, m, entry, context);
            closed(drawn, outside, n, drawn.nodes.len())
        }),
    decreases node, 2nat,
{
    if let Some(s) = node {
        law_statement_closed(*s, code, n, m, entry, context, outside);
    }
}

/// As [`law_statement_closed`], of a list of statements.
proof fn lemma_sequence_closed(
    nodes: Seq<Syntax>,
    k: nat,
    omitted: Omitted,
    code: Seq<char>,
    n: nat,
    m: nat,
    entry: Seq<PathView>,
    context: Option<ContextView>,
    outside: Outside,
)
    requires
        covers(outside, entry, context),
    ensures
        ({
            let drawn = sequence(nodes, k, omitted, code, n, m, entry, context);
            closed(drawn, outside, n, drawn.nodes.len())
        }),
    decreases nodes, k,
{
    if 0 < k <= nodes.len() {
        let before = sequence(nodes, (k - 1) as nat, omitted, code, n, m, entry, context);
        lemma_sequence_closed(nodes, (k - 1) as nat, omitted, code, n, m, entry, context, outside);
        let (n_now, m_now) = (n + before.nodes.len(), m + before.jumps.len());
        let inner = with_drawn(outside, n, before.nodes.len());
        let now = statement(nodes[k - 1], code, n_now, m_now, before.exits, context);
        law_statement_closed(nodes[k - 1], code, n_now, m_now, before.exits, context, inner);
        lemma_then_widened(before, now, outside, n);
    }
}

/// A fragment drawn after another one, from what is known then.
proof fn lemma_then_widened(
    before: Fragment,
    now: Fragment,
    outside: Outside,
    n: nat,
)
    requires
        closed(before, outside, n, before.nodes.len()),
        closed(
            now,
            with_drawn(outside, n, before.nodes.len()),
            n + before.nodes.len(),
            now.nodes.len(),
        ),
    ensures
        closed(before.then_draw(now), outside, n, before.nodes.len() + now.nodes.len()),
{
    let kb = before.nodes.len();
    let k = kb + now.nodes.len();
    lemma_widen(before, outside, n, kb, outside, n, k);
    assert forall|id: Seq<char>| #[trigger]
        with_drawn(outside, n, kb).ends.contains(id) implies is_known(id, outside.ends, n, k) by {
        if is_drawn(id, n, kb) {
            let j = choose|j: nat| n <= j < n + kb && id == #[trigger] node_id(j);
            lemma_drawn(j, n, k);
        }
    }
    lemma_widen(now, with_drawn(outside, n, kb), n + kb, now.nodes.len(), outside, n, k);
    lemma_then_closed(before, now, outside, n, k);
}

/// As [`law_statement_closed`], of an `if`.
proof fn lemma_if_closed(
    node: Syntax,
    code: Seq<char>,
    n: nat,
    m: nat,
    entry: Seq<PathView>,
    context: Option<ContextView>,
    outside: Outside,
)
    requires
        covers(outside, entry, context),
    ensures
        ({
            let drawn = if_statement(node, code, n, m, entry, context);
            closed(drawn, outside, n, drawn.nodes.len())
        }),
    decreases node, 0nat,
{
    let drawn = if_statement(node, code, n, m, entry, context);
    let k = drawn.nodes.len();
    let head = draw_node(n, condition_text(node.condition, code), "decision"@, entry);
    let open_yes = seq![labelled_path(node_id(n), "Yes"@)];
    let open_no = seq![labelled_path(node_id(n), "No"@)];
    let inner = outside.with(node_id(n));
    let yes = optional_statement(node.consequence, code, n + 1, m, open_yes, context);
    let (n_no, m_no) = (n + 1 + yes.nodes.len(), m + yes.jumps.len());
    let no = match node.alternative {
        Some(s) => statement(*s, code, n_no, m_no, open_no, context),
        None => pass(open_no),
    };
    assert(k == 1 + yes.nodes.len() + no.nodes.len());
    lemma_drawn(n, n, k);
    lemma_draw_closed(
        n,
        condition_text(node.condition, code),
        "decision"@,
        entry,
        outside,
        n,
        k,
    );
    lemma_optional_closed(node.consequence, code, n + 1, m, open_yes, context, inner);
    lemma_widen(yes, inner, n + 1, yes.nodes.len(), outside, n, k);
    match node.alternative {
        Some(s) => {
            law_statement_closed(*s, code, n_no, m_no, open_no, context, inner);
        },
        None => {
            assert(closed(no, inner, n_no, 0));
        },
    }
    lemma_widen(no, inner, n_no, no.nodes.len(), outside, n, k);
    lemma_then_closed(head, yes, outside, n, k);
    lemma_then_closed(head.then_draw(yes), no, outside, n, k);
    assert forall|i: int| 0 <= i < drawn.exits.len() implies is_known(
        (#[trigger] drawn.exits[i]).node_id,
        outside.ends,
        n,
        k,
    ) by {
        if i < yes.exits.len() {
            assert(drawn.exits[i] == yes.exits[i]);
        } else {
            assert(drawn.exits[i] == no.exits[i - yes.exits.len()]);
        }
    }
}

/// As [`law_statement_closed`], of a `while`.
proof fn lemma_while_closed(
    node: Syntax,
    code: Seq<char>,
    n: nat,
    m: nat,
    entry: Seq<PathView>,
    outside: Outside,
)
    requires
        covers(outside, entry, None),
    ensures
        ({
            let drawn = while_statement(node, code, n, m, entry);
            closed(drawn, outside, n, drawn.nodes.len())
        }),
    decreases node, 0nat,
{
    let drawn = while_statement(node, code, n, m, entry);
    let k = drawn.nodes.len();
    let (header, sink) = (node_id(n), node_id(n + 1));
    let head = draw_node(n, condition_text(node.condition, code), "decision"@, entry);
    let open_yes = seq![labelled_path(header, "Yes"@)];
    let around = ContextView { header_id: header, break_sink_id: sink };
    let inner = outside.with(header).with(sink);
    let body = optional_statement(node.body, code, n + 2, m, open_yes, Some(around));
    assert(k == 2 + body.nodes.len());
    lemma_drawn(n, n, k);
    lemma_drawn(n + 1, n, k);
    lemma_draw_closed(
        n,
        condition_text(node.condition, code),
        "decision"@,
        entry,
        outside,
        n,
        k,
    );
    lemma_optional_closed(node.body, code, n + 2, m, open_yes, Some(around), inner);
    lemma_widen(body, inner, n + 2, body.nodes.len(), outside, n, k);
    let back = jumps_from(body.exits, header, m + body.jumps.len());
    lemma_jumps_closed(body.exits, header, m + body.jumps.len(), outside, n, k);
    let out = jump(header, sink, "No"@, m + body.jumps.len() + back.len());
    let tail = Fragment { jumps: back.push(out), ..pass(seq![plain_path(sink)]) };
    assert(closed(tail, outside, n, k));
    lemma_then_closed(head, body, outside, n, k);
    lemma_then_closed(head.then_draw(body), tail, outside, n, k);
    assert(head.then_draw(body).then_draw(tail).edges == drawn.edges);
    assert(head.then_draw(body).then_draw(tail).jumps == drawn.jumps);
}

/// As [`law_statement_closed`], of the head of a `for`.
proof fn lemma_for_head_closed(
    node: Syntax,
    code: Seq<char>,
    n: nat,
    entry: Seq<PathView>,
    outside: Outside,
    k: nat,
)
    requires
        covers(outside, entry, None),
        for_head(node, code, n, entry).nodes.len() <= k,
    ensures
        closed(for_head(node, code, n, entry), outside, n, k),
{
    let init = for_initializer(node, code, n, entry);
    let h = for_decision(node, code, n, entry);
    assert(paths_known(entry, outside, n, k));
    assert(closed(init, outside, n, k)) by {
        if let Some(i) = node.initializer {
            lemma_draw_closed(
                n,
                crate::flow::clause_text(*i, code),
                "expression_statement"@,
                entry,
                outside,
                n,
                k,
            );
        }
    }
    let deciding = draw_node(
        h,
        crate::flow::for_condition_text(node, code),
        "decision"@,
        init.exits,
    );
    lemma_draw_closed(
        h,
        crate::flow::for_condition_text(node, code),
        "decision"@,
        init.exits,
        outside,
        n,
        k,
    );
    lemma_then_closed(init, deciding, outside, n, k);
    lemma_drawn(h, n, k);
}

/// As [`law_statement_closed`], of a `for`.
proof fn lemma_for_closed(
    node: Syntax,
    code: Seq<char>,
    n: nat,
    m: nat,
    entry: Seq<PathView>,
    outside: Outside,
)
    requires
        covers(outside, entry, None),
    ensures
        ({
            let drawn = for_statement(node, code, n, m, entry);
            closed(drawn, outside, n, drawn.nodes.len())
        }),
    decreases node, 0nat,
{
    let drawn = for_statement(node, code, n, m, entry);
    let k = drawn.nodes.len();
    let head = for_head(node, code, n, entry);
    let h = for_decision(node, code, n, entry);
    let (header, sink) = (node_id(h), node_id(h + 1));
    let around = ContextView { header_id: header, break_sink_id: sink };
    let inner = outside.with(header).with(sink);
    let n_body = n + head.nodes.len();
    let body = optional_statement(node.body, code, n_body, m, head.exits, Some(around));
    assert(k == head.nodes.len() + body.nodes.len());
    lemma_for_head_closed(node, code, n, entry, outside, k);
    lemma_drawn(h, n, k);
    lemma_drawn(h + 1, n, k);
    lemma_optional_closed(node.body, code, n_body, m, head.exits, Some(around), inner);
    lemma_widen(body, inner, n_body, body.nodes.len(), outside, n, k);
    let next = m + body.jumps.len();
    let update = if node.update is Some {
        Some(node_id(h + 2))
    } else {
        None
    };
    let back = for_back_jumps(node.body is Some, update, header, body.exits, next);
    assert(jumps_known(back, outside, n, k)) by {
        if node.update is Some {
            lemma_drawn(h + 2, n, k);
            lemma_jumps_closed(body.exits, node_id(h + 2), next, outside, n, k);
        } else {
            lemma_jumps_closed(body.exits, header, next, outside, n, k);
        }
    }
    let out = jump(header, sink, "No"@, next + back.len());
    let tail = Fragment { jumps: back.push(out), ..pass(seq![plain_path(sink)]) };
    assert(closed(tail, outside, n, k));
    lemma_then_closed(head, body, outside, n, k);
    lemma_then_closed(head.then_draw(body), tail, outside, n, k);
    assert(head.then_draw(body).then_draw(tail).edges == drawn.edges);
    assert(head.then_draw(body).then_draw(tail).jumps == drawn.jumps);
}

/// As [`law_statement_closed`], of a `do`.
proof fn lemma_do_closed(
    node: Syntax,
    code: Seq<char>,
    n: nat,
    m: nat,
    entry: Seq<PathView>,
    outside: Outside,
)
    requires
        covers(outside, entry, None),
    ensures
        ({
            let drawn = do_statement(node, code, n, m, entry);
            closed(drawn, outside, n, drawn.nodes.len())
        }),
    decreases node, 0nat,
{
    let drawn = do_statement(node, code, n, m, entry);
    let k = drawn.nodes.len();
    let (sink, header) = (node_id(n), node_id(n + 1));
    let around = ContextView { header_id: header, break_sink_id: sink };
    let inner = outside.with(header).with(sink);
    let body = optional_statement(node.body, code, n + 2, m, entry, Some(around));
    let again = n + 2 + body.nodes.len();
    let next = m + body.jumps.len();
    assert(k == 3 + body.nodes.len());
    lemma_drawn(n, n, k);
    lemma_drawn(n + 1, n, k);
    lemma_drawn(again, n, k);
    lemma_optional_closed(node.body, code, n + 2, m, entry, Some(around), inner);
    lemma_widen(body, inner, n + 2, body.nodes.len(), outside, n, k);
    lemma_edges_closed(body.exits, n + 1, outside, n, k);
    let repeat = repeat_edges(body_start(node.body, code, n), again);
    lemma_body_start(node, code, n, m, entry);
    if let Some(start) = body_start(node.body, code, n) {
        let open_again = seq![plain_path(node_id(again))];
        lemma_edges_closed(open_again, start, outside, n, k);
    }
    let tail = Fragment {
        edges: path_edges(body.exits, header) + repeat,
        jumps: seq![
            jump(header, node_id(again), "Yes"@, next),
            jump(header, sink, "No"@, next + 1),
        ],
        ..pass(seq![plain_path(sink)])
    };
    assert(closed(tail, outside, n, k));
    lemma_then_closed(body, tail, outside, n, k);
    assert(body.then_draw(tail).edges == drawn.edges);
    assert(body.then_draw(tail).jumps == drawn.jumps);
}

/// As [`law_statement_closed`], of the cases of a `switch`.
proof fn lemma_cases_closed(
    nodes: Seq<Syntax>,
    k: nat,
    code: Seq<char>,
    n: nat,
    m: nat,
    switch: Seq<char>,
    around: ContextView,
    outside: Outside,
)
    requires
        outside.ends.contains(switch),
        covers(outside, seq![], Some(around)),
    ensures
        ({
            let drawn = cases(nodes, k, code, n, m, switch, around);
            closed(drawn, outside, n, drawn.nodes.len())
        }),
    decreases nodes, k,
{
    if 0 < k <= nodes.len() {
        let drawn = cases(nodes, k, code, n, m, switch, around);
        let before = cases(nodes, (k - 1) as nat, code, n, m, switch, around);
        let case = nodes[k - 1];
        lemma_cases_closed(nodes, (k - 1) as nat, code, n, m, switch, around, outside);
        if case.kind == "case_statement"@ {
            let (n_now, m_now) = (n + before.nodes.len(), m + before.jumps.len());
            let entry = seq![labelled_path(switch, case_label(case, code))];
            let sink = around.break_sink_id;
            let body = sequence(
                case.children,
                case.children.len(),
                Omitted::CaseTokens,
                code,
                n_now,
                m_now,
                entry,
                Some(around),
            );
            lemma_sequence_closed(
                case.children,
                case.children.len(),
                Omitted::CaseTokens,
                code,
                n_now,
                m_now,
                entry,
                Some(around),
                outside,
            );
            let all = drawn.nodes.len();
            lemma_widen(before, outside, n, before.nodes.len(), outside, n, all);
            lemma_widen(body, outside, n_now, body.nodes.len(), outside, n, all);
            lemma_jumps_closed(body.exits, sink, m_now + body.jumps.len(), outside, n, all);
            let tail = Fragment {
                jumps: jumps_from(body.exits, sink, m_now + body.jumps.len()),
                ..pass(seq![])
            };
            assert(closed(tail, outside, n, all));
            lemma_then_closed(before, body, outside, n, all);
            lemma_then_closed(before.then_draw(body), tail, outside, n, all);
            assert(before.then_draw(body).then_draw(tail).edges == drawn.edges);
            assert(before.then_draw(body).then_draw(tail).jumps == drawn.jumps);
        }
    }
}

/// As [`law_statement_closed`], of a `switch`.
proof fn lemma_switch_closed(
    node: Syntax,
    code: Seq<char>,
    n: nat,
    m: nat,
    entry: Seq<PathView>,
    context: Option<ContextView>,
    outside: Outside,
)
    requires
        covers(outside, entry, context),
    ensures
        ({
            let drawn = switch_statement(node, code, n, m, entry, context);
            closed(drawn, outside, n, drawn.nodes.len())
        }),
    decreases node, 0nat,
{
    let drawn = switch_statement(node, code, n, m, entry, context);
    let k = drawn.nodes.len();
    let (switch, sink) = (node_id(n), node_id(n + 1));
    let around = switch_context(context, switch, sink);
    let label = "switch ("@ + text_of(*node.value->0, code) + ")"@;
    let head = draw_node(n, label, "decision"@, entry);
    let inside = outside.with(switch).with(sink);
    let inner = match node.body {
        Some(b) => cases(b.children, b.children.len(), code, n + 2, m, switch, around),
        None => pass(seq![]),
    };
    assert(k == 2 + inner.nodes.len());
    lemma_drawn(n, n, k);
    lemma_drawn(n + 1, n, k);
    lemma_draw_closed(n, label, "decision"@, entry, outside, n, k);
    match node.body {
        Some(b) => {
            lemma_cases_closed(
                b.children,
                b.children.len(),
                code,
                n + 2,
                m,
                switch,
                around,
                inside,
            );
        },
        None => {
            assert(closed(inner, inside, n + 2, 0));
        },
    }
    lemma_widen(inner, inside, n + 2, inner.nodes.len(), outside, n, k);
    lemma_then_closed(head, inner, outside, n, k);
    assert(head.then_draw(inner).jumps == drawn.jumps);
}

/// As [`law_statement_closed`], of the bodies of a function.
proof fn lemma_bodies_closed(
    parts: Seq<Syntax>,
    k: nat,
    code: Seq<char>,
    n: nat,
    m: nat,
    entry: Seq<PathView>,
    outside: Outside,
)
    requires
        covers(outside, entry, None),
    ensures
        ({
            let drawn = bodies(parts, k, code, n, m, entry);
            closed(drawn, outside, n, drawn.nodes.len())
        }),
    decreases k,
{
    if 0 < k <= parts.len() {
        let before = bodies(parts, (k - 1) as nat, code, n, m, entry);
        let part = parts[k - 1];
        lemma_bodies_closed(parts, (k - 1) as nat, code, n, m, entry, outside);
        if part.kind == "compound_statement"@ {
            let (n_now, m_now) = (n + before.nodes.len(), m + before.jumps.len());
            let len = part.children.len();
            let inner = with_drawn(outside, n, before.nodes.len());
            let now = sequence(
                part.children,
                len,
                Omitted::Nothing,
                code,
                n_now,
                m_now,
                before.exits,
                None,
            );
            lemma_sequence_closed(
                part.children,
                len,
                Omitted::Nothing,
                code,
                n_now,
                m_now,
                before.exits,
                None,
                inner,
            );
            lemma_then_widened(before, now, outside, n);
        }
    }
}

/// As [`law_statement_closed`], of the functions of a program.
proof fn lemma_functions_closed(
    nodes: Seq<Syntax>,
    k: nat,
    code: Seq<char>,
    n: nat,
    m: nat,
    entry: Seq<PathView>,
    outside: Outside,
)
    requires
        covers(outside, entry, None),
    ensures
        ({
            let drawn = functions(nodes, k, code, n, m, entry);
            closed(drawn, outside, n, drawn.nodes.len())
        }),
    decreases k,
{
    if 0 < k <= nodes.len() {
        let before = functions(nodes, (k - 1) as nat, code, n, m, entry);
        let node = nodes[k - 1];
        lemma_functions_closed(nodes, (k - 1) as nat, code, n, m, entry, outside);
        if node.kind == "function_definition"@ {
            let (n_now, m_now) = (n + before.nodes.len(), m + before.jumps.len());
            let len = node.children.len();
            let inner = with_drawn(outside, n, before.nodes.len());
            let now = bodies(node.children, len, code, n_now, m_now, before.exits);
            lemma_bodies_closed(node.children, len, code, n_now, m_now, before.exits, inner);
            lemma_then_widened(before, now, outside, n);
        }
    }
}

/// Whether `id` is the id of a node.
pub open spec fn has_node(nodes: Seq<NodeView>, id: Seq<char>) -> bool {
    exists|i: int| 0 <= i < nodes.len() && (#[trigger] nodes[i]).id == id
}

/// Every edge of a flowchart leads from a node of it, or from `start`, to a
/// node of it.
pub proof fn law_chart_closed(root: Syntax, code: Seq<char>)
    ensures
        ({
            let c = chart(root, code);
            forall|i: int|
                0 <= i < c.edges.len() ==> {
                    &&& (#[trigger] c.edges[i]).source == "start"@ || has_node(
                        c.nodes,
                        c.edges[i].source,
                    )
                    &&& has_node(c.nodes, c.edges[i].target)
                }
        }),
{
    let c = chart(root, code);
    let drawn = program(root, code);
    let k = drawn.nodes.len();
    let outside = Outside { ends: set!["start"@], targets: Set::empty() };
    let entry = seq![plain_path("start"@)];
    law_program_numbered(root, code);
    lemma_functions_closed(root.children, root.children.len(), code, 0, 0, entry, outside);
    assert(closed(drawn, outside, 0, k));
    assert forall|id: Seq<char>| is_drawn(id, 0, k) implies has_node(c.nodes, id) by {
        let j = choose|j: nat| 0 <= j < k && id == #[trigger] node_id(j);
        assert(drawn.nodes[j as int].id == node_id(j));
        assert(c.nodes[j as int] == drawn.nodes[j as int]);
    }
    assert(has_node(c.nodes, "end"@)) by {
        assert(c.nodes[k as int].id == "end"@);
    }
    assert forall|i: int| 0 <= i < c.edges.len() implies {
        &&& (#[trigger] c.edges[i]).source == "start"@ || has_node(c.nodes, c.edges[i].source)
        &&& has_node(c.nodes, c.edges[i].target)
    } by {
        if i < drawn.edges.len() {
            assert(c.edges[i] == drawn.edges[i]);
        } else if i < drawn.edges.len() + drawn.exits.len() {
            let p = drawn.exits[i - drawn.edges.len()];
            assert(c.edges[i] == end_edge(p));
            assert(is_known(p.node_id, outside.ends, 0, k));
        } else {
            let j = i - drawn.edges.len() - drawn.exits.len();
            assert(c.edges[i] == drawn.jumps[j]);
        }
    }
}

} // verus!
