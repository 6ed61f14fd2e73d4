//! Laws on how the parts of a flowchart compose.
use crate::flow::{
    case_label, cases, connector, for_decision, for_head, grown, is_skipped, labelled_path,
    optional_statement, pass, plain_path, sequence, statement, switch_context, text_of, Fragment,
    Omitted,
};
use crate::flowchart::{chart, end_edge, functions, program};
use crate::graph::{jump, jumps_from, node_id, ContextView, GraphView, NodeView, PathView};
use crate::syntax::Syntax;
use vstd::prelude::*;

verus! {

/// Drawing one fragment after another is associative.
proof fn lemma_then_associates(f: Fragment, g: Fragment, h: Fragment)
    ensures
        f.then_draw(g).then_draw(h) == f.then_draw(g.then_draw(h)),
{
    let left = f.then_draw(g).then_draw(h);
    let right = f.then_draw(g.then_draw(h));
    assert(left.nodes == right.nodes);
    assert(left.edges == right.edges);
    assert(left.jumps == right.jumps);
}

/// Drawing nothing after a fragment changes nothing.
pub(crate) proof fn lemma_then_nothing(f: Fragment)
    ensures
        f.then_draw(pass(f.exits)) == f,
{
    let g = f.then_draw(pass(f.exits));
    assert(g.nodes == f.nodes);
    assert(g.edges == f.edges);
    assert(g.jumps == f.jumps);
}

/// The first statements of a list are drawn whatever follows them.
proof fn lemma_sequence_prefix(
    first: Seq<Syntax>,
    second: Seq<Syntax>,
    k: nat,
    omitted: Omitted,
    code: Seq<char>,
    n: nat,
    m: nat,
    entry: Seq<PathView>,
    context: Option<ContextView>,
)
    requires
        k <= first.len(),
    ensures
        sequence(first + second, k, omitted, code, n, m, entry, context) == sequence(
            first,
            k,
            omitted,
            code,
            n,
            m,
            entry,
            context,
        ),
    decreases k,
{
    if k > 0 {
        lemma_sequence_prefix(
            first,
            second,
            (k - 1) as nat,
            omitted,
            code,
            n,
            m,
            entry,
            context,
        );
        assert((first + second)[k - 1] == first[k - 1]);
    }
}

/// As [`law_sequence_splits`], of the first `k` statements of the second list.
proof fn lemma_sequence_splits(
    first: Seq<Syntax>,
    second: Seq<Syntax>,
    k: nat,
    omitted: Omitted,
    code: Seq<char>,
    n: nat,
    m: nat,
    entry: Seq<PathView>,
    context: Option<ContextView>,
)
    requires
        k <= second.len(),
    ensures
        ({
            let a = sequence(first, first.len(), omitted, code, n, m, entry, context);
            let b = sequence(
                second,
                k,
                omitted,
                code,
                n + a.nodes.len(),
                m + a.jumps.len(),
                a.exits,
                context,
            );
            sequence(first + second, first.len() + k, omitted, code, n, m, entry, context)
                == a.then_draw(b)
        }),
    decreases k,
{
    let a = sequence(first, first.len(), omitted, code, n, m, entry, context);
    let (n_b, m_b) = (n + a.nodes.len(), m + a.jumps.len());
    if k == 0 {
        lemma_sequence_prefix(
            first,
            second,
            first.len(),
            omitted,
            code,
            n,
            m,
            entry,
            context,
        );
        lemma_then_nothing(a);
    } else {
        let b = sequence(second, (k - 1) as nat, omitted, code, n_b, m_b, a.exits, context);
        let node = second[k - 1];
        lemma_sequence_splits(
            first,
            second,
            (k - 1) as nat,
            omitted,
            code,
            n,
            m,
            entry,
            context,
        );
        assert((first + second)[first.len() + k - 1] == node);
        assert((first.len() + k - 1) as nat == first.len() + (k - 1) as nat);
        let now = statement(
            node,
            code,
            n_b + b.nodes.len(),
            m_b + b.jumps.len(),
            b.exits,
            context,
        );
        lemma_then_associates(a, b, now);
    }
}

/// A list of statements is drawn by drawing its first part and then, from the
/// open ends that this leaves, the rest.
pub proof fn law_sequence_splits(
    first: Seq<Syntax>,
    second: Seq<Syntax>,
    omitted: Omitted,
    code: Seq<char>,
    n: nat,
    m: nat,
    entry: Seq<PathView>,
    context: Option<ContextView>,
)
    ensures
        ({
            let all = first + second;
            let a = sequence(first, first.len(), omitted, code, n, m, entry, context);
            let b = sequence(
                second,
                second.len(),
                omitted,
                code,
                n + a.nodes.len(),
                m + a.jumps.len(),
                a.exits,
                context,
            );
            sequence(all, all.len(), omitted, code, n, m, entry, context) == a.then_draw(b)
        }),
{
    lemma_sequence_splits(
        first,
        second,
        second.len(),
        omitted,
        code,
        n,
        m,
        entry,
        context,
    );
}

/// The kinds of nodes that nothing is drawn for are short, or begin with a `p`.
pub(crate) proof fn lemma_skipped_kinds(kind: Seq<char>)
    requires
        is_skipped(kind),
    ensures
        kind.len() <= 7 || kind[0] == 'p',
{
    reveal_strlit("{");
    reveal_strlit("}");
    reveal_strlit("comment");
    reveal_strlit(";");
    reveal_strlit("\n");
    reveal_strlit("preproc_include");
    reveal_strlit("preproc_def");
}

/// A block is drawn as its statements are.
pub(crate) proof fn lemma_block(
    block: Syntax,
    code: Seq<char>,
    n: nat,
    m: nat,
    entry: Seq<PathView>,
    context: Option<ContextView>,
)
    requires
        block.kind == "compound_statement"@,
    ensures
        sequence(seq![block], 1, Omitted::Nothing, code, n, m, entry, context) == sequence(
            block.children,
            block.children.len(),
            Omitted::Nothing,
            code,
            n,
            m,
            entry,
            context,
        ),
{
    reveal_with_fuel(sequence, 2);
    reveal_strlit("compound_statement");
    reveal_strlit("declaration");
    assert("compound_statement"@[0] == 'c');
    if is_skipped(block.kind) {
        lemma_skipped_kinds(block.kind);
    }
    let inside = statement(block, code, n, m, entry, context);
    assert(inside == sequence(
        block.children,
        block.children.len(),
        Omitted::Nothing,
        code,
        n,
        m,
        entry,
        context,
    ));
    let drawn = pass(entry).then_draw(inside);
    assert(drawn.nodes == inside.nodes);
    assert(drawn.edges == inside.edges);
    assert(drawn.jumps == inside.jumps);
}

/// Braces around statements change nothing: a block among other statements is
/// drawn as if its statements stood there without it.
pub proof fn law_blocks_are_transparent(
    before: Seq<Syntax>,
    block: Syntax,
    after: Seq<Syntax>,
    code: Seq<char>,
    n: nat,
    m: nat,
    entry: Seq<PathView>,
    context: Option<ContextView>,
)
    requires
        block.kind == "compound_statement"@,
    ensures
        ({
            let closed = before + seq![block] + after;
            let open = before + block.children + after;
            sequence(closed, closed.len(), Omitted::Nothing, code, n, m, entry, context)
                == sequence(open, open.len(), Omitted::Nothing, code, n, m, entry, context)
        }),
{
    let none = Omitted::Nothing;
    let a = sequence(before, before.len(), none, code, n, m, entry, context);
    let (n_b, m_b) = (n + a.nodes.len(), m + a.jumps.len());
    lemma_block(block, code, n_b, m_b, a.exits, context);
    law_sequence_splits(before, seq![block], none, code, n, m, entry, context);
    law_sequence_splits(before, block.children, none, code, n, m, entry, context);
    law_sequence_splits(before + seq![block], after, none, code, n, m, entry, context);
    law_sequence_splits(before + block.children, after, none, code, n, m, entry, context);
}

/// Syntax tokens, comments and declarations without an assignment draw nothing.
pub proof fn law_skipped_statements(
    node: Syntax,
    code: Seq<char>,
    n: nat,
    m: nat,
    entry: Seq<PathView>,
    context: Option<ContextView>,
)
    requires
        is_skipped(node.kind) || (node.kind == "declaration"@ && !text_of(node, code).contains(
            '=',
        )),
    ensures
        statement(node, code, n, m, entry, context) == pass(entry),
{
}

/// The contents of the kinds of statements that end a path.
pub(crate) proof fn lemma_ending_kinds()
    ensures
        !is_skipped("return_statement"@),
        !is_skipped("break_statement"@),
        !is_skipped("continue_statement"@),
        "return_statement"@.len() == 16,
        "break_statement"@.len() == 15,
        "continue_statement"@.len() == 18,
        "compound_statement"@.len() == 18,
        "continue_statement"@ != "compound_statement"@,
        "declaration"@.len() == 11,
        "else_clause"@.len() == 11,
        "return_statement"@[0] == 'r',
        "break_statement"@[0] == 'b',
{
    reveal_strlit("return_statement");
    reveal_strlit("break_statement");
    reveal_strlit("continue_statement");
    reveal_strlit("compound_statement");
    reveal_strlit("declaration");
    reveal_strlit("else_clause");
    assert("continue_statement"@[0] == 'c');
    assert("continue_statement"@[2] == 'n');
    assert("compound_statement"@[2] == 'm');
    if is_skipped("return_statement"@) {
        lemma_skipped_kinds("return_statement"@);
    }
    if is_skipped("break_statement"@) {
        lemma_skipped_kinds("break_statement"@);
    }
    if is_skipped("continue_statement"@) {
        lemma_skipped_kinds("continue_statement"@);
    }
}

/// After `return`, `break` and `continue` no path is left open. A `break`
/// leads every path to the exit of the loop around it, a `continue` to its
/// header, each under the label of the path; a `return` draws a node.
pub proof fn law_paths_end(
    node: Syntax,
    code: Seq<char>,
    n: nat,
    m: nat,
    entry: Seq<PathView>,
    context: Option<ContextView>,
)
    ensures
        ({
            let drawn = statement(node, code, n, m, entry, context);
            &&& node.kind == "return_statement"@ ==> drawn.exits.len() == 0 && drawn.nodes == seq![
                NodeView {
                    id: node_id(n),
                    label: text_of(node, code),
                    kind: "return_statement"@,
                },
            ]
            &&& node.kind == "break_statement"@ ==> drawn.exits.len() == 0 && drawn.jumps == (
            match context {
                Some(c) => jumps_from(entry, c.break_sink_id, m),
                None => seq![],
            })
            &&& node.kind == "continue_statement"@ ==> drawn.exits.len() == 0 && drawn.jumps == (
            match context {
                Some(c) => jumps_from(entry, c.header_id, m),
                None => seq![],
            })
        }),
{
    lemma_ending_kinds();
}

/// In a `switch` a `break` leads to the exit of the `switch`, and a `continue` to
/// the header of the loop around it, as if the `switch` were not there. Outside
/// a loop it leads to the decision of the outermost `switch`.
pub proof fn law_continue_passes_over_a_switch(
    node: Syntax,
    code: Seq<char>,
    n: nat,
    m: nat,
    entry: Seq<PathView>,
    context: Option<ContextView>,
    switch: Seq<char>,
    sink: Seq<char>,
)
    ensures
        ({
            let around = Some(switch_context(context, switch, sink));
            let drawn = statement(node, code, n, m, entry, around);
            &&& node.kind == "break_statement"@ ==> drawn.jumps == jumps_from(entry, sink, m)
            &&& node.kind == "continue_statement"@ ==> drawn.jumps == (match context {
                Some(c) => jumps_from(entry, c.header_id, m),
                None => jumps_from(entry, switch, m),
            })
        }),
{
    lemma_ending_kinds();
}

/// The contents of the kinds of statements that begin with a decision or a loop.
pub(crate) proof fn lemma_branching_kinds(kind: Seq<char>)
    requires
        kind == "while_statement"@ || kind == "for_statement"@ || kind == "do_statement"@ || kind
            == "switch_statement"@ || kind == "if_statement"@,
    ensures
        !is_skipped(kind),
        kind != "declaration"@,
        kind != "compound_statement"@,
        kind != "else_clause"@,
        kind != "return_statement"@,
        kind != "break_statement"@,
        kind != "continue_statement"@,
        "while_statement"@.len() == 15,
        "for_statement"@.len() == 13,
        "do_statement"@.len() == 12,
        "switch_statement"@.len() == 16,
        "if_statement"@.len() == 12,
        "if_statement"@[0] == 'i',
        "do_statement"@[0] == 'd',
{
    lemma_ending_kinds();
    reveal_strlit("while_statement");
    reveal_strlit("for_statement");
    reveal_strlit("do_statement");
    reveal_strlit("switch_statement");
    reveal_strlit("if_statement");
    assert("while_statement"@[0] == 'w');
    assert("for_statement"@[0] == 'f');
    assert("switch_statement"@[0] == 's');
    if is_skipped(kind) {
        lemma_skipped_kinds(kind);
    }
}

/// The exit of a loop that is drawn from number `n` on, and its header.
pub open spec fn loop_ends(
    node: Syntax,
    code: Seq<char>,
    n: nat,
    entry: Seq<PathView>,
) -> (nat, nat) {
    if node.kind == "do_statement"@ {
        (n, n + 1)
    } else if node.kind == "for_statement"@ {
        let h = for_decision(node, code, n, entry);
        (h + 1, h)
    } else {
        (n + 1, n)
    }
}

/// A loop leaves one path open, at a connector, which the loop's decision
/// reaches under `No`.
pub proof fn law_loops_leave_by_their_exit(
    node: Syntax,
    code: Seq<char>,
    n: nat,
    m: nat,
    entry: Seq<PathView>,
    context: Option<ContextView>,
)
    requires
        node.kind == "while_statement"@ || node.kind == "for_statement"@ || node.kind
            == "do_statement"@,
    ensures
        ({
            let drawn = statement(node, code, n, m, entry, context);
            let (exit, header) = loop_ends(node, code, n, entry);
            &&& drawn.exits == seq![plain_path(node_id(exit))]
            &&& n <= exit < n + drawn.nodes.len()
            &&& drawn.nodes[exit - n] == connector(exit)
            &&& drawn.nodes[header - n].id == node_id(header)
            &&& drawn.nodes[header - n].kind == "decision"@
            &&& drawn.jumps.len() > 0
            &&& drawn.jumps.last() == jump(
                node_id(header),
                node_id(exit),
                "No"@,
                (m + drawn.jumps.len() - 1) as nat,
            )
        }),
{
    lemma_branching_kinds(node.kind);
}

/// A `switch` leaves one path open, at the connector behind its decision.
pub proof fn law_switch_leaves_by_its_exit(
    node: Syntax,
    code: Seq<char>,
    n: nat,
    m: nat,
    entry: Seq<PathView>,
    context: Option<ContextView>,
)
    requires
        node.kind == "switch_statement"@,
    ensures
        ({
            let drawn = statement(node, code, n, m, entry, context);
            &&& drawn.exits == seq![plain_path(node_id(n + 1))]
            &&& drawn.nodes.len() >= 2
            &&& drawn.nodes[0].kind == "decision"@
            &&& drawn.nodes[1] == connector(n + 1)
        }),
{
    lemma_branching_kinds(node.kind);
}

/// An `if` without an alternative leaves its decision open under `No`, besides
/// what its consequence leaves open.
pub proof fn law_if_without_else(
    node: Syntax,
    code: Seq<char>,
    n: nat,
    m: nat,
    entry: Seq<PathView>,
    context: Option<ContextView>,
)
    requires
        node.kind == "if_statement"@,
        node.alternative is None,
    ensures
        ({
            let drawn = statement(node, code, n, m, entry, context);
            &&& drawn.exits.len() > 0
            &&& drawn.exits.last() == labelled_path(node_id(n), "No"@)
        }),
{
    lemma_branching_kinds(node.kind);
}

/// Drawing only adds to a flowchart, and it keeps as many ids drawn as there
/// are nodes.
pub proof fn law_drawing_only_adds(graph: GraphView, fragment: Fragment)
    ensures
        graph.nodes.is_prefix_of(grown(graph, fragment).nodes),
        graph.edges.is_prefix_of(grown(graph, fragment).edges),
        graph.extra_edges.is_prefix_of(grown(graph, fragment).extra_edges),
        graph.wf() ==> grown(graph, fragment).wf(),
        graph.id_counter == graph.nodes.len() ==> grown(graph, fragment).id_counter == grown(
            graph,
            fragment,
        ).nodes.len(),
{
}

/// Every path that a program leaves open leads to the end of its flowchart, and
/// the end is the last node.
pub proof fn law_open_paths_reach_the_end(root: Syntax, code: Seq<char>)
    ensures
        ({
            let c = chart(root, code);
            let drawn = program(root, code);
            &&& forall|i: int|
                0 <= i < drawn.exits.len() ==> c.edges.contains(
                    end_edge(#[trigger] drawn.exits[i]),
                )
            &&& c.nodes.last() == (NodeView { id: "end"@, label: "End"@, kind: "terminal"@ })
        }),
{
    let c = chart(root, code);
    let drawn = program(root, code);
    assert forall|i: int| 0 <= i < drawn.exits.len() implies c.edges.contains(
        end_edge(#[trigger] drawn.exits[i]),
    ) by {
        assert(c.edges[drawn.edges.len() + i] == end_edge(drawn.exits[i]));
    }
}

/// Without a function nothing is drawn.
proof fn lemma_no_functions(
    nodes: Seq<Syntax>,
    k: nat,
    code: Seq<char>,
    entry: Seq<PathView>,
)
    requires
        forall|i: int| 0 <= i < nodes.len() ==> (#[trigger] nodes[i]).kind
            != "function_definition"@,
    ensures
        functions(nodes, k, code, 0, 0, entry) == pass(entry),
    decreases k,
{
    if 0 < k <= nodes.len() {
        lemma_no_functions(nodes, (k - 1) as nat, code, entry);
        assert(nodes[k - 1].kind != "function_definition"@);
    }
}

/// The flowchart of a program without functions is the end alone, reached from
/// the start.
pub proof fn law_program_without_functions(root: Syntax, code: Seq<char>)
    requires
        forall|i: int|
            0 <= i < root.children.len() ==> (#[trigger] root.children[i]).kind
                != "function_definition"@,
    ensures
        chart(root, code).nodes == seq![
            NodeView { id: "end"@, label: "End"@, kind: "terminal"@ },
        ],
        chart(root, code).edges == seq![end_edge(plain_path("start"@))],
{
    lemma_no_functions(root.children, root.children.len(), code, seq![plain_path("start"@)]);
}

/// The nodes that a statement adds depend neither on the paths that lead into it
/// nor on the jump targets around it, nor on the jumps before it.
pub proof fn law_nodes_depend_on_the_statement(
    node: Syntax,
    code: Seq<char>,
    n: nat,
    m: nat,
    entry: Seq<PathView>,
    context: Option<ContextView>,
    other_m: nat,
    other_entry: Seq<PathView>,
    other_context: Option<ContextView>,
)
    ensures
        statement(node, code, n, m, entry, context).nodes == statement(
            node,
            code,
            n,
            other_m,
            other_entry,
            other_context,
        ).nodes,
    decreases node, 1nat,
{
    let len = node.children.len();
    if node.kind == "compound_statement"@ || node.kind == "else_clause"@ {
        lemma_same_sequence(
            node.children,
            len,
            Omitted::Nothing,
            code,
            n,
            (m, entry, context),
            (other_m, other_entry, other_context),
        );
        lemma_same_sequence(
            node.children,
            len,
            Omitted::ElseTokens,
            code,
            n,
            (m, entry, context),
            (other_m, other_entry, other_context),
        );
    } else if node.kind == "if_statement"@ {
        let open_yes = seq![labelled_path(node_id(n), "Yes"@)];
        let open_no = seq![labelled_path(node_id(n), "No"@)];
        let yes = optional_statement(node.consequence, code, n + 1, m, open_yes, context);
        let other = optional_statement(
            node.consequence,
            code,
            n + 1,
            other_m,
            open_yes,
            other_context,
        );
        lemma_same_optional(
            node.consequence,
            code,
            n + 1,
            (m, open_yes, context),
            (other_m, open_yes, other_context),
        );
        lemma_same_optional(
            node.alternative,
            code,
            n + 1 + yes.nodes.len(),
            (m + yes.jumps.len(), open_no, context),
            (other_m + other.jumps.len(), open_no, other_context),
        );
    } else if node.kind == "while_statement"@ {
        let around = ContextView { header_id: node_id(n), break_sink_id: node_id(n + 1) };
        let open_yes = seq![labelled_path(node_id(n), "Yes"@)];
        lemma_same_optional(
            node.body,
            code,
            n + 2,
            (m, open_yes, Some(around)),
            (other_m, open_yes, Some(around)),
        );
    } else if node.kind == "for_statement"@ {
        let head = for_head(node, code, n, entry);
        let h = for_decision(node, code, n, entry);
        let around = ContextView { header_id: node_id(h), break_sink_id: node_id(h + 1) };
        assert(for_head(node, code, n, other_entry).nodes == head.nodes);
        lemma_same_optional(
            node.body,
            code,
            n + head.nodes.len(),
            (m, head.exits, Some(around)),
            (other_m, head.exits, Some(around)),
        );
    } else if node.kind == "do_statement"@ {
        let around = ContextView { header_id: node_id(n + 1), break_sink_id: node_id(n) };
        lemma_same_optional(
            node.body,
            code,
            n + 2,
            (m, entry, Some(around)),
            (other_m, other_entry, Some(around)),
        );
    } else if node.kind == "switch_statement"@ {
        let (switch, sink) = (node_id(n), node_id(n + 1));
        if let Some(b) = node.body {
            lemma_same_cases(
                b.children,
                b.children.len(),
                code,
                n + 2,
                switch,
                (m, switch_context(context, switch, sink)),
                (other_m, switch_context(other_context, switch, sink)),
            );
        }
    }
}

/// As [`law_nodes_depend_on_the_statement`], of a statement that may be missing.
proof fn lemma_same_optional(
    node: Option<Box<Syntax>>,
    code: Seq<char>,
    n: nat,
    a: (nat, Seq<PathView>, Option<ContextView>),
    b: (nat, Seq<PathView>, Option<ContextView>),
)
    ensures
        optional_statement(node, code, n, a.0, a.1, a.2).nodes == optional_statement(
            node,
            code,
            n,
            b.0,
            b.1,
            b.2,
        ).nodes,
    decreases node, 2nat,
{
    if let Some(s) = node {
        law_nodes_depend_on_the_statement(*s, code, n, a.0, a.1, a.2, b.0, b.1, b.2);
    }
}

/// As [`law_nodes_depend_on_the_statement`], of a list of statements.
proof fn lemma_same_sequence(
    nodes: Seq<Syntax>,
    k: nat,
    omitted: Omitted,
    code: Seq<char>,
    n: nat,
    a: (nat, Seq<PathView>, Option<ContextView>),
    b: (nat, Seq<PathView>, Option<ContextView>),
)
    ensures
        sequence(nodes, k, omitted, code, n, a.0, a.1, a.2).nodes == sequence(
            nodes,
            k,
            omitted,
            code,
            n,
            b.0,
            b.1,
            b.2,
        ).nodes,
    decreases nodes, k,
{
    if 0 < k <= nodes.len() {
        let one = sequence(nodes, (k - 1) as nat, omitted, code, n, a.0, a.1, a.2);
        let two = sequence(nodes, (k - 1) as nat, omitted, code, n, b.0, b.1, b.2);
        lemma_same_sequence(nodes, (k - 1) as nat, omitted, code, n, a, b);
        law_nodes_depend_on_the_statement(
            nodes[k - 1],
            code,
            n + one.nodes.len(),
            a.0 + one.jumps.len(),
            one.exits,
            a.2,
            b.0 + two.jumps.len(),
            two.exits,
            b.2,
        );
    }
}

/// As [`law_nodes_depend_on_the_statement`], of the cases of a `switch`.
proof fn lemma_same_cases(
    nodes: Seq<Syntax>,
    k: nat,
    code: Seq<char>,
    n: nat,
    switch: Seq<char>,
    a: (nat, ContextView),
    b: (nat, ContextView),
)
    ensures
        cases(nodes, k, code, n, a.0, switch, a.1).nodes == cases(
            nodes,
            k,
            code,
            n,
            b.0,
            switch,
            b.1,
        ).nodes,
    decreases nodes, k,
{
    if 0 < k <= nodes.len() {
        let one = cases(nodes, (k - 1) as nat, code, n, a.0, switch, a.1);
        let two = cases(nodes, (k - 1) as nat, code, n, b.0, switch, b.1);
        let case = nodes[k - 1];
        let entry = seq![labelled_path(switch, case_label(case, code))];
        lemma_same_cases(nodes, (k - 1) as nat, code, n, switch, a, b);
        lemma_same_sequence(
            case.children,
            case.children.len(),
            Omitted::CaseTokens,
            code,
            n + one.nodes.len(),
            (a.0 + one.jumps.len(), entry, Some(a.1)),
            (b.0 + two.jumps.len(), entry, Some(b.1)),
        );
    }
}

} // verus!
