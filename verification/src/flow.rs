//! What a statement adds to a flowchart.
//!
//! A statement is drawn as a [`Fragment`]: it depends on the number `n` of the
//! next node, the number `m` of the next jump, the open ends `entry` that lead
//! into the statement and the loop context around it.
use crate::graph::{
    jump, jumps_from, node_id, path_edges, ContextView, EdgeView, GraphView, NodeView, PathView,
};
use crate::syntax::Syntax;
use crate::text::{is_slice, slice_of, trim_end_of, trim_of, CharClass};
use vstd::prelude::*;

verus! {

/// A part of a flowchart: the nodes, edges and jumps that a statement adds, and
/// the open ends that it leaves.
pub struct Fragment {
    pub nodes: Seq<NodeView>,
    pub edges: Seq<EdgeView>,
    pub jumps: Seq<EdgeView>,
    pub exits: Seq<PathView>,
}

impl Fragment {
    /// `self` with `next` drawn after it.
    pub open spec fn then_draw(self, next: Fragment) -> Fragment {
        Fragment {
            nodes: self.nodes + next.nodes,
            edges: self.edges + next.edges,
            jumps: self.jumps + next.jumps,
            exits: next.exits,
        }
    }
}

/// `graph` with `fragment` drawn into it.
pub open spec fn grown(graph: GraphView, fragment: Fragment) -> GraphView {
    GraphView {
        nodes: graph.nodes + fragment.nodes,
        edges: graph.edges + fragment.edges,
        id_counter: graph.id_counter + fragment.nodes.len(),
        extra_edges: graph.extra_edges + fragment.jumps,
    }
}

/// Nothing is drawn: the open ends stay as they are.
pub open spec fn pass(entry: Seq<PathView>) -> Fragment {
    Fragment { nodes: seq![], edges: seq![], jumps: seq![], exits: entry }
}

/// An open end without a label.
pub open spec fn plain_path(id: Seq<char>) -> PathView {
    PathView { node_id: id, label: ""@ }
}

/// The open end that leaves `id` under `label`.
pub open spec fn labelled_path(id: Seq<char>, label: Seq<char>) -> PathView {
    PathView { node_id: id, label }
}

/// Node number `n`, reached from `entry`.
pub open spec fn draw_node(
    n: nat,
    label: Seq<char>,
    kind: Seq<char>,
    entry: Seq<PathView>,
) -> Fragment {
    Fragment {
        nodes: seq![NodeView { id: node_id(n), label, kind }],
        edges: path_edges(entry, node_id(n)),
        jumps: seq![],
        exits: seq![plain_path(node_id(n))],
    }
}

/// The connector node of number `n`.
pub open spec fn connector(n: nat) -> NodeView {
    NodeView { id: node_id(n), label: ""@, kind: "connector"@ }
}

/// The kinds of nodes that nothing is drawn for.
pub open spec fn is_skipped(kind: Seq<char>) -> bool {
    ||| kind == "{"@
    ||| kind == "}"@
    ||| kind == "comment"@
    ||| kind == ";"@
    ||| kind == "\n"@
    ||| kind == "preproc_include"@
    ||| kind == "preproc_def"@
}

/// Whether the text of `node` can be read in `code`.
pub open spec fn has_text(node: Syntax, code: Seq<char>) -> bool {
    is_slice(code, node.start, node.end)
}

/// Whether the text of `node`, if there is one, can be read in `code`.
pub open spec fn has_text_if_any(node: Option<Box<Syntax>>, code: Seq<char>) -> bool {
    match node {
        Some(n) => has_text(*n, code),
        None => true,
    }
}

/// The text of `node` in `code`.
pub open spec fn text_of(node: Syntax, code: Seq<char>) -> Seq<char> {
    slice_of(code, node.start, node.end)
}

/// The text of a condition, as it labels a decision.
pub open spec fn condition_text(node: Option<Box<Syntax>>, code: Seq<char>) -> Seq<char> {
    trim_of(text_of(*node->0, code), CharClass::Bracketing)
}

/// The text of a clause in the head of a `for`: without the semicolons at its
/// end, and then without white space at both ends.
pub open spec fn clause_text(node: Syntax, code: Seq<char>) -> Seq<char> {
    trim_of(trim_end_of(text_of(node, code), CharClass::Semicolon), CharClass::WhiteSpace)
}

/// The tokens that are left out of a list of nodes.
#[derive(Clone, Copy)]
pub enum Omitted {
    /// None.
    Nothing,
    /// In an `else` clause: the keyword and comments.
    ElseTokens,
    /// In a `case`: the keywords and the colon.
    CaseTokens,
}

/// Whether a node of kind `kind` is left out.
pub open spec fn omits(omitted: Omitted, kind: Seq<char>) -> bool {
    match omitted {
        Omitted::Nothing => false,
        Omitted::ElseTokens => kind == "else"@ || kind == "comment"@,
        Omitted::CaseTokens => kind == "case"@ || kind == "default"@ || kind == ":"@,
    }
}

/// What `node` adds to a flowchart.
pub open spec fn statement(
    node: Syntax,
    code: Seq<char>,
    n: nat,
    m: nat,
    entry: Seq<PathView>,
    context: Option<ContextView>,
) -> Fragment
    decreases node, 1nat,
{
    if is_skipped(node.kind) {
        pass(entry)
    } else if node.kind == "declaration"@ && !text_of(node, code).contains('=') {
        pass(entry)
    } else if node.kind == "compound_statement"@ {
        sequence(node.children, node.children.len(), Omitted::Nothing, code, n, m, entry, context)
    } else if node.kind == "else_clause"@ {
        sequence(
            node.children,
            node.children.len(),
            Omitted::ElseTokens,
            code,
            n,
            m,
            entry,
            context,
        )
    } else if node.kind == "return_statement"@ {
        Fragment {
            exits: seq![],
            ..draw_node(n, text_of(node, code), "return_statement"@, entry)
        }
    } else if node.kind == "break_statement"@ {
        Fragment {
            jumps: match context {
                Some(c) => jumps_from(entry, c.break_sink_id, m),
                None => seq![],
            },
            ..pass(seq![])
        }
    } else if node.kind == "continue_statement"@ {
        Fragment {
            jumps: match context {
                Some(c) => jumps_from(entry, c.header_id, m),
                None => seq![],
            },
            ..pass(seq![])
        }
    } else if node.kind == "if_statement"@ {
        if_statement(node, code, n, m, entry, context)
    } else if node.kind == "while_statement"@ {
        while_statement(node, code, n, m, entry)
    } else if node.kind == "for_statement"@ {
        for_statement(node, code, n, m, entry)
    } else if node.kind == "do_statement"@ {
        do_statement(node, code, n, m, entry)
    } else if node.kind == "switch_statement"@ {
        switch_statement(node, code, n, m, entry, context)
    } else {
        draw_node(n, text_of(node, code), node.kind, entry)
    }
}

/// What `node` adds, if there is one; without it the open ends are lost.
pub open spec fn optional_statement(
    node: Option<Box<Syntax>>,
    code: Seq<char>,
    n: nat,
    m: nat,
    entry: Seq<PathView>,
    context: Option<ContextView>,
) -> Fragment
    decreases node, 2nat,
{
    match node {
        Some(s) => statement(*s, code, n, m, entry, context),
        None => pass(seq![]),
    }
}

/// What the first `k` of `nodes` add one after another, the `omitted` ones left
/// out.
pub open spec fn sequence(
    nodes: Seq<Syntax>,
    k: nat,
    omitted: Omitted,
    code: Seq<char>,
    n: nat,
    m: nat,
    entry: Seq<PathView>,
    context: Option<ContextView>,
) -> Fragment
    decreases nodes, k,
{
    if k == 0 || k > nodes.len() {
        pass(entry)
    } else {
        let before = sequence(nodes, (k - 1) as nat, omitted, code, n, m, entry, context);
        if omits(omitted, nodes[k - 1].kind) {
            before
        } else {
            before.then_draw(
                statement(
                    nodes[k - 1],
                    code,
                    n + before.nodes.len(),
                    m + before.jumps.len(),
                    before.exits,
                    context,
                ),
            )
        }
    }
}

/// A decision, a branch under `Yes` and one under `No`. Without an alternative
/// the decision itself is left open under `No`.
pub open spec fn if_statement(
    node: Syntax,
    code: Seq<char>,
    n: nat,
    m: nat,
    entry: Seq<PathView>,
    context: Option<ContextView>,
) -> Fragment
    decreases node, 0nat,
{
    let head = draw_node(n, condition_text(node.condition, code), "decision"@, entry);
    let yes = optional_statement(
        node.consequence,
        code,
        n + 1,
        m,
        seq![labelled_path(node_id(n), "Yes"@)],
        context,
    );
    let open_no = seq![labelled_path(node_id(n), "No"@)];
    let no = match node.alternative {
        Some(s) => statement(
            *s,
            code,
            n + 1 + yes.nodes.len(),
            m + yes.jumps.len(),
            open_no,
            context,
        ),
        None => pass(open_no),
    };
    Fragment { exits: yes.exits + no.exits, ..head.then_draw(yes).then_draw(no) }
}

/// A decision and the connector after the loop. The body runs under `Yes` and
/// jumps back to the decision; under `No` the decision jumps to the connector,
/// which alone is left open.
pub open spec fn while_statement(
    node: Syntax,
    code: Seq<char>,
    n: nat,
    m: nat,
    entry: Seq<PathView>,
) -> Fragment
    decreases node, 0nat,
{
    let header = node_id(n);
    let sink = node_id(n + 1);
    let head = draw_node(n, condition_text(node.condition, code), "decision"@, entry);
    let body = optional_statement(
        node.body,
        code,
        n + 2,
        m,
        seq![labelled_path(header, "Yes"@)],
        Some(ContextView { header_id: header, break_sink_id: sink }),
    );
    let back = jumps_from(body.exits, header, m + body.jumps.len());
    Fragment {
        nodes: head.nodes.push(connector(n + 1)) + body.nodes,
        edges: head.edges + body.edges,
        jumps: (body.jumps + back).push(
            jump(header, sink, "No"@, m + body.jumps.len() + back.len()),
        ),
        exits: seq![plain_path(sink)],
    }
}

/// The first clause of a `for`, if it has a text.
pub open spec fn for_initializer(
    node: Syntax,
    code: Seq<char>,
    n: nat,
    entry: Seq<PathView>,
) -> Fragment {
    match node.initializer {
        Some(i) => if clause_text(*i, code).len() > 0 {
            draw_node(n, clause_text(*i, code), "expression_statement"@, entry)
        } else {
            pass(entry)
        },
        None => pass(entry),
    }
}

/// The second clause of a `for`; a missing one always holds.
pub open spec fn for_condition_text(node: Syntax, code: Seq<char>) -> Seq<char> {
    match node.condition {
        Some(c) => clause_text(*c, code),
        None => "true"@,
    }
}

/// The third clause of a `for`, as node number `n`.
pub open spec fn for_update(node: Syntax, code: Seq<char>, n: nat) -> Seq<NodeView> {
    match node.update {
        Some(u) => seq![
            NodeView {
                id: node_id(n),
                label: trim_of(text_of(*u, code), CharClass::WhiteSpace),
                kind: "expression_statement"@,
            },
        ],
        None => seq![],
    }
}

/// The jumps from the open ends `exits` of a `for` body, if there is one, back
/// to the decision `header`, over the node `update` if there is one.
pub open spec fn for_back_jumps(
    has_body: bool,
    update: Option<Seq<char>>,
    header: Seq<char>,
    exits: Seq<PathView>,
    m: nat,
) -> Seq<EdgeView> {
    if !has_body {
        seq![]
    } else {
        match update {
            Some(u) => jumps_from(exits, u, m).push(jump(u, header, ""@, m + exits.len())),
            None => jumps_from(exits, header, m),
        }
    }
}

/// The number of the decision of a `for` that is drawn from number `n` on.
pub open spec fn for_decision(node: Syntax, code: Seq<char>, n: nat, entry: Seq<PathView>) -> nat {
    n + for_initializer(node, code, n, entry).nodes.len()
}

/// The head of a `for`: the initializer, a decision, the connector after the
/// loop and the update.
pub open spec fn for_head(
    node: Syntax,
    code: Seq<char>,
    n: nat,
    entry: Seq<PathView>,
) -> Fragment {
    let init = for_initializer(node, code, n, entry);
    let h = for_decision(node, code, n, entry);
    let head = init.then_draw(
        draw_node(h, for_condition_text(node, code), "decision"@, init.exits),
    );
    Fragment {
        nodes: head.nodes.push(connector(h + 1)) + for_update(node, code, h + 2),
        edges: head.edges,
        jumps: seq![],
        exits: seq![labelled_path(node_id(h), "Yes"@)],
    }
}

/// The head of the loop and its body, which runs under `Yes` and jumps to the
/// update, which jumps back to the decision; without an update the body jumps
/// to the decision. Under `No` the decision jumps to the connector, which alone
/// is left open.
pub open spec fn for_statement(
    node: Syntax,
    code: Seq<char>,
    n: nat,
    m: nat,
    entry: Seq<PathView>,
) -> Fragment
    decreases node, 0nat,
{
    let head = for_head(node, code, n, entry);
    let h = for_decision(node, code, n, entry);
    let header = node_id(h);
    let sink = node_id(h + 1);
    let body = optional_statement(
        node.body,
        code,
        n + head.nodes.len(),
        m,
        head.exits,
        Some(ContextView { header_id: header, break_sink_id: sink }),
    );
    let next = m + body.jumps.len();
    let back = for_back_jumps(
        node.body is Some,
        if node.update is Some {
            Some(node_id(h + 2))
        } else {
            None
        },
        header,
        body.exits,
        next,
    );
    Fragment {
        nodes: head.nodes + body.nodes,
        edges: head.edges + body.edges,
        jumps: (body.jumps + back).push(jump(header, sink, "No"@, next + back.len())),
        exits: seq![plain_path(sink)],
    }
}

/// How a statement is entered.
pub enum Way {
    /// It draws nothing: the open ends lead on behind it.
    Through,
    /// At the node of this number, counted from the first one it adds.
    At(nat),
    /// At no node: the open ends jump away from it.
    Away,
}

/// How `node` is entered.
pub open spec fn way_in(node: Syntax, code: Seq<char>) -> Way
    decreases node, 1nat,
{
    if is_skipped(node.kind) {
        Way::Through
    } else if node.kind == "declaration"@ && !text_of(node, code).contains('=') {
        Way::Through
    } else if node.kind == "compound_statement"@ {
        way_into(node.children, node.children.len(), Omitted::Nothing, code)
    } else if node.kind == "else_clause"@ {
        way_into(node.children, node.children.len(), Omitted::ElseTokens, code)
    } else if node.kind == "break_statement"@ || node.kind == "continue_statement"@ {
        Way::Away
    } else if node.kind == "do_statement"@ {
        match node.body {
            Some(b) => match way_in(*b, code) {
                Way::Through => Way::At(1),
                Way::At(k) => Way::At(k + 2),
                Way::Away => Way::Away,
            },
            None => Way::Away,
        }
    } else {
        Way::At(0)
    }
}

/// How the first `k` of `nodes` are entered, the `omitted` ones left out.
pub open spec fn way_into(nodes: Seq<Syntax>, k: nat, omitted: Omitted, code: Seq<char>) -> Way
    decreases nodes, k,
{
    if k == 0 || k > nodes.len() {
        Way::Through
    } else {
        match way_into(nodes, (k - 1) as nat, omitted, code) {
            Way::Through => if omits(omitted, nodes[k - 1].kind) {
                Way::Through
            } else {
                way_in(nodes[k - 1], code)
            },
            way => way,
        }
    }
}

/// The number of the node at which the body of a `do` is entered that is drawn
/// from number `n` on: the decision where the body draws nothing.
pub open spec fn body_start(body: Option<Box<Syntax>>, code: Seq<char>, n: nat) -> Option<nat> {
    match body {
        Some(b) => match way_in(*b, code) {
            Way::Through => Some(n + 1),
            Way::At(k) => Some(n + 2 + k),
            Way::Away => None,
        },
        None => None,
    }
}

/// The edge from the connector of number `again` to where the body starts.
pub open spec fn repeat_edges(start: Option<nat>, again: nat) -> Seq<EdgeView> {
    match start {
        Some(s) => path_edges(seq![plain_path(node_id(again))], node_id(s)),
        None => seq![],
    }
}

/// The connector after the loop and a decision, to which the body leads. Under
/// `Yes` the decision jumps to a connector of its own, which leads back to
/// where the body is entered; under `No` it jumps to the connector after the
/// loop, which alone is left open.
pub open spec fn do_statement(
    node: Syntax,
    code: Seq<char>,
    n: nat,
    m: nat,
    entry: Seq<PathView>,
) -> Fragment
    decreases node, 0nat,
{
    let sink = node_id(n);
    let header = node_id(n + 1);
    let body = optional_statement(
        node.body,
        code,
        n + 2,
        m,
        entry,
        Some(ContextView { header_id: header, break_sink_id: sink }),
    );
    let again = n + 2 + body.nodes.len();
    let next = m + body.jumps.len();
    Fragment {
        nodes: (seq![
            connector(n),
            NodeView {
                id: header,
                label: condition_text(node.condition, code),
                kind: "decision"@,
            },
        ] + body.nodes).push(connector(again)),
        edges: body.edges + path_edges(body.exits, header) + repeat_edges(
            body_start(node.body, code, n),
            again,
        ),
        jumps: body.jumps + seq![
            jump(header, node_id(again), "Yes"@, next),
            jump(header, sink, "No"@, next + 1),
        ],
        exits: seq![plain_path(sink)],
    }
}

/// The label of a `case`.
pub open spec fn case_label(node: Syntax, code: Seq<char>) -> Seq<char> {
    match node.value {
        Some(v) => "Case "@ + text_of(*v, code),
        None => "Default"@,
    }
}

/// The context of the cases of a `switch`: `break` jumps to the connector
/// `sink`, and `continue` to where it does around the `switch`, that is, to the
/// header of the loop there. Where there is no context it jumps to the decision
/// `switch`, and so it does in a `switch` within this one.
pub open spec fn switch_context(
    context: Option<ContextView>,
    switch: Seq<char>,
    sink: Seq<char>,
) -> ContextView {
    ContextView {
        header_id: match context {
            Some(c) => c.header_id,
            None => switch,
        },
        break_sink_id: sink,
    }
}

/// What the `case`s among the first `k` of `nodes` add: each runs from the
/// decision `switch` under its label, in the context `around`, and its open ends
/// jump to where `break` does.
pub open spec fn cases(
    nodes: Seq<Syntax>,
    k: nat,
    code: Seq<char>,
    n: nat,
    m: nat,
    switch: Seq<char>,
    around: ContextView,
) -> Fragment
    decreases nodes, k,
{
    if k == 0 || k > nodes.len() {
        pass(seq![])
    } else {
        let before = cases(nodes, (k - 1) as nat, code, n, m, switch, around);
        let case = nodes[k - 1];
        if case.kind == "case_statement"@ {
            let body = sequence(
                case.children,
                case.children.len(),
                Omitted::CaseTokens,
                code,
                n + before.nodes.len(),
                m + before.jumps.len(),
                seq![labelled_path(switch, case_label(case, code))],
                Some(around),
            );
            let out = jumps_from(
                body.exits,
                around.break_sink_id,
                m + before.jumps.len() + body.jumps.len(),
            );
            Fragment {
                nodes: before.nodes + body.nodes,
                edges: before.edges + body.edges,
                jumps: before.jumps + body.jumps + out,
                exits: seq![],
            }
        } else {
            before
        }
    }
}

/// A decision, the connector after the `switch`, and the cases between them.
pub open spec fn switch_statement(
    node: Syntax,
    code: Seq<char>,
    n: nat,
    m: nat,
    entry: Seq<PathView>,
    context: Option<ContextView>,
) -> Fragment
    decreases node, 0nat,
{
    let switch = node_id(n);
    let sink = node_id(n + 1);
    let head = draw_node(
        n,
        "switch ("@ + text_of(*node.value->0, code) + ")"@,
        "decision"@,
        entry,
    );
    let around = switch_context(context, switch, sink);
    let inner = match node.body {
        Some(b) => cases(b.children, b.children.len(), code, n + 2, m, switch, around),
        None => pass(seq![]),
    };
    Fragment {
        nodes: head.nodes.push(connector(n + 1)) + inner.nodes,
        edges: head.edges + inner.edges,
        jumps: inner.jumps,
        exits: seq![plain_path(sink)],
    }
}

} // verus!
