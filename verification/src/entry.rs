//! Laws on where statements are entered.
use crate::composition::lemma_branching_kinds;
use crate::flow::{
    body_start, connector, do_statement, for_decision, for_initializer, for_statement, omits,
    optional_statement, pass, plain_path, repeat_edges, sequence, statement, way_in, way_into,
    Fragment, Omitted, Way,
};
use crate::graph::{jump, node_id, path_edge, path_edges, ContextView, EdgeView, PathView};
use crate::syntax::Syntax;
use vstd::prelude::*;

verus! {

/// Whether each of the open ends is joined to the node `to` by one of the edges.
pub open spec fn reach(edges: Seq<EdgeView>, entry: Seq<PathView>, to: Seq<char>) -> bool {
    forall|i: int| 0 <= i < entry.len() ==> edges.contains(path_edge(#[trigger] entry[i], to))
}

/// Whether the fragment `drawn`, numbered from `n` on, is entered from `entry` in
/// the way `way`.
pub open spec fn entered(drawn: Fragment, n: nat, entry: Seq<PathView>, way: Way) -> bool {
    match way {
        Way::Through => drawn == pass(entry),
        Way::At(k) => k < drawn.nodes.len() && reach(drawn.edges, entry, node_id(n + k)),
        Way::Away => true,
    }
}

/// Open ends that are connected to a node reach it, among whatever other edges.
proof fn lemma_reach(
    before: Seq<EdgeView>,
    entry: Seq<PathView>,
    to: Seq<char>,
    behind: Seq<EdgeView>,
)
    ensures
        reach(before + path_edges(entry, to) + behind, entry, to),
{
    let edges = before + path_edges(entry, to) + behind;
    assert forall|i: int| 0 <= i < entry.len() implies edges.contains(
        path_edge(#[trigger] entry[i], to),
    ) by {
        assert(edges[before.len() + i] == path_edge(entry[i], to));
    }
}

/// What is reached stays so when edges are added.
proof fn lemma_still_reach(
    edges: Seq<EdgeView>,
    behind: Seq<EdgeView>,
    entry: Seq<PathView>,
    to: Seq<char>,
)
    requires
        reach(edges, entry, to),
    ensures
        reach(edges + behind, entry, to),
{
    assert forall|i: int| 0 <= i < entry.len() implies (edges + behind).contains(
        path_edge(#[trigger] entry[i], to),
    ) by {
        let e = path_edge(entry[i], to);
        let j = choose|j: int| 0 <= j < edges.len() && edges[j] == e;
        assert((edges + behind)[j] == e);
    }
}

/// A statement through which the paths lead draws nothing. One that is entered
/// at a node adds this node, and every path into the statement has an edge to
/// it.
pub proof fn law_statement_is_entered(
    node: Syntax,
    code: Seq<char>,
    n: nat,
    m: nat,
    entry: Seq<PathView>,
    context: Option<ContextView>,
)
    ensures
        entered(statement(node, code, n, m, entry, context), n, entry, way_in(node, code)),
    decreases node, 1nat,
{
    let drawn = statement(node, code, n, m, entry, context);
    let len = node.children.len();
    let none = Seq::<EdgeView>::empty();
    if node.kind == "if_statement"@ || node.kind == "while_statement"@ || node.kind
        == "for_statement"@ || node.kind == "do_statement"@ || node.kind == "switch_statement"@ {
        lemma_branching_kinds(node.kind);
    }
    if node.kind == "compound_statement"@ {
        lemma_sequence_is_entered(
            node.children,
            len,
            Omitted::Nothing,
            code,
            n,
            m,
            entry,
            context,
        );
    } else if node.kind == "else_clause"@ {
        lemma_sequence_is_entered(
            node.children,
            len,
            Omitted::ElseTokens,
            code,
            n,
            m,
            entry,
            context,
        );
    } else if node.kind == "for_statement"@ {
        lemma_for_is_entered(node, code, n, m, entry);
    } else if node.kind == "do_statement"@ {
        lemma_do_is_entered(node, code, n, m, entry);
    } else if way_in(node, code) is At {
        let behind = drawn.edges.skip(entry.len() as int);
        assert(none + path_edges(entry, node_id(n)) + behind == drawn.edges);
        lemma_reach(none, entry, node_id(n), behind);
    }
}

/// As [`law_statement_is_entered`], of a `for`.
proof fn lemma_for_is_entered(
    node: Syntax,
    code: Seq<char>,
    n: nat,
    m: nat,
    entry: Seq<PathView>,
)
    ensures
        entered(for_statement(node, code, n, m, entry), n, entry, Way::At(0)),
{
    let drawn = for_statement(node, code, n, m, entry);
    let none = Seq::<EdgeView>::empty();
    let init = for_initializer(node, code, n, entry);
    let h = for_decision(node, code, n, entry);
    let behind = drawn.edges.skip(entry.len() as int);
    if init.nodes.len() == 0 {
        assert(init == pass(entry));
        assert(h == n);
    }
    assert(none + path_edges(entry, node_id(n)) + behind == drawn.edges);
    lemma_reach(none, entry, node_id(n), behind);
}

/// How a `do` is entered.
spec fn way_into_do(node: Syntax, code: Seq<char>) -> Way {
    match body_start(node.body, code, 0) {
        Some(k) => Way::At(k),
        None => Way::Away,
    }
}

/// As [`law_statement_is_entered`], of a `do`.
proof fn lemma_do_is_entered(
    node: Syntax,
    code: Seq<char>,
    n: nat,
    m: nat,
    entry: Seq<PathView>,
)
    ensures
        entered(do_statement(node, code, n, m, entry), n, entry, way_into_do(node, code)),
    decreases node, 0nat,
{
    let drawn = do_statement(node, code, n, m, entry);
    let around = ContextView { header_id: node_id(n + 1), break_sink_id: node_id(n) };
    let body = optional_statement(node.body, code, n + 2, m, entry, Some(around));
    let back = path_edges(body.exits, node_id(n + 1));
    let behind = repeat_edges(body_start(node.body, code, n), n + 2 + body.nodes.len());
    assert(body.edges + back + behind == drawn.edges);
    assert(body.edges + (back + behind) == drawn.edges);
    assert(drawn.nodes.len() == 3 + body.nodes.len());
    if let Some(b) = node.body {
        law_statement_is_entered(*b, code, n + 2, m, entry, Some(around));
        match way_in(*b, code) {
            Way::Through => {
                lemma_reach(body.edges, entry, node_id(n + 1), behind);
            },
            Way::At(k) => {
                lemma_still_reach(body.edges, back + behind, entry, node_id(n + 2 + k));
            },
            Way::Away => {},
        }
    }
}

/// As [`law_statement_is_entered`], of a list of statements.
pub(crate) proof fn lemma_sequence_is_entered(
    nodes: Seq<Syntax>,
    k: nat,
    omitted: Omitted,
    code: Seq<char>,
    n: nat,
    m: nat,
    entry: Seq<PathView>,
    context: Option<ContextView>,
)
    ensures
        entered(
            sequence(nodes, k, omitted, code, n, m, entry, context),
            n,
            entry,
            way_into(nodes, k, omitted, code),
        ),
    decreases nodes, k,
{
    if 0 < k <= nodes.len() {
        let drawn = sequence(nodes, k, omitted, code, n, m, entry, context);
        let before = sequence(nodes, (k - 1) as nat, omitted, code, n, m, entry, context);
        lemma_sequence_is_entered(
            nodes,
            (k - 1) as nat,
            omitted,
            code,
            n,
            m,
            entry,
            context,
        );
        if !omits(omitted, nodes[k - 1].kind) {
            let now = statement(
                nodes[k - 1],
                code,
                n + before.nodes.len(),
                m + before.jumps.len(),
                before.exits,
                context,
            );
            match way_into(nodes, (k - 1) as nat, omitted, code) {
                Way::Through => {
                    law_statement_is_entered(nodes[k - 1], code, n, m, entry, context);
                    assert(drawn.nodes == now.nodes);
                    assert(drawn.edges == now.edges);
                    assert(drawn.jumps == now.jumps);
                },
                Way::At(j) => {
                    lemma_still_reach(before.edges, now.edges, entry, node_id(n + j));
                },
                Way::Away => {},
            }
        }
    }
}

/// What a list is entered by does not depend on what follows.
pub(crate) proof fn lemma_way_found(
    nodes: Seq<Syntax>,
    j: nat,
    k: nat,
    omitted: Omitted,
    code: Seq<char>,
)
    requires
        j <= k <= nodes.len(),
        way_into(nodes, j, omitted, code) !is Through,
    ensures
        way_into(nodes, k, omitted, code) == way_into(nodes, j, omitted, code),
    decreases k,
{
    if j < k {
        lemma_way_found(nodes, j, (k - 1) as nat, omitted, code);
    }
}

/// The body of a `do` starts at one of the nodes of the `do`.
pub(crate) proof fn lemma_body_start(
    node: Syntax,
    code: Seq<char>,
    n: nat,
    m: nat,
    entry: Seq<PathView>,
)
    ensures
        body_start(node.body, code, n) matches Some(s) ==> n < s < n + do_statement(
            node,
            code,
            n,
            m,
            entry,
        ).nodes.len() - 1,
{
    let around = ContextView { header_id: node_id(n + 1), break_sink_id: node_id(n) };
    if let Some(b) = node.body {
        law_statement_is_entered(*b, code, n + 2, m, entry, Some(around));
    }
}

/// The `Yes` branch of a `do` repeats its body: it leads to a connector, from
/// there to the node at which the body is entered, and every path into the `do`
/// has an edge to this same node. Where the body draws nothing, this is the
/// decision.
pub proof fn law_do_repeats_its_body(
    node: Syntax,
    code: Seq<char>,
    n: nat,
    m: nat,
    entry: Seq<PathView>,
    context: Option<ContextView>,
)
    requires
        node.kind == "do_statement"@,
        body_start(node.body, code, n) is Some,
    ensures
        ({
            let drawn = statement(node, code, n, m, entry, context);
            let again = (n + drawn.nodes.len() - 1) as nat;
            let start = body_start(node.body, code, n)->0;
            let yes = (m + drawn.jumps.len() - 2) as nat;
            &&& drawn.nodes.last() == connector(again)
            &&& n < start < again
            &&& drawn.jumps.contains(jump(node_id(n + 1), node_id(again), "Yes"@, yes))
            &&& drawn.edges.contains(path_edge(plain_path(node_id(again)), node_id(start)))
            &&& reach(drawn.edges, entry, node_id(start))
        }),
{
    let drawn = statement(node, code, n, m, entry, context);
    let start = body_start(node.body, code, n)->0;
    let again = (n + drawn.nodes.len() - 1) as nat;
    lemma_branching_kinds(node.kind);
    lemma_body_start(node, code, n, m, entry);
    law_statement_is_entered(node, code, n, m, entry, context);
    let yes = (m + drawn.jumps.len() - 2) as nat;
    assert(drawn.jumps[drawn.jumps.len() - 2] == jump(
        node_id(n + 1),
        node_id(again),
        "Yes"@,
        yes,
    ));
    assert(drawn.edges.last() == path_edge(plain_path(node_id(again)), node_id(start)));
}

} // verus!
