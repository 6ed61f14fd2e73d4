//! Laws on loops: how they are entered, go round, and are left.
use crate::closure::{is_drawn, is_known, law_statement_closed, Outside};
use crate::composition::{lemma_branching_kinds, lemma_ending_kinds};
use crate::entry::law_statement_is_entered;
use crate::flow::{
    body_start, case_label, cases, clause_text, condition_text, do_statement, for_decision,
    for_head, for_initializer, for_statement, if_statement, is_skipped, labelled_path, omits,
    optional_statement, plain_path, repeat_edges, sequence, statement, switch_context,
    switch_statement, way_in, way_into, while_statement, Fragment, Omitted, Way,
};
use crate::graph::{
    jump, jumps_from, node_id, path_edge, path_edges, ContextView, EdgeView, PathView,
};
use crate::numbering::law_node_ids_differ;
use crate::statements::{joined, law_edges_of_paths, law_jumps_of_paths};
use crate::syntax::Syntax;
use crate::text::{trim_of, CharClass};
use crate::usage::{
    edges_at, ends_at, is_older, law_statement_uses_paths_once, lemma_counted_once,
    lemma_edges_at_concat, lemma_one_end, lemma_paths_used,
};
use vstd::prelude::*;

verus! {

/// The body of a loop, if there is one, drawn from number `n` on.
pub open spec fn body_drawn(
    node: Syntax,
    code: Seq<char>,
    n: nat,
    m: nat,
    entry: Seq<PathView>,
    around: ContextView,
) -> Fragment {
    match node.body {
        Some(b) => statement(*b, code, n, m, entry, Some(around)),
        None => Fragment {
            nodes: Seq::empty(),
            edges: Seq::empty(),
            jumps: Seq::empty(),
            exits: Seq::empty(),
        },
    }
}

/// A `while` begins with a decision under its condition, to which every path
/// leads under its own label, and a connector. The body runs from the decision
/// under `Yes`; in it `continue` leads to the decision and `break` to the
/// connector. Every path that the body leaves open goes back to the decision,
/// under its own label. Under `No` the decision leads to the connector, which
/// alone is left open.
pub proof fn law_while(node: Syntax, code: Seq<char>, n: nat, m: nat, entry: Seq<PathView>)
    ensures
        ({
            let drawn = while_statement(node, code, n, m, entry);
            let (header, exit) = (node_id(n), node_id(n + 1));
            let around = ContextView { header_id: header, break_sink_id: exit };
            let open_yes = seq![PathView { node_id: header, label: "Yes"@ }];
            let body = body_drawn(node, code, n + 2, m, open_yes, around);
            let back = body.jumps.len() as int;
            &&& drawn.nodes.len() == 2 + body.nodes.len()
            &&& drawn.nodes[0].id == header
            &&& drawn.nodes[0].label == condition_text(node.condition, code)
            &&& drawn.nodes[0].kind == "decision"@
            &&& drawn.nodes[1].id == exit
            &&& drawn.nodes[1].label == ""@
            &&& drawn.nodes[1].kind == "connector"@
            &&& drawn.nodes.skip(2) == body.nodes
            &&& drawn.edges.len() == entry.len() + body.edges.len()
            &&& joined(drawn.edges, 0, entry, header)
            &&& drawn.edges.skip(entry.len() as int) == body.edges
            &&& drawn.jumps.len() == back + body.exits.len() + 1
            &&& drawn.jumps.take(back) == body.jumps
            &&& joined(drawn.jumps, back, body.exits, header)
            &&& drawn.jumps.last().source == header
            &&& drawn.jumps.last().target == exit
            &&& drawn.jumps.last().label == "No"@
            &&& drawn.exits.len() == 1
            &&& drawn.exits[0].node_id == exit
            &&& drawn.exits[0].label == ""@
        }),
{
    let drawn = while_statement(node, code, n, m, entry);
    let (header, exit) = (node_id(n), node_id(n + 1));
    let around = ContextView { header_id: header, break_sink_id: exit };
    let open_yes = seq![PathView { node_id: header, label: "Yes"@ }];
    let body = body_drawn(node, code, n + 2, m, open_yes, around);
    let heads = path_edges(entry, header);
    let turns = jumps_from(body.exits, header, m + body.jumps.len());
    law_edges_of_paths(entry, header);
    law_jumps_of_paths(body.exits, header, m + body.jumps.len());
    assert forall|i: int| 0 <= i < entry.len() implies #[trigger] drawn.edges[0 + i]
        == heads[i] by {}
    assert forall|i: int| 0 <= i < body.exits.len() implies #[trigger] drawn.jumps[body.jumps.len()
        + i] == turns[i] by {}
    assert(drawn.jumps.take(body.jumps.len() as int) == body.jumps);
    assert(drawn.edges.skip(entry.len() as int) == body.edges);
}

/// A `for` begins with its first clause, unless that is blank or missing, then
/// its decision under the second clause, or under `true`, then a connector and
/// its third clause. Every path leads under its own label to the first of them
/// that is a statement or the decision, and the first clause to the decision.
/// The body runs from the decision under `Yes`; in it `continue` leads to the
/// decision and `break` to the connector. Every path that the body leaves open
/// goes, under its own label, to the third clause and from there to the
/// decision, or without a third clause to the decision. Under `No` the decision
/// leads to the connector, which alone is left open.
pub proof fn law_for(node: Syntax, code: Seq<char>, n: nat, m: nat, entry: Seq<PathView>)
    ensures
        ({
            let drawn = for_statement(node, code, n, m, entry);
            let first = match node.initializer {
                Some(i) => clause_text(*i, code),
                None => ""@,
            };
            let begins = node.initializer is Some && first.len() > 0;
            let h = if begins {
                n + 1
            } else {
                n
            };
            let (header, exit, renew) = (node_id(h), node_id(h + 1), node_id(h + 2));
            let at = (h - n) as int;
            let n_body = if node.update is Some {
                h + 3
            } else {
                h + 2
            };
            let around = ContextView { header_id: header, break_sink_id: exit };
            let open_yes = seq![PathView { node_id: header, label: "Yes"@ }];
            let body = body_drawn(node, code, n_body, m, open_yes, around);
            let back = body.jumps.len() as int;
            let behind = back + body.exits.len();
            &&& drawn.nodes.len() == n_body - n + body.nodes.len()
            &&& begins ==> {
                &&& drawn.nodes[0].id == node_id(n)
                &&& drawn.nodes[0].label == first
                &&& drawn.nodes[0].kind == "expression_statement"@
            }
            &&& drawn.nodes[at].id == header
            &&& drawn.nodes[at].label == (match node.condition {
                Some(c) => clause_text(*c, code),
                None => "true"@,
            })
            &&& drawn.nodes[at].kind == "decision"@
            &&& drawn.nodes[at + 1].id == exit
            &&& drawn.nodes[at + 1].label == ""@
            &&& drawn.nodes[at + 1].kind == "connector"@
            &&& node.update matches Some(u) ==> {
                &&& drawn.nodes[at + 2].id == renew
                &&& drawn.nodes[at + 2].label == trim_of(
                    crate::text::slice_of(code, u.start, u.end),
                    CharClass::WhiteSpace,
                )
                &&& drawn.nodes[at + 2].kind == "expression_statement"@
            }
            &&& drawn.nodes.skip(n_body - n) == body.nodes
            &&& joined(drawn.edges, 0, entry, node_id(n))
            &&& begins ==> {
                let e = drawn.edges[entry.len() as int];
                e.source == node_id(n) && e.target == header && e.label == ""@
            }
            &&& drawn.edges.len() == entry.len() + at + body.edges.len()
            &&& drawn.edges.skip(entry.len() + at) == body.edges
            &&& drawn.jumps.take(back) == body.jumps
            &&& node.body is None ==> drawn.jumps.len() == 1
            &&& node.body is Some && node.update is Some ==> {
                &&& drawn.jumps.len() == behind + 2
                &&& joined(drawn.jumps, back, body.exits, renew)
                &&& drawn.jumps[behind].source == renew
                &&& drawn.jumps[behind].target == header
                &&& drawn.jumps[behind].label == ""@
            }
            &&& node.body is Some && node.update is None ==> {
                &&& drawn.jumps.len() == behind + 1
                &&& joined(drawn.jumps, back, body.exits, header)
            }
            &&& drawn.jumps.last().source == header
            &&& drawn.jumps.last().target == exit
            &&& drawn.jumps.last().label == "No"@
            &&& drawn.exits.len() == 1
            &&& drawn.exits[0].node_id == exit
            &&& drawn.exits[0].label == ""@
        }),
{
    let drawn = for_statement(node, code, n, m, entry);
    let head = for_head(node, code, n, entry);
    let init = for_initializer(node, code, n, entry);
    let h = for_decision(node, code, n, entry);
    let (header, exit, renew) = (node_id(h), node_id(h + 1), node_id(h + 2));
    let around = ContextView { header_id: header, break_sink_id: exit };
    let open_yes = seq![PathView { node_id: header, label: "Yes"@ }];
    let n_body = n + head.nodes.len();
    let body = body_drawn(node, code, n_body, m, open_yes, around);
    let next = m + body.jumps.len();
    assert(head.exits == open_yes);
    assert(body == optional_statement(node.body, code, n_body, m, head.exits, Some(around)));
    law_edges_of_paths(entry, node_id(n));
    law_edges_of_paths(init.exits, header);
    law_jumps_of_paths(body.exits, header, next);
    law_jumps_of_paths(body.exits, renew, next);
    let heads = path_edges(entry, node_id(n));
    assert forall|i: int| 0 <= i < entry.len() implies #[trigger] drawn.edges[0 + i]
        == heads[i] by {}
    let to = if node.update is Some {
        renew
    } else {
        header
    };
    let turns = jumps_from(body.exits, to, next);
    if node.body is Some {
        assert forall|i: int| 0 <= i < body.exits.len() implies #[trigger] drawn.jumps[
        body.jumps.len() + i] == turns[i] by {}
    }
    assert(drawn.jumps.take(body.jumps.len() as int) == body.jumps);
    assert(drawn.edges.skip(entry.len() + (h - n)) == body.edges);
    assert(drawn.nodes.skip(n_body - n) == body.nodes);
}

/// A `do` begins with a connector and a decision under its condition. The body
/// runs from the paths that lead into the `do`; in it `continue` leads to the
/// decision and `break` to the connector. Every path that the body leaves open
/// leads to the decision, under its own label. Under `Yes` the decision leads to
/// a second connector, the last node, from which all further edges come; under
/// `No` to the first one, which alone is left open.
pub proof fn law_do(node: Syntax, code: Seq<char>, n: nat, m: nat, entry: Seq<PathView>)
    ensures
        ({
            let drawn = do_statement(node, code, n, m, entry);
            let (exit, header) = (node_id(n), node_id(n + 1));
            let around = ContextView { header_id: header, break_sink_id: exit };
            let body = body_drawn(node, code, n + 2, m, entry, around);
            let again = node_id(n + 2 + body.nodes.len());
            let (back, turn) = (body.edges.len() as int, body.jumps.len() as int);
            &&& drawn.nodes.len() == 3 + body.nodes.len()
            &&& drawn.nodes[0].id == exit
            &&& drawn.nodes[0].label == ""@
            &&& drawn.nodes[0].kind == "connector"@
            &&& drawn.nodes[1].id == header
            &&& drawn.nodes[1].label == condition_text(node.condition, code)
            &&& drawn.nodes[1].kind == "decision"@
            &&& drawn.nodes.subrange(2, drawn.nodes.len() - 1) == body.nodes
            &&& drawn.nodes.last().id == again
            &&& drawn.nodes.last().label == ""@
            &&& drawn.nodes.last().kind == "connector"@
            &&& drawn.edges.take(back) == body.edges
            &&& joined(drawn.edges, back, body.exits, header)
            &&& back + body.exits.len() <= drawn.edges.len() <= back + body.exits.len() + 1
            &&& forall|i: int|
                back + body.exits.len() <= i < drawn.edges.len() ==> {
                    &&& (#[trigger] drawn.edges[i]).source == again
                    &&& drawn.edges[i].label == ""@
                }
            &&& drawn.jumps.len() == turn + 2
            &&& drawn.jumps.take(turn) == body.jumps
            &&& drawn.jumps[turn].source == header
            &&& drawn.jumps[turn].target == again
            &&& drawn.jumps[turn].label == "Yes"@
            &&& drawn.jumps[turn + 1].source == header
            &&& drawn.jumps[turn + 1].target == exit
            &&& drawn.jumps[turn + 1].label == "No"@
            &&& drawn.exits.len() == 1
            &&& drawn.exits[0].node_id == exit
            &&& drawn.exits[0].label == ""@
        }),
{
    let drawn = do_statement(node, code, n, m, entry);
    let (exit, header) = (node_id(n), node_id(n + 1));
    let around = ContextView { header_id: header, break_sink_id: exit };
    let body = body_drawn(node, code, n + 2, m, entry, around);
    assert(body == optional_statement(node.body, code, n + 2, m, entry, Some(around)));
    let turns = path_edges(body.exits, header);
    law_edges_of_paths(body.exits, header);
    assert forall|i: int| 0 <= i < body.exits.len() implies #[trigger] drawn.edges[body.edges.len()
        + i] == turns[i] by {}
    assert(drawn.edges.take(body.edges.len() as int) == body.edges);
    assert(drawn.jumps.take(body.jumps.len() as int) == body.jumps);
    assert(drawn.nodes.subrange(2, drawn.nodes.len() - 1) == body.nodes);
}

/// Whether one of the edges leads from `from` to `to`.
pub open spec fn leads(edges: Seq<EdgeView>, from: Seq<char>, to: Seq<char>) -> bool {
    exists|i: int|
        0 <= i < edges.len() && (#[trigger] edges[i]).source == from && edges[i].target == to
}

/// Whether one of the jumps takes `path` to `to`, under its label.
pub open spec fn takes(jumps: Seq<EdgeView>, path: PathView, to: Seq<char>) -> bool {
    exists|i: int|
        0 <= i < jumps.len() && (#[trigger] jumps[i]).source == path.node_id && jumps[i].target
            == to && jumps[i].label == path.label
}

/// A statement that jumps away is left over none of its edges by the paths that
/// lead into it.
proof fn lemma_away(
    node: Syntax,
    code: Seq<char>,
    n: nat,
    m: nat,
    entry: Seq<PathView>,
    context: Option<ContextView>,
    id: Seq<char>,
)
    requires
        is_older(id, n),
        way_in(node, code) is Away,
    ensures
        ({
            let drawn = statement(node, code, n, m, entry, context);
            edges_at(drawn.edges, id) == 0 && ends_at(drawn.exits, id) == 0
        }),
    decreases node, 1nat,
{
    let len = node.children.len();
    if node.kind == "compound_statement"@ {
        lemma_list_away(
            node.children,
            len,
            Omitted::Nothing,
            code,
            n,
            m,
            entry,
            context,
            id,
        );
    } else if node.kind == "else_clause"@ {
        lemma_list_away(
            node.children,
            len,
            Omitted::ElseTokens,
            code,
            n,
            m,
            entry,
            context,
            id,
        );
    } else if node.kind == "break_statement"@ || node.kind == "continue_statement"@ {
        lemma_ending_kinds();
    } else {
        lemma_branching_kinds(node.kind);
        lemma_do_away(node, code, n, m, entry, id);
    }
}

/// As [`lemma_away`], of a `do`.
proof fn lemma_do_away(
    node: Syntax,
    code: Seq<char>,
    n: nat,
    m: nat,
    entry: Seq<PathView>,
    id: Seq<char>,
)
    requires
        is_older(id, n),
        body_start(node.body, code, n) is None,
    ensures
        ({
            let drawn = do_statement(node, code, n, m, entry);
            edges_at(drawn.edges, id) == 0 && ends_at(drawn.exits, id) == 0
        }),
    decreases node, 0nat,
{
    let drawn = do_statement(node, code, n, m, entry);
    let around = ContextView { header_id: node_id(n + 1), break_sink_id: node_id(n) };
    let body = optional_statement(node.body, code, n + 2, m, entry, Some(around));
    let back = path_edges(body.exits, node_id(n + 1));
    if let Some(b) = node.body {
        lemma_away(*b, code, n + 2, m, entry, Some(around), id);
    }
    lemma_paths_used(body.exits, node_id(n + 1), m, id);
    lemma_edges_at_concat(body.edges, back, id);
    lemma_one_end(plain_path(node_id(n)), id);
    assert(drawn.edges == body.edges + back);
}

/// As [`lemma_away`], of a list of statements.
proof fn lemma_list_away(
    nodes: Seq<Syntax>,
    k: nat,
    omitted: Omitted,
    code: Seq<char>,
    n: nat,
    m: nat,
    entry: Seq<PathView>,
    context: Option<ContextView>,
    id: Seq<char>,
)
    requires
        is_older(id, n),
        way_into(nodes, k, omitted, code) is Away,
    ensures
        ({
            let drawn = sequence(nodes, k, omitted, code, n, m, entry, context);
            edges_at(drawn.edges, id) == 0 && ends_at(drawn.exits, id) == 0
        }),
    decreases nodes, k,
{
    let before = sequence(nodes, (k - 1) as nat, omitted, code, n, m, entry, context);
    let (n_now, m_now) = (n + before.nodes.len(), m + before.jumps.len());
    let now = statement(nodes[k - 1], code, n_now, m_now, before.exits, context);
    match way_into(nodes, (k - 1) as nat, omitted, code) {
        Way::Through => {
            crate::entry::lemma_sequence_is_entered(
                nodes,
                (k - 1) as nat,
                omitted,
                code,
                n,
                m,
                entry,
                context,
            );
            lemma_away(nodes[k - 1], code, n, m, entry, context, id);
            lemma_edges_at_concat(before.edges, now.edges, id);
        },
        _ => {
            lemma_list_away(nodes, (k - 1) as nat, omitted, code, n, m, entry, context, id);
            if !omits(omitted, nodes[k - 1].kind) {
                law_statement_uses_paths_once(
                    nodes[k - 1],
                    code,
                    n_now,
                    m_now,
                    before.exits,
                    context,
                    id,
                );
                lemma_edges_at_concat(before.edges, now.edges, id);
            }
        },
    }
}

/// What leads on from the paths into a `do`: an edge to where its body starts.
proof fn lemma_do_entered_once(
    node: Syntax,
    code: Seq<char>,
    n: nat,
    m: nat,
    p: PathView,
    to: Seq<char>,
)
    requires
        is_older(p.node_id, n),
    ensures
        leads(do_statement(node, code, n, m, seq![p]).edges, p.node_id, to) <==> (body_start(
            node.body,
            code,
            n,
        ) matches Some(s) && to == node_id(s)),
{
    let entry = seq![p];
    let id = p.node_id;
    let drawn = do_statement(node, code, n, m, entry);
    let shell = Syntax { kind: "do_statement"@, ..node };
    lemma_one_end(p, id);
    lemma_branching_kinds("do_statement"@);
    assert(do_statement(shell, code, n, m, entry) == drawn);
    assert(statement(shell, code, n, m, entry, None) == drawn);
    match body_start(node.body, code, n) {
        Some(s) => {
            law_statement_uses_paths_once(shell, code, n, m, entry, None, id);
            law_statement_is_entered(shell, code, n, m, entry, None);
            assert(entry[0] == p);
            let e = path_edge(entry[0], node_id(s));
            assert(drawn.edges.contains(e));
            let i = choose|i: int| 0 <= i < drawn.edges.len() && drawn.edges[i] == e;
            assert(drawn.edges[i].source == id);
            lemma_counted_once(drawn.edges, id, i);
            if leads(drawn.edges, id, to) {
                let j = choose|j: int|
                    0 <= j < drawn.edges.len() && (#[trigger] drawn.edges[j]).source == id
                        && drawn.edges[j].target == to;
                assert(j == i);
            }
        },
        None => {
            lemma_do_away(node, code, n, m, entry, id);
            if leads(drawn.edges, id, to) {
                let j = choose|j: int|
                    0 <= j < drawn.edges.len() && (#[trigger] drawn.edges[j]).source == id
                        && drawn.edges[j].target == to;
                lemma_counted_once(drawn.edges, id, j);
            }
        },
    }
}

/// What leads on from the last connector of a `do`: an edge to where its body
/// starts.
proof fn lemma_do_repeated(
    node: Syntax,
    code: Seq<char>,
    n: nat,
    m: nat,
    entry: Seq<PathView>,
    to: Seq<char>,
)
    requires
        forall|i: int| 0 <= i < entry.len() ==> is_older((#[trigger] entry[i]).node_id, n),
    ensures
        ({
            let drawn = do_statement(node, code, n, m, entry);
            leads(drawn.edges, drawn.nodes.last().id, to) <==> (body_start(node.body, code, n)
                matches Some(s) && to == node_id(s))
        }),
{
    let drawn = do_statement(node, code, n, m, entry);
    let around = ContextView { header_id: node_id(n + 1), break_sink_id: node_id(n) };
    let body = optional_statement(node.body, code, n + 2, m, entry, Some(around));
    let again = n + 2 + body.nodes.len();
    let id = node_id(again);
    let back = path_edges(body.exits, node_id(n + 1));
    let repeat = repeat_edges(body_start(node.body, code, n), again);
    let outside = Outside {
        ends: Set::new(|x: Seq<char>| is_older(x, n)),
        targets: Set::new(|x: Seq<char>| true),
    };
    assert(is_drawn(id, n + 2, body.nodes.len()) ==> false) by {
        if is_drawn(id, n + 2, body.nodes.len()) {
            let j = choose|j: nat|
                n + 2 <= j < n + 2 + body.nodes.len() && id == #[trigger] node_id(j);
            law_node_ids_differ(j, again);
        }
    }
    assert(!is_older(id, n));
    if let Some(b) = node.body {
        law_statement_closed(*b, code, n + 2, m, entry, Some(around), outside);
    }
    assert forall|i: int| 0 <= i < body.edges.len() implies (#[trigger] body.edges[i]).source
        != id by {
        assert(is_known(body.edges[i].source, outside.ends, n + 2, body.nodes.len()));
    }
    assert forall|i: int| 0 <= i < body.exits.len() implies (#[trigger] body.exits[i]).node_id
        != id by {
        assert(is_known(body.exits[i].node_id, outside.ends, n + 2, body.nodes.len()));
    }
    assert(drawn.nodes.last().id == id);
    let front = (body.edges + back).len() as int;
    assert forall|i: int| 0 <= i < front implies (#[trigger] drawn.edges[i]).source != id by {
        if i < body.edges.len() {
            assert(drawn.edges[i] == body.edges[i]);
        } else {
            let j = i - body.edges.len();
            assert(drawn.edges[i] == path_edge(body.exits[j], node_id(n + 1)));
            assert(body.exits[j].node_id != id);
        }
    }
    if let Some(s) = body_start(node.body, code, n) {
        assert(drawn.edges[front] == repeat[0]);
        assert(drawn.edges[front].source == id);
        assert(drawn.edges[front].target == node_id(s));
    }
    if leads(drawn.edges, id, to) {
        let j = choose|j: int|
            0 <= j < drawn.edges.len() && (#[trigger] drawn.edges[j]).source == id
                && drawn.edges[j].target == to;
        assert(j >= front);
        assert(drawn.edges[j] == repeat[j - front]);
    }
}

/// A `do` is repeated exactly where it is entered: its last connector, to which
/// `Yes` leads, has an edge to the very nodes to which any path into the `do` has
/// one, however many paths lead into it.
pub proof fn law_do_is_repeated_where_it_is_entered(
    node: Syntax,
    code: Seq<char>,
    n: nat,
    m: nat,
    entry: Seq<PathView>,
    other_m: nat,
    path: PathView,
    to: Seq<char>,
)
    requires
        forall|i: int| 0 <= i < entry.len() ==> is_older((#[trigger] entry[i]).node_id, n),
        is_older(path.node_id, n),
    ensures
        ({
            let drawn = do_statement(node, code, n, m, entry);
            let other = do_statement(node, code, n, other_m, seq![path]);
            leads(drawn.edges, drawn.nodes.last().id, to) <==> leads(
                other.edges,
                path.node_id,
                to,
            )
        }),
{
    lemma_do_repeated(node, code, n, m, entry, to);
    lemma_do_entered_once(node, code, n, other_m, path, to);
}

/// Whether `path` is one of those that come to a statement of kind `wanted`, a
/// `break` or a `continue`, in `node`: outside the loops in it, and for a
/// `break` outside each `switch` too.
pub open spec fn comes_to(
    node: Syntax,
    code: Seq<char>,
    n: nat,
    m: nat,
    entry: Seq<PathView>,
    context: Option<ContextView>,
    wanted: Seq<char>,
    path: PathView,
) -> bool
    decreases node, 1nat,
{
    if node.kind == wanted {
        entry.contains(path)
    } else if node.kind == "compound_statement"@ {
        comes_to_one(
            node.children,
            node.children.len(),
            Omitted::Nothing,
            code,
            n,
            m,
            entry,
            context,
            wanted,
            path,
        )
    } else if node.kind == "else_clause"@ {
        comes_to_one(
            node.children,
            node.children.len(),
            Omitted::ElseTokens,
            code,
            n,
            m,
            entry,
            context,
            wanted,
            path,
        )
    } else if node.kind == "if_statement"@ {
        let open_yes = seq![PathView { node_id: node_id(n), label: "Yes"@ }];
        let open_no = seq![PathView { node_id: node_id(n), label: "No"@ }];
        let yes = optional_statement(node.consequence, code, n + 1, m, open_yes, context);
        ||| (node.consequence matches Some(s) && comes_to(
            *s,
            code,
            n + 1,
            m,
            open_yes,
            context,
            wanted,
            path,
        ))
        ||| (node.alternative matches Some(s) && comes_to(
            *s,
            code,
            n + 1 + yes.nodes.len(),
            m + yes.jumps.len(),
            open_no,
            context,
            wanted,
            path,
        ))
    } else if node.kind == "switch_statement"@ && wanted == "continue_statement"@ {
        match node.body {
            Some(b) => comes_to_case(
                b.children,
                b.children.len(),
                code,
                n + 2,
                m,
                node_id(n),
                ContextView {
                    header_id: match context {
                        Some(c) => c.header_id,
                        None => node_id(n),
                    },
                    break_sink_id: node_id(n + 1),
                },
                path,
            ),
            None => false,
        }
    } else {
        false
    }
}

/// As [`comes_to`], in one of the first `k` of `nodes`.
pub open spec fn comes_to_one(
    nodes: Seq<Syntax>,
    k: nat,
    omitted: Omitted,
    code: Seq<char>,
    n: nat,
    m: nat,
    entry: Seq<PathView>,
    context: Option<ContextView>,
    wanted: Seq<char>,
    path: PathView,
) -> bool
    decreases nodes, k,
{
    if k == 0 || k > nodes.len() {
        false
    } else {
        let before = sequence(nodes, (k - 1) as nat, omitted, code, n, m, entry, context);
        ||| comes_to_one(
            nodes,
            (k - 1) as nat,
            omitted,
            code,
            n,
            m,
            entry,
            context,
            wanted,
            path,
        )
        ||| (!omits(omitted, nodes[k - 1].kind) && comes_to(
            nodes[k - 1],
            code,
            n + before.nodes.len(),
            m + before.jumps.len(),
            before.exits,
            context,
            wanted,
            path,
        ))
    }
}

/// As [`comes_to`] of a `continue`, in one of the first `k` cases of a `switch`.
pub open spec fn comes_to_case(
    nodes: Seq<Syntax>,
    k: nat,
    code: Seq<char>,
    n: nat,
    m: nat,
    switch: Seq<char>,
    around: ContextView,
    path: PathView,
) -> bool
    decreases nodes, k,
{
    if k == 0 || k > nodes.len() {
        false
    } else {
        let before = cases(nodes, (k - 1) as nat, code, n, m, switch, around);
        let case = nodes[k - 1];
        ||| comes_to_case(nodes, (k - 1) as nat, code, n, m, switch, around, path)
        ||| (case.kind == "case_statement"@ && comes_to_one(
            case.children,
            case.children.len(),
            Omitted::CaseTokens,
            code,
            n + before.nodes.len(),
            m + before.jumps.len(),
            seq![labelled_path(switch, case_label(case, code))],
            Some(around),
            "continue_statement"@,
            path,
        ))
    }
}

/// What takes a path stays when jumps are added.
proof fn lemma_takes_concat(
    before: Seq<EdgeView>,
    jumps: Seq<EdgeView>,
    behind: Seq<EdgeView>,
    path: PathView,
    to: Seq<char>,
)
    requires
        takes(jumps, path, to),
    ensures
        takes(before + jumps + behind, path, to),
{
    let all = before + jumps + behind;
    let i = choose|i: int|
        0 <= i < jumps.len() && (#[trigger] jumps[i]).source == path.node_id && jumps[i].target
            == to && jumps[i].label == path.label;
    assert(all[before.len() + i] == jumps[i]);
}

/// Where the context takes a `break` or a `continue`.
pub open spec fn goal(c: ContextView, wanted: Seq<char>) -> Seq<char> {
    if wanted == "break_statement"@ {
        c.break_sink_id
    } else {
        c.header_id
    }
}

/// Every path that comes to a `break` or a `continue` is taken to where the
/// context says, however deep in blocks and branches it stands.
proof fn lemma_taken(
    node: Syntax,
    code: Seq<char>,
    n: nat,
    m: nat,
    entry: Seq<PathView>,
    c: ContextView,
    wanted: Seq<char>,
    path: PathView,
)
    requires
        wanted == "break_statement"@ || wanted == "continue_statement"@,
        comes_to(node, code, n, m, entry, Some(c), wanted, path),
    ensures
        takes(statement(node, code, n, m, entry, Some(c)).jumps, path, goal(c, wanted)),
    decreases node, 1nat,
{
    let drawn = statement(node, code, n, m, entry, Some(c));
    let len = node.children.len();
    lemma_ending_kinds();
    if node.kind == wanted {
        let i = choose|i: int| 0 <= i < entry.len() && entry[i] == path;
        assert(drawn.jumps[i] == jump(path.node_id, goal(c, wanted), path.label, m + i as nat));
    } else if node.kind == "compound_statement"@ {
        lemma_compound_kind(node.kind);
        let omitted = Omitted::Nothing;
        lemma_one_taken(node.children, len, omitted, code, n, m, entry, c, wanted, path);
    } else if node.kind == "else_clause"@ {
        lemma_compound_kind(node.kind);
        let omitted = Omitted::ElseTokens;
        lemma_one_taken(node.children, len, omitted, code, n, m, entry, c, wanted, path);
    } else if node.kind == "if_statement"@ {
        lemma_branching_kinds(node.kind);
        lemma_branch_taken(node, code, n, m, entry, c, wanted, path);
    } else {
        lemma_branching_kinds(node.kind);
        let around = switch_context(Some(c), node_id(n), node_id(n + 1));
        let list = node.body->0.children;
        lemma_case_taken(list, list.len(), code, n + 2, m, node_id(n), around, path);
        lemma_ending_kinds();
        reveal_strlit("continue_statement");
    }
}

/// Blocks and `else` clauses are drawn by their parts.
pub(crate) proof fn lemma_compound_kind(kind: Seq<char>)
    requires
        kind == "compound_statement"@ || kind == "else_clause"@,
    ensures
        !is_skipped(kind),
        kind != "declaration"@,
        "compound_statement"@ != "else_clause"@,
{
    lemma_ending_kinds();
    reveal_strlit("else_clause");
    reveal_strlit("compound_statement");
    reveal_strlit("declaration");
    assert("else_clause"@[0] == 'e');
    assert("declaration"@[0] == 'd');
    assert("compound_statement"@[0] == 'c');
    if is_skipped(kind) {
        crate::composition::lemma_skipped_kinds(kind);
    }
}

/// As [`lemma_taken`], of an `if`.
proof fn lemma_branch_taken(
    node: Syntax,
    code: Seq<char>,
    n: nat,
    m: nat,
    entry: Seq<PathView>,
    c: ContextView,
    wanted: Seq<char>,
    path: PathView,
)
    requires
        wanted == "break_statement"@ || wanted == "continue_statement"@,
        node.kind == "if_statement"@,
        node.kind != wanted,
        comes_to(node, code, n, m, entry, Some(c), wanted, path),
    ensures
        takes(if_statement(node, code, n, m, entry, Some(c)).jumps, path, goal(c, wanted)),
    decreases node, 0nat,
{
    let drawn = if_statement(node, code, n, m, entry, Some(c));
    let open_yes = seq![PathView { node_id: node_id(n), label: "Yes"@ }];
    let open_no = seq![PathView { node_id: node_id(n), label: "No"@ }];
    let yes = optional_statement(node.consequence, code, n + 1, m, open_yes, Some(c));
    let (n_no, m_no) = (n + 1 + yes.nodes.len(), m + yes.jumps.len());
    let no = optional_statement(node.alternative, code, n_no, m_no, open_no, Some(c));
    let none = Seq::<EdgeView>::empty();
    let to = goal(c, wanted);
    lemma_branching_kinds(node.kind);
    assert(none + yes.jumps + no.jumps == drawn.jumps);
    assert(yes.jumps + no.jumps + none == drawn.jumps);
    if node.consequence is Some && comes_to(
        *node.consequence->0,
        code,
        n + 1,
        m,
        open_yes,
        Some(c),
        wanted,
        path,
    ) {
        lemma_taken(*node.consequence->0, code, n + 1, m, open_yes, c, wanted, path);
        lemma_takes_concat(none, yes.jumps, no.jumps, path, to);
    } else {
        lemma_taken(*node.alternative->0, code, n_no, m_no, open_no, c, wanted, path);
        lemma_takes_concat(yes.jumps, no.jumps, none, path, to);
    }
}

/// As [`lemma_taken`], of a list of statements.
proof fn lemma_one_taken(
    nodes: Seq<Syntax>,
    k: nat,
    omitted: Omitted,
    code: Seq<char>,
    n: nat,
    m: nat,
    entry: Seq<PathView>,
    c: ContextView,
    wanted: Seq<char>,
    path: PathView,
)
    requires
        wanted == "break_statement"@ || wanted == "continue_statement"@,
        comes_to_one(nodes, k, omitted, code, n, m, entry, Some(c), wanted, path),
    ensures
        takes(
            sequence(nodes, k, omitted, code, n, m, entry, Some(c)).jumps,
            path,
            goal(c, wanted),
        ),
    decreases nodes, k,
{
    let before = sequence(nodes, (k - 1) as nat, omitted, code, n, m, entry, Some(c));
    let (n_now, m_now) = (n + before.nodes.len(), m + before.jumps.len());
    let now = statement(nodes[k - 1], code, n_now, m_now, before.exits, Some(c));
    let drawn = sequence(nodes, k, omitted, code, n, m, entry, Some(c));
    let none = Seq::<EdgeView>::empty();
    let to = goal(c, wanted);
    if comes_to_one(
        nodes,
        (k - 1) as nat,
        omitted,
        code,
        n,
        m,
        entry,
        Some(c),
        wanted,
        path,
    ) {
        lemma_one_taken(
            nodes,
            (k - 1) as nat,
            omitted,
            code,
            n,
            m,
            entry,
            c,
            wanted,
            path,
        );
        if !omits(omitted, nodes[k - 1].kind) {
            assert(none + before.jumps + now.jumps == drawn.jumps);
            lemma_takes_concat(none, before.jumps, now.jumps, path, to);
        }
    } else {
        lemma_taken(nodes[k - 1], code, n_now, m_now, before.exits, c, wanted, path);
        assert(before.jumps + now.jumps + none == drawn.jumps);
        lemma_takes_concat(before.jumps, now.jumps, none, path, to);
    }
}

/// As [`lemma_taken`] of a `continue`, of the cases of a `switch`.
proof fn lemma_case_taken(
    nodes: Seq<Syntax>,
    k: nat,
    code: Seq<char>,
    n: nat,
    m: nat,
    switch: Seq<char>,
    around: ContextView,
    path: PathView,
)
    requires
        comes_to_case(nodes, k, code, n, m, switch, around, path),
    ensures
        takes(cases(nodes, k, code, n, m, switch, around).jumps, path, around.header_id),
    decreases nodes, k,
{
    let drawn = cases(nodes, k, code, n, m, switch, around);
    let before = cases(nodes, (k - 1) as nat, code, n, m, switch, around);
    let case = nodes[k - 1];
    let wanted = "continue_statement"@;
    let entry = seq![labelled_path(switch, case_label(case, code))];
    let (n_now, m_now) = (n + before.nodes.len(), m + before.jumps.len());
    let len = case.children.len();
    let tokens = Omitted::CaseTokens;
    let body = sequence(case.children, len, tokens, code, n_now, m_now, entry, Some(around));
    let out = jumps_from(body.exits, around.break_sink_id, m_now + body.jumps.len());
    let none = Seq::<EdgeView>::empty();
    let to = around.header_id;
    lemma_ending_kinds();
    if comes_to_case(nodes, (k - 1) as nat, code, n, m, switch, around, path) {
        lemma_case_taken(nodes, (k - 1) as nat, code, n, m, switch, around, path);
        if case.kind == "case_statement"@ {
            assert(none + before.jumps + (body.jumps + out) == drawn.jumps);
            lemma_takes_concat(none, before.jumps, body.jumps + out, path, to);
        }
    } else {
        lemma_one_taken(
            case.children,
            len,
            tokens,
            code,
            n_now,
            m_now,
            entry,
            around,
            wanted,
            path,
        );
        lemma_takes_concat(before.jumps, body.jumps, out, path, to);
    }
}

/// The jumps of a body are among those of its loop.
proof fn lemma_body_taken(
    body: Fragment,
    drawn: Fragment,
    path: PathView,
    to: Seq<char>,
)
    requires
        takes(body.jumps, path, to),
        body.jumps.len() <= drawn.jumps.len(),
        drawn.jumps.take(body.jumps.len() as int) == body.jumps,
    ensures
        takes(drawn.jumps, path, to),
{
    let none = Seq::<EdgeView>::empty();
    let behind = drawn.jumps.skip(body.jumps.len() as int);
    assert(none + body.jumps + behind == drawn.jumps);
    lemma_takes_concat(none, body.jumps, behind, path, to);
}

/// As [`lemma_taken`], of a loop that holds the jumps of its body.
proof fn lemma_jumps_in_body(
    node: Syntax,
    code: Seq<char>,
    n: nat,
    m: nat,
    entry: Seq<PathView>,
    around: ContextView,
    drawn: Fragment,
    path: PathView,
)
    requires
        node.body is Some,
        body_drawn(node, code, n, m, entry, around).jumps.len() <= drawn.jumps.len(),
        drawn.jumps.take(body_drawn(node, code, n, m, entry, around).jumps.len() as int)
            == body_drawn(node, code, n, m, entry, around).jumps,
    ensures
        comes_to(*node.body->0, code, n, m, entry, Some(around), "break_statement"@, path)
            ==> takes(drawn.jumps, path, around.break_sink_id),
        comes_to(*node.body->0, code, n, m, entry, Some(around), "continue_statement"@, path)
            ==> takes(drawn.jumps, path, around.header_id),
{
    let b = *node.body->0;
    let body = body_drawn(node, code, n, m, entry, around);
    let (brk, cont) = ("break_statement"@, "continue_statement"@);
    lemma_ending_kinds();
    if comes_to(b, code, n, m, entry, Some(around), brk, path) {
        lemma_taken(b, code, n, m, entry, around, brk, path);
        lemma_body_taken(body, drawn, path, around.break_sink_id);
    }
    if comes_to(b, code, n, m, entry, Some(around), cont, path) {
        lemma_taken(b, code, n, m, entry, around, cont, path);
        lemma_body_taken(body, drawn, path, around.header_id);
    }
}

/// Whether a loop takes `path` where it should, if the path comes to a `break` or
/// a `continue` in the body: from a `break` to the very node that the loop leaves
/// open, from a `continue` to the decision of the loop, which leaves it under
/// `No`.
pub open spec fn jumps_rightly(
    drawn: Fragment,
    body: Syntax,
    code: Seq<char>,
    n: nat,
    m: nat,
    entry: Seq<PathView>,
    around: ContextView,
    path: PathView,
) -> bool {
    &&& comes_to(body, code, n, m, entry, Some(around), "break_statement"@, path) ==> takes(
        drawn.jumps,
        path,
        drawn.exits[0].node_id,
    )
    &&& comes_to(body, code, n, m, entry, Some(around), "continue_statement"@, path) ==> takes(
        drawn.jumps,
        path,
        drawn.jumps.last().source,
    )
}

/// In a `while` every path that comes to a `break`, however deep in the body but
/// outside inner loops and each `switch`, is taken under its label to the very
/// node that the loop leaves open, and every path that comes to a `continue`
/// outside inner loops to the decision of the loop.
pub proof fn law_jumps_in_while(
    node: Syntax,
    code: Seq<char>,
    n: nat,
    m: nat,
    entry: Seq<PathView>,
    path: PathView,
)
    requires
        node.body is Some,
    ensures
        jumps_rightly(
            while_statement(node, code, n, m, entry),
            *node.body->0,
            code,
            n + 2,
            m,
            seq![PathView { node_id: node_id(n), label: "Yes"@ }],
            ContextView { header_id: node_id(n), break_sink_id: node_id(n + 1) },
            path,
        ),
{
    let drawn = while_statement(node, code, n, m, entry);
    let around = ContextView { header_id: node_id(n), break_sink_id: node_id(n + 1) };
    let open_yes = seq![PathView { node_id: node_id(n), label: "Yes"@ }];
    law_while(node, code, n, m, entry);
    lemma_jumps_in_body(node, code, n + 2, m, open_yes, around, drawn, path);
}

/// As [`law_jumps_in_while`], of a `for` whose decision has the number `h` and
/// whose body is numbered from `k` on.
pub proof fn law_jumps_in_for(
    node: Syntax,
    code: Seq<char>,
    n: nat,
    m: nat,
    entry: Seq<PathView>,
    h: nat,
    k: nat,
    path: PathView,
)
    requires
        node.body is Some,
        h == n + if node.initializer is Some && clause_text(*node.initializer->0, code).len() > 0 {
            1nat
        } else {
            0
        },
        k == h + if node.update is Some {
            3nat
        } else {
            2
        },
    ensures
        jumps_rightly(
            for_statement(node, code, n, m, entry),
            *node.body->0,
            code,
            k,
            m,
            seq![PathView { node_id: node_id(h), label: "Yes"@ }],
            ContextView { header_id: node_id(h), break_sink_id: node_id(h + 1) },
            path,
        ),
{
    let drawn = for_statement(node, code, n, m, entry);
    let around = ContextView { header_id: node_id(h), break_sink_id: node_id(h + 1) };
    let open_yes = seq![PathView { node_id: node_id(h), label: "Yes"@ }];
    law_for(node, code, n, m, entry);
    lemma_jumps_in_body(node, code, k, m, open_yes, around, drawn, path);
}

/// As [`law_jumps_in_while`], of a `do`.
pub proof fn law_jumps_in_do(
    node: Syntax,
    code: Seq<char>,
    n: nat,
    m: nat,
    entry: Seq<PathView>,
    path: PathView,
)
    requires
        node.body is Some,
    ensures
        jumps_rightly(
            do_statement(node, code, n, m, entry),
            *node.body->0,
            code,
            n + 2,
            m,
            entry,
            ContextView { header_id: node_id(n + 1), break_sink_id: node_id(n) },
            path,
        ),
{
    let drawn = do_statement(node, code, n, m, entry);
    let around = ContextView { header_id: node_id(n + 1), break_sink_id: node_id(n) };
    law_do(node, code, n, m, entry);
    lemma_jumps_in_body(node, code, n + 2, m, entry, around, drawn, path);
}

} // verus!
