//! Laws on single statements: what each kind of statement adds, path by path.
use crate::composition::{
    law_sequence_splits, lemma_branching_kinds, lemma_ending_kinds, lemma_skipped_kinds,
};
use crate::flow::{
    case_label, cases, clause_text, condition_text, connector, do_statement, for_statement, grown,
    if_statement, is_skipped, labelled_path, omits, pass, sequence, statement, switch_context,
    switch_statement, text_of, while_statement, Fragment, Omitted,
};
use crate::graph::{
    jump, jumps_from, node_id, path_edge, path_edges, with_edges, with_id, with_jump, with_jumps,
    with_node, ContextView, EdgeView, GraphView, PathView,
};
use crate::syntax::Syntax;
use crate::text::{law_class_characters, law_trim, lemma_trim_end, trim_end_of, trim_of, CharClass};
use vstd::prelude::*;

verus! {

/// Whether the edges from index `at` on join `paths`, one by one and under their
/// labels, to the node `to`.
pub open spec fn joined(
    edges: Seq<EdgeView>,
    at: int,
    paths: Seq<PathView>,
    to: Seq<char>,
) -> bool {
    &&& 0 <= at
    &&& at + paths.len() <= edges.len()
    &&& forall|i: int|
        0 <= i < paths.len() ==> {
            &&& (#[trigger] edges[at + i]).source == paths[i].node_id
            &&& edges[at + i].target == to
            &&& edges[at + i].label == paths[i].label
        }
}

/// An edge of a path joins its ends under the label of the path, and is named
/// after both ends; a list of paths has one edge for each, in order.
pub proof fn law_edges_of_paths(paths: Seq<PathView>, to: Seq<char>)
    ensures
        path_edges(paths, to).len() == paths.len(),
        joined(path_edges(paths, to), 0, paths, to),
        forall|i: int|
            0 <= i < paths.len() ==> (#[trigger] path_edges(paths, to)[i]).id == "e-"@
                + paths[i].node_id + "-"@ + to,
        forall|p: PathView|
            #![trigger path_edge(p, to)]
            path_edge(p, to) == (EdgeView {
                id: "e-"@ + p.node_id + "-"@ + to,
                source: p.node_id,
                target: to,
                label: p.label,
            }),
{
}

/// A jump joins its ends under its label, and is named after both ends and its
/// number; a list of paths has one jump for each, in order.
pub proof fn law_jumps_of_paths(paths: Seq<PathView>, to: Seq<char>, m: nat)
    ensures
        jumps_from(paths, to, m).len() == paths.len(),
        joined(jumps_from(paths, to, m), 0, paths, to),
        forall|i: int|
            0 <= i < paths.len() ==> #[trigger] jumps_from(paths, to, m)[i] == jump(
                paths[i].node_id,
                to,
                paths[i].label,
                m + i as nat,
            ),
        forall|s: Seq<char>, l: Seq<char>|
            #![trigger jump(s, to, l, m)]
            jump(s, to, l, m) == (EdgeView {
                id: "x-"@ + s + "-"@ + to + "-"@ + crate::text::decimal(m),
                source: s,
                target: to,
                label: l,
            }),
{
}

/// The id of a node is `node-` before its number.
pub proof fn law_node_id(n: nat)
    ensures
        node_id(n) == "node-"@ + crate::text::decimal(n),
{
}

/// What each call of a builder adds: an id is counted; a node is stored last,
/// under the id of the counter, with the label and the kind given; edges and
/// jumps come last, one for each path; and nothing else changes.
pub proof fn law_builder_steps(
    graph: GraphView,
    label: Seq<char>,
    kind: Seq<char>,
    paths: Seq<PathView>,
    source: Seq<char>,
    to: Seq<char>,
)
    ensures
        with_id(graph).id_counter == graph.id_counter + 1,
        with_id(graph).nodes == graph.nodes,
        with_id(graph).edges == graph.edges,
        with_id(graph).extra_edges == graph.extra_edges,
        ({
            let after = with_node(graph, label, kind);
            &&& after.id_counter == graph.id_counter + 1
            &&& after.nodes.len() == graph.nodes.len() + 1
            &&& after.nodes.drop_last() == graph.nodes
            &&& after.nodes.last().id == "node-"@ + crate::text::decimal(graph.id_counter)
            &&& after.nodes.last().label == label
            &&& after.nodes.last().kind == kind
            &&& after.edges == graph.edges
            &&& after.extra_edges == graph.extra_edges
        }),
        ({
            let after = with_edges(graph, paths, to);
            &&& after.id_counter == graph.id_counter
            &&& after.nodes == graph.nodes
            &&& after.edges.len() == graph.edges.len() + paths.len()
            &&& after.edges.take(graph.edges.len() as int) == graph.edges
            &&& joined(after.edges, graph.edges.len() as int, paths, to)
            &&& after.extra_edges == graph.extra_edges
        }),
        ({
            let after = with_jump(graph, source, to, label);
            &&& after.id_counter == graph.id_counter
            &&& after.nodes == graph.nodes
            &&& after.edges == graph.edges
            &&& after.extra_edges.len() == graph.extra_edges.len() + 1
            &&& after.extra_edges.drop_last() == graph.extra_edges
            &&& after.extra_edges.last().source == source
            &&& after.extra_edges.last().target == to
            &&& after.extra_edges.last().label == label
            &&& after.extra_edges.last().id == "x-"@ + source + "-"@ + to + "-"@
                + crate::text::decimal(graph.extra_edges.len())
        }),
        ({
            let after = with_jumps(graph, paths, to);
            &&& after.id_counter == graph.id_counter
            &&& after.nodes == graph.nodes
            &&& after.edges == graph.edges
            &&& after.extra_edges.len() == graph.extra_edges.len() + paths.len()
            &&& after.extra_edges.take(graph.extra_edges.len() as int) == graph.extra_edges
            &&& joined(after.extra_edges, graph.extra_edges.len() as int, paths, to)
        }),
{
    law_edges_of_paths(paths, to);
    law_jumps_of_paths(paths, to, graph.extra_edges.len());
    let jumps = with_jumps(graph, paths, to).extra_edges;
    let edges = with_edges(graph, paths, to).edges;
    assert forall|i: int| 0 <= i < paths.len() implies {
        &&& (#[trigger] edges[graph.edges.len() + i]).source == paths[i].node_id
        &&& edges[graph.edges.len() + i].target == to
        &&& edges[graph.edges.len() + i].label == paths[i].label
    } by {
        assert(edges[graph.edges.len() + i] == path_edges(paths, to)[i]);
    }
    assert forall|i: int| 0 <= i < paths.len() implies {
        &&& (#[trigger] jumps[graph.extra_edges.len() + i]).source == paths[i].node_id
        &&& jumps[graph.extra_edges.len() + i].target == to
        &&& jumps[graph.extra_edges.len() + i].label == paths[i].label
    } by {
        assert(jumps[graph.extra_edges.len() + i] == jumps_from(
            paths,
            to,
            graph.extra_edges.len(),
        )[i]);
    }
    assert(with_node(graph, label, kind).nodes.drop_last() == graph.nodes);
    assert(with_jump(graph, source, to, label).extra_edges.drop_last() == graph.extra_edges);
}

/// Drawing a fragment appends what it holds and nothing else, and numbers as
/// many nodes as it has.
pub proof fn law_growing_appends(graph: GraphView, f: Fragment)
    ensures
        grown(graph, f).nodes == graph.nodes + f.nodes,
        grown(graph, f).edges == graph.edges + f.edges,
        grown(graph, f).extra_edges == graph.extra_edges + f.jumps,
        grown(graph, f).id_counter == graph.id_counter + f.nodes.len(),
{
}

/// One fragment after another: the parts of the first before those of the
/// second, and the open ends of the second. Where nothing is drawn, the open ends
/// stay.
pub proof fn law_fragments_append(f: Fragment, g: Fragment, entry: Seq<PathView>)
    ensures
        f.then_draw(g).nodes == f.nodes + g.nodes,
        f.then_draw(g).edges == f.edges + g.edges,
        f.then_draw(g).jumps == f.jumps + g.jumps,
        f.then_draw(g).exits == g.exits,
        pass(entry).nodes.len() == 0,
        pass(entry).edges.len() == 0,
        pass(entry).jumps.len() == 0,
        pass(entry).exits == entry,
{
}

/// The label of a decision is the text of the condition without the parentheses
/// and spaces at its ends: what is cut off are these three characters and nothing
/// else, and none of them is left at either end.
pub proof fn law_condition_text(node: Syntax, code: Seq<char>)
    ensures
        ({
            let text = crate::text::slice_of(code, node.start, node.end);
            let label = condition_text(Some(Box::new(node)), code);
            &&& label == trim_of(text, CharClass::Bracketing)
            &&& exists|a: int, b: int|
                0 <= a <= b <= text.len() && label == #[trigger] text.subrange(a, b) && (forall|
                    i: int,
                |
                    (0 <= i < a || b <= i < text.len()) ==> (#[trigger] text[i]) == '(' || text[i]
                        == ')' || text[i] == ' ')
            &&& label.len() > 0 ==> {
                &&& label.first() != '('
                &&& label.first() != ')'
                &&& label.first() != ' '
                &&& label.last() != '('
                &&& label.last() != ')'
                &&& label.last() != ' '
            }
        }),
{
    law_cleaned_text(crate::text::slice_of(code, node.start, node.end));
}

/// What cleaning a condition leaves: the text without the parentheses and spaces
/// at its ends.
pub proof fn law_cleaned_text(text: Seq<char>)
    ensures
        ({
            let label = trim_of(text, CharClass::Bracketing);
            &&& exists|a: int, b: int|
                0 <= a <= b <= text.len() && label == #[trigger] text.subrange(a, b) && (forall|
                    i: int,
                |
                    (0 <= i < a || b <= i < text.len()) ==> (#[trigger] text[i]) == '(' || text[i]
                        == ')' || text[i] == ' ')
            &&& label.len() > 0 ==> {
                &&& label.first() != '('
                &&& label.first() != ')'
                &&& label.first() != ' '
                &&& label.last() != '('
                &&& label.last() != ')'
                &&& label.last() != ' '
            }
        }),
{
    let label = trim_of(text, CharClass::Bracketing);
    law_trim(text, CharClass::Bracketing);
    let (a, b) = choose|a: int, b: int|
        0 <= a <= b <= text.len() && label == #[trigger] text.subrange(a, b) && (forall|i: int|
            (0 <= i < a || b <= i < text.len()) ==> crate::text::in_class(
                CharClass::Bracketing,
                #[trigger] text[i],
            ));
    assert forall|i: int| (0 <= i < a || b <= i < text.len()) implies (#[trigger] text[i]) == '('
        || text[i] == ')' || text[i] == ' ' by {
        law_class_characters(text[i]);
    }
    assert(label == text.subrange(a, b));
    if label.len() > 0 {
        law_class_characters(label.first());
        law_class_characters(label.last());
    }
}

/// The text of a clause in the head of a `for`: semicolons are cut off its end,
/// no more than there are, and from what is left white space at both ends.
pub proof fn law_clause_text(node: Syntax, code: Seq<char>)
    ensures
        ({
            let text = crate::text::slice_of(code, node.start, node.end);
            exists|k: int|
                0 <= k <= text.len() && (forall|i: int|
                    k <= i < text.len() ==> (#[trigger] text[i]) == ';') && (k > 0 ==> text[k - 1]
                    != ';') && clause_text(node, code) == trim_of(
                    #[trigger] text.take(k),
                    CharClass::WhiteSpace,
                )
        }),
{
    let text = crate::text::slice_of(code, node.start, node.end);
    let k = lemma_trim_end(text, CharClass::Semicolon) as int;
    assert forall|i: int| k <= i < text.len() implies (#[trigger] text[i]) == ';' by {
        law_class_characters(text[i]);
    }
    if k > 0 {
        law_class_characters(text[k - 1]);
    }
    assert(trim_end_of(text, CharClass::Semicolon) == text.take(k));
}

/// The kinds of nodes that nothing is drawn for, and those that are left out of
/// an `else` clause and of a `case`.
pub proof fn law_kinds_left_out(kind: Seq<char>)
    ensures
        is_skipped(kind) <==> (kind == "{"@ || kind == "}"@ || kind == "comment"@ || kind == ";"@
            || kind == "\n"@ || kind == "preproc_include"@ || kind == "preproc_def"@),
        !omits(Omitted::Nothing, kind),
        omits(Omitted::ElseTokens, kind) <==> (kind == "else"@ || kind == "comment"@),
        omits(Omitted::CaseTokens, kind) <==> (kind == "case"@ || kind == "default"@ || kind
            == ":"@),
{
}

/// Whether nodes of this kind are drawn by their parts, or end paths.
pub open spec fn is_special(kind: Seq<char>) -> bool {
    ||| kind == "compound_statement"@
    ||| kind == "else_clause"@
    ||| kind == "return_statement"@
    ||| kind == "break_statement"@
    ||| kind == "continue_statement"@
    ||| kind == "if_statement"@
    ||| kind == "while_statement"@
    ||| kind == "for_statement"@
    ||| kind == "do_statement"@
    ||| kind == "switch_statement"@
}

/// A statement of any other kind is one node, with its own kind and its text in
/// the source for a label. Every path leads to it under its own label, and one
/// path leads on from it. A declaration is such a statement if its text holds an
/// `=`; else it draws nothing, as the kinds do that are skipped.
pub proof fn law_plain_statement(
    node: Syntax,
    code: Seq<char>,
    n: nat,
    m: nat,
    entry: Seq<PathView>,
    context: Option<ContextView>,
)
    requires
        !is_special(node.kind),
    ensures
        ({
            let drawn = statement(node, code, n, m, entry, context);
            let text = crate::text::slice_of(code, node.start, node.end);
            let skipped = node.kind == "{"@ || node.kind == "}"@ || node.kind == "comment"@
                || node.kind == ";"@ || node.kind == "\n"@ || node.kind == "preproc_include"@
                || node.kind == "preproc_def"@ || (node.kind == "declaration"@ && forall|i: int|
                0 <= i < text.len() ==> #[trigger] text[i] != '=');
            if skipped {
                &&& drawn.nodes.len() == 0
                &&& drawn.edges.len() == 0
                &&& drawn.jumps.len() == 0
                &&& drawn.exits == entry
            } else {
                &&& drawn.nodes.len() == 1
                &&& drawn.nodes[0].id == node_id(n)
                &&& drawn.nodes[0].label == text
                &&& drawn.nodes[0].kind == node.kind
                &&& drawn.edges.len() == entry.len()
                &&& joined(drawn.edges, 0, entry, node_id(n))
                &&& drawn.jumps.len() == 0
                &&& drawn.exits.len() == 1
                &&& drawn.exits[0].node_id == node_id(n)
                &&& drawn.exits[0].label == ""@
            }
        }),
{
    let text = text_of(node, code);
    law_edges_of_paths(entry, node_id(n));
    if text.contains('=') {
        let i = choose|i: int| 0 <= i < text.len() && text[i] == '=';
        assert(text[i] == '=');
    }
}

/// A `return` is one node, to which every path leads under its own label; no
/// path leads on. A `break` and a `continue` are no nodes: in a loop or a
/// `switch` every path jumps under its own label, from a `break` to the exit and
/// from a `continue` to the header; elsewhere the paths end.
pub proof fn law_ending_statements(
    node: Syntax,
    code: Seq<char>,
    n: nat,
    m: nat,
    entry: Seq<PathView>,
    context: Option<ContextView>,
)
    ensures
        ({
            let drawn = statement(node, code, n, m, entry, context);
            &&& node.kind == "return_statement"@ ==> {
                &&& drawn.nodes.len() == 1
                &&& drawn.nodes[0].id == node_id(n)
                &&& drawn.nodes[0].label == crate::text::slice_of(code, node.start, node.end)
                &&& drawn.nodes[0].kind == "return_statement"@
                &&& drawn.edges.len() == entry.len()
                &&& joined(drawn.edges, 0, entry, node_id(n))
                &&& drawn.jumps.len() == 0
                &&& drawn.exits.len() == 0
            }
            &&& (node.kind == "break_statement"@ || node.kind == "continue_statement"@) ==> {
                &&& drawn.nodes.len() == 0
                &&& drawn.edges.len() == 0
                &&& drawn.exits.len() == 0
                &&& context is None ==> drawn.jumps.len() == 0
                &&& context matches Some(c) ==> {
                    let to = if node.kind == "break_statement"@ {
                        c.break_sink_id
                    } else {
                        c.header_id
                    };
                    drawn.jumps.len() == entry.len() && joined(drawn.jumps, 0, entry, to)
                }
            }
        }),
{
    lemma_ending_kinds();
    law_edges_of_paths(entry, node_id(n));
    if let Some(c) = context {
        law_jumps_of_paths(entry, c.break_sink_id, m);
        law_jumps_of_paths(entry, c.header_id, m);
    }
}

/// The statements with parts of their own are drawn as such: by the kind of the
/// node alone, whatever stands around it.
pub proof fn law_branching_statements(
    node: Syntax,
    code: Seq<char>,
    n: nat,
    m: nat,
    entry: Seq<PathView>,
    context: Option<ContextView>,
)
    ensures
        ({
            let drawn = statement(node, code, n, m, entry, context);
            &&& node.kind == "if_statement"@ ==> drawn == if_statement(
                node,
                code,
                n,
                m,
                entry,
                context,
            )
            &&& node.kind == "while_statement"@ ==> drawn == while_statement(
                node,
                code,
                n,
                m,
                entry,
            )
            &&& node.kind == "for_statement"@ ==> drawn == for_statement(node, code, n, m, entry)
            &&& node.kind == "do_statement"@ ==> drawn == do_statement(node, code, n, m, entry)
            &&& node.kind == "switch_statement"@ ==> drawn == switch_statement(
                node,
                code,
                n,
                m,
                entry,
                context,
            )
        }),
{
    if node.kind == "if_statement"@ || node.kind == "while_statement"@ || node.kind
        == "for_statement"@ || node.kind == "do_statement"@ || node.kind == "switch_statement"@ {
        lemma_branching_kinds(node.kind);
    }
}

/// Lists of statements: the empty list draws nothing, and one more statement is
/// drawn after the others, from the open ends that these leave.
pub proof fn law_lists_of_statements(
    nodes: Seq<Syntax>,
    last: Syntax,
    code: Seq<char>,
    n: nat,
    m: nat,
    entry: Seq<PathView>,
    context: Option<ContextView>,
)
    ensures
        ({
            let none = sequence(Seq::empty(), 0, Omitted::Nothing, code, n, m, entry, context);
            let before = sequence(
                nodes,
                nodes.len(),
                Omitted::Nothing,
                code,
                n,
                m,
                entry,
                context,
            );
            let all = sequence(
                nodes.push(last),
                nodes.len() + 1,
                Omitted::Nothing,
                code,
                n,
                m,
                entry,
                context,
            );
            let now = statement(
                last,
                code,
                n + before.nodes.len(),
                m + before.jumps.len(),
                before.exits,
                context,
            );
            &&& none.nodes.len() == 0
            &&& none.edges.len() == 0
            &&& none.jumps.len() == 0
            &&& none.exits == entry
            &&& all.nodes == before.nodes + now.nodes
            &&& all.edges == before.edges + now.edges
            &&& all.jumps == before.jumps + now.jumps
            &&& all.exits == now.exits
        }),
{
    let none = Omitted::Nothing;
    let before = sequence(nodes, nodes.len(), none, code, n, m, entry, context);
    let (n_now, m_now) = (n + before.nodes.len(), m + before.jumps.len());
    let one = sequence(seq![last], 1, none, code, n_now, m_now, before.exits, context);
    let now = statement(last, code, n_now, m_now, before.exits, context);
    law_sequence_splits(nodes, seq![last], none, code, n, m, entry, context);
    assert(nodes + seq![last] == nodes.push(last));
    reveal_with_fuel(sequence, 2);
    assert(one == pass(before.exits).then_draw(now));
    assert(one.nodes == now.nodes);
    assert(one.edges == now.edges);
    assert(one.jumps == now.jumps);
}

/// The nodes of a list that are not of the kinds `a`, `b` and `c`.
pub open spec fn without_kinds(
    nodes: Seq<Syntax>,
    k: nat,
    a: Seq<char>,
    b: Seq<char>,
    c: Seq<char>,
) -> Seq<Syntax>
    decreases k,
{
    if k == 0 || k > nodes.len() {
        Seq::empty()
    } else {
        let before = without_kinds(nodes, (k - 1) as nat, a, b, c);
        let kind = nodes[k - 1].kind;
        if kind == a || kind == b || kind == c {
            before
        } else {
            before.push(nodes[k - 1])
        }
    }
}

/// Leaving nodes out is drawing the list without them.
proof fn lemma_left_out(
    nodes: Seq<Syntax>,
    k: nat,
    omitted: Omitted,
    a: Seq<char>,
    b: Seq<char>,
    c: Seq<char>,
    code: Seq<char>,
    n: nat,
    m: nat,
    entry: Seq<PathView>,
    context: Option<ContextView>,
)
    requires
        k <= nodes.len(),
        forall|kind: Seq<char>| #[trigger]
            omits(omitted, kind) <==> (kind == a || kind == b || kind == c),
    ensures
        ({
            let rest = without_kinds(nodes, k, a, b, c);
            sequence(nodes, k, omitted, code, n, m, entry, context) == sequence(
                rest,
                rest.len(),
                Omitted::Nothing,
                code,
                n,
                m,
                entry,
                context,
            )
        }),
    decreases k,
{
    if k > 0 {
        let node = nodes[k - 1];
        lemma_left_out(nodes, (k - 1) as nat, omitted, a, b, c, code, n, m, entry, context);
        assert(omits(omitted, node.kind) <==> (node.kind == a || node.kind == b || node.kind
            == c));
        if !omits(omitted, node.kind) {
            let before = without_kinds(nodes, (k - 1) as nat, a, b, c);
            let all = sequence(
                before.push(node),
                before.len() + 1,
                Omitted::Nothing,
                code,
                n,
                m,
                entry,
                context,
            );
            let drawn = sequence(nodes, k, omitted, code, n, m, entry, context);
            law_lists_of_statements(before, node, code, n, m, entry, context);
            assert(all.nodes == drawn.nodes);
            assert(all.edges == drawn.edges);
            assert(all.jumps == drawn.jumps);
        }
    }
}

/// A block is drawn as the list of its statements, and an `else` clause as the
/// list of what it holds but the keyword and comments.
pub proof fn law_blocks_and_else_clauses(
    node: Syntax,
    code: Seq<char>,
    n: nat,
    m: nat,
    entry: Seq<PathView>,
    context: Option<ContextView>,
)
    ensures
        ({
            let drawn = statement(node, code, n, m, entry, context);
            let kept = without_kinds(
                node.children,
                node.children.len(),
                "else"@,
                "comment"@,
                "comment"@,
            );
            &&& node.kind == "compound_statement"@ ==> drawn == sequence(
                node.children,
                node.children.len(),
                Omitted::Nothing,
                code,
                n,
                m,
                entry,
                context,
            )
            &&& node.kind == "else_clause"@ ==> drawn == sequence(
                kept,
                kept.len(),
                Omitted::Nothing,
                code,
                n,
                m,
                entry,
                context,
            )
        }),
{
    lemma_ending_kinds();
    reveal_strlit("else_clause");
    reveal_strlit("compound_statement");
    reveal_strlit("declaration");
    assert("else_clause"@[0] == 'e');
    assert("declaration"@[0] == 'd');
    assert("compound_statement"@[0] == 'c');
    if is_skipped(node.kind) {
        lemma_skipped_kinds(node.kind);
    }
    lemma_left_out(
        node.children,
        node.children.len(),
        Omitted::ElseTokens,
        "else"@,
        "comment"@,
        "comment"@,
        code,
        n,
        m,
        entry,
        context,
    );
}

/// An `if` begins with a decision under its condition, to which every path leads
/// under its own label. The consequence is drawn from the decision under `Yes`
/// and the alternative, after it, from the decision under `No`, both in the
/// context of the `if`. The paths that both leave open lead on; without an
/// alternative the `No` of the decision does, without a consequence nothing
/// stands for the `Yes`.
pub proof fn law_if(
    node: Syntax,
    code: Seq<char>,
    n: nat,
    m: nat,
    entry: Seq<PathView>,
    context: Option<ContextView>,
)
    ensures
        ({
            let drawn = if_statement(node, code, n, m, entry, context);
            let open_yes = seq![PathView { node_id: node_id(n), label: "Yes"@ }];
            let open_no = seq![PathView { node_id: node_id(n), label: "No"@ }];
            let yes = match node.consequence {
                Some(s) => statement(*s, code, n + 1, m, open_yes, context),
                None => Fragment {
                    nodes: Seq::empty(),
                    edges: Seq::empty(),
                    jumps: Seq::empty(),
                    exits: Seq::empty(),
                },
            };
            let (n_no, m_no) = (n + 1 + yes.nodes.len(), m + yes.jumps.len());
            let no = match node.alternative {
                Some(s) => statement(*s, code, n_no, m_no, open_no, context),
                None => Fragment {
                    nodes: Seq::empty(),
                    edges: Seq::empty(),
                    jumps: Seq::empty(),
                    exits: open_no,
                },
            };
            &&& drawn.nodes.len() == 1 + yes.nodes.len() + no.nodes.len()
            &&& drawn.nodes[0].id == node_id(n)
            &&& drawn.nodes[0].label == condition_text(node.condition, code)
            &&& drawn.nodes[0].kind == "decision"@
            &&& drawn.nodes.skip(1) == yes.nodes + no.nodes
            &&& drawn.edges.len() == entry.len() + yes.edges.len() + no.edges.len()
            &&& joined(drawn.edges, 0, entry, node_id(n))
            &&& drawn.edges.skip(entry.len() as int) == yes.edges + no.edges
            &&& drawn.jumps == yes.jumps + no.jumps
            &&& drawn.exits == yes.exits + no.exits
        }),
{
    let drawn = if_statement(node, code, n, m, entry, context);
    let heads = path_edges(entry, node_id(n));
    law_edges_of_paths(entry, node_id(n));
    assert forall|i: int| 0 <= i < entry.len() implies #[trigger] drawn.edges[0 + i]
        == heads[i] by {}
}

/// The cases of a `switch`, one by one: what is no `case_statement` adds nothing.
/// A `case` runs from the decision, under `Case` and its value or under
/// `Default`; what it holds but the keywords and the colon is drawn as a list, in
/// the context given; the paths that it leaves open jump to where `break` does,
/// under their labels. Nothing is left open.
pub proof fn law_cases(
    nodes: Seq<Syntax>,
    last: Syntax,
    code: Seq<char>,
    n: nat,
    m: nat,
    switch: Seq<char>,
    around: ContextView,
)
    ensures
        ({
            let none = cases(Seq::empty(), 0, code, n, m, switch, around);
            let before = cases(nodes, nodes.len(), code, n, m, switch, around);
            let all = cases(nodes.push(last), nodes.len() + 1, code, n, m, switch, around);
            let label = match last.value {
                Some(v) => "Case "@ + crate::text::slice_of(code, v.start, v.end),
                None => "Default"@,
            };
            let kept = without_kinds(
                last.children,
                last.children.len(),
                "case"@,
                "default"@,
                ":"@,
            );
            let body = sequence(
                kept,
                kept.len(),
                Omitted::Nothing,
                code,
                n + before.nodes.len(),
                m + before.jumps.len(),
                seq![PathView { node_id: switch, label }],
                Some(around),
            );
            &&& none.nodes.len() == 0
            &&& none.edges.len() == 0
            &&& none.jumps.len() == 0
            &&& none.exits.len() == 0
            &&& last.kind != "case_statement"@ ==> all == before
            &&& last.kind == "case_statement"@ ==> {
                &&& all.nodes == before.nodes + body.nodes
                &&& all.edges == before.edges + body.edges
                &&& all.jumps.len() == before.jumps.len() + body.jumps.len() + body.exits.len()
                &&& all.jumps.take((before.jumps.len() + body.jumps.len()) as int)
                    == before.jumps + body.jumps
                &&& joined(
                    all.jumps,
                    (before.jumps.len() + body.jumps.len()) as int,
                    body.exits,
                    around.break_sink_id,
                )
                &&& all.exits.len() == 0
            }
        }),
{
    let k = nodes.len();
    let before = cases(nodes, k, code, n, m, switch, around);
    let all = cases(nodes.push(last), k + 1, code, n, m, switch, around);
    lemma_cases_prefix(nodes, last, k, code, n, m, switch, around);
    assert(nodes.push(last)[k as int] == last);
    let entry = seq![labelled_path(switch, case_label(last, code))];
    let (n_now, m_now) = (n + before.nodes.len(), m + before.jumps.len());
    lemma_left_out(
        last.children,
        last.children.len(),
        Omitted::CaseTokens,
        "case"@,
        "default"@,
        ":"@,
        code,
        n_now,
        m_now,
        entry,
        Some(around),
    );
    let body = sequence(
        last.children,
        last.children.len(),
        Omitted::CaseTokens,
        code,
        n_now,
        m_now,
        entry,
        Some(around),
    );
    let front = before.jumps + body.jumps;
    let out = jumps_from(body.exits, around.break_sink_id, m_now + body.jumps.len());
    law_jumps_of_paths(body.exits, around.break_sink_id, m_now + body.jumps.len());
    if last.kind == "case_statement"@ {
        assert(all.jumps == front + out);
        assert forall|i: int| 0 <= i < body.exits.len() implies #[trigger] all.jumps[front.len()
            + i] == out[i] by {}
        assert(all.jumps.take(front.len() as int) == front);
    }
}

/// The first cases of a list are drawn whatever follows them.
proof fn lemma_cases_prefix(
    nodes: Seq<Syntax>,
    last: Syntax,
    k: nat,
    code: Seq<char>,
    n: nat,
    m: nat,
    switch: Seq<char>,
    around: ContextView,
)
    requires
        k <= nodes.len(),
    ensures
        cases(nodes.push(last), k, code, n, m, switch, around) == cases(
            nodes,
            k,
            code,
            n,
            m,
            switch,
            around,
        ),
    decreases k,
{
    if k > 0 {
        lemma_cases_prefix(nodes, last, (k - 1) as nat, code, n, m, switch, around);
        assert(nodes.push(last)[k - 1] == nodes[k - 1]);
    }
}

/// A `switch` begins with a decision under its value, to which every path leads
/// under its own label, and a connector, which alone is left open. Between them
/// stand its cases: a `break` in them leads to the connector, and a `continue` to
/// where it leads around the `switch`, or to the decision where it leads nowhere.
pub proof fn law_switch(
    node: Syntax,
    code: Seq<char>,
    n: nat,
    m: nat,
    entry: Seq<PathView>,
    context: Option<ContextView>,
)
    ensures
        ({
            let drawn = switch_statement(node, code, n, m, entry, context);
            let around = ContextView {
                header_id: match context {
                    Some(c) => c.header_id,
                    None => node_id(n),
                },
                break_sink_id: node_id(n + 1),
            };
            let list = match node.body {
                Some(b) => b.children,
                None => Seq::empty(),
            };
            let inner = cases(list, list.len(), code, n + 2, m, node_id(n), around);
            let text = crate::text::slice_of(code, (*node.value->0).start, (*node.value->0).end);
            &&& drawn.nodes.len() == 2 + inner.nodes.len()
            &&& drawn.nodes[0].id == node_id(n)
            &&& drawn.nodes[0].label == "switch ("@ + text + ")"@
            &&& drawn.nodes[0].kind == "decision"@
            &&& drawn.nodes[1].id == node_id(n + 1)
            &&& drawn.nodes[1].label == ""@
            &&& drawn.nodes[1].kind == "connector"@
            &&& drawn.nodes.skip(2) == inner.nodes
            &&& drawn.edges.len() == entry.len() + inner.edges.len()
            &&& joined(drawn.edges, 0, entry, node_id(n))
            &&& drawn.edges.skip(entry.len() as int) == inner.edges
            &&& drawn.jumps == inner.jumps
            &&& drawn.exits.len() == 1
            &&& drawn.exits[0].node_id == node_id(n + 1)
            &&& drawn.exits[0].label == ""@
        }),
{
    let drawn = switch_statement(node, code, n, m, entry, context);
    let heads = path_edges(entry, node_id(n));
    law_edges_of_paths(entry, node_id(n));
    let around = switch_context(context, node_id(n), node_id(n + 1));
    if node.body is None {
        let inner = cases(Seq::empty(), 0, code, n + 2, m, node_id(n), around);
        assert(inner == pass(Seq::empty()));
    }
    assert forall|i: int| 0 <= i < entry.len() implies #[trigger] drawn.edges[0 + i]
        == heads[i] by {}
}

} // verus!
