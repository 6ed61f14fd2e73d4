//! Laws on whole programs.
use crate::flow::{omits, sequence, Omitted};
use crate::flowchart::{
    bodies, chart, drawable_bodies, drawable_program, end_edge, functions, program, Chart,
    ParseResult,
};
use crate::composition::{lemma_branching_kinds, lemma_ending_kinds};
use crate::loops::lemma_compound_kind;
use crate::drawable::{drawable, drawable_cases, drawable_list};
use crate::graph::PathView;
use crate::parser::{chart_of_tree, fits_parser, outcome, ParseFailure};
use crate::syntax::Syntax;
use crate::text::{is_slice, stands_at};
use vstd::prelude::*;
use vstd::utf8::*;

verus! {

/// The first bodies of a function are drawn whatever follows them.
proof fn lemma_bodies_prefix(
    parts: Seq<Syntax>,
    last: Syntax,
    k: nat,
    code: Seq<char>,
    n: nat,
    m: nat,
    entry: Seq<PathView>,
)
    requires
        k <= parts.len(),
    ensures
        bodies(parts.push(last), k, code, n, m, entry) == bodies(parts, k, code, n, m, entry),
    decreases k,
{
    if k > 0 {
        lemma_bodies_prefix(parts, last, (k - 1) as nat, code, n, m, entry);
        assert(parts.push(last)[k - 1] == parts[k - 1]);
    }
}

/// The first functions of a program are drawn whatever follows them.
proof fn lemma_functions_prefix(
    nodes: Seq<Syntax>,
    last: Syntax,
    k: nat,
    code: Seq<char>,
    n: nat,
    m: nat,
    entry: Seq<PathView>,
)
    requires
        k <= nodes.len(),
    ensures
        functions(nodes.push(last), k, code, n, m, entry) == functions(
            nodes,
            k,
            code,
            n,
            m,
            entry,
        ),
    decreases k,
{
    if k > 0 {
        lemma_functions_prefix(nodes, last, (k - 1) as nat, code, n, m, entry);
        assert(nodes.push(last)[k - 1] == nodes[k - 1]);
    }
}

/// Of a function the blocks are drawn, one after another, each as the list of its
/// statements outside any loop; its other parts add nothing.
pub proof fn law_functions_are_their_blocks(
    parts: Seq<Syntax>,
    last: Syntax,
    code: Seq<char>,
    n: nat,
    m: nat,
    entry: Seq<PathView>,
)
    ensures
        ({
            let none = bodies(Seq::empty(), 0, code, n, m, entry);
            let before = bodies(parts, parts.len(), code, n, m, entry);
            let all = bodies(parts.push(last), parts.len() + 1, code, n, m, entry);
            let now = sequence(
                last.children,
                last.children.len(),
                Omitted::Nothing,
                code,
                n + before.nodes.len(),
                m + before.jumps.len(),
                before.exits,
                None,
            );
            &&& none.nodes.len() == 0
            &&& none.edges.len() == 0
            &&& none.jumps.len() == 0
            &&& none.exits == entry
            &&& last.kind != "compound_statement"@ ==> all == before
            &&& last.kind == "compound_statement"@ ==> {
                &&& all.nodes == before.nodes + now.nodes
                &&& all.edges == before.edges + now.edges
                &&& all.jumps == before.jumps + now.jumps
                &&& all.exits == now.exits
            }
        }),
{
    lemma_bodies_prefix(parts, last, parts.len(), code, n, m, entry);
    assert(parts.push(last)[parts.len() as int] == last);
}

/// Of a program the functions are drawn, one after another: each begins where the
/// paths of the one before it end. What is no function adds nothing.
pub proof fn law_programs_are_their_functions(
    nodes: Seq<Syntax>,
    last: Syntax,
    code: Seq<char>,
    n: nat,
    m: nat,
    entry: Seq<PathView>,
)
    ensures
        ({
            let none = functions(Seq::empty(), 0, code, n, m, entry);
            let before = functions(nodes, nodes.len(), code, n, m, entry);
            let all = functions(nodes.push(last), nodes.len() + 1, code, n, m, entry);
            let now = bodies(
                last.children,
                last.children.len(),
                code,
                n + before.nodes.len(),
                m + before.jumps.len(),
                before.exits,
            );
            &&& none.nodes.len() == 0
            &&& none.edges.len() == 0
            &&& none.jumps.len() == 0
            &&& none.exits == entry
            &&& last.kind != "function_definition"@ ==> all == before
            &&& last.kind == "function_definition"@ ==> {
                &&& all.nodes == before.nodes + now.nodes
                &&& all.edges == before.edges + now.edges
                &&& all.jumps == before.jumps + now.jumps
                &&& all.exits == now.exits
            }
        }),
{
    lemma_functions_prefix(nodes, last, nodes.len(), code, n, m, entry);
    assert(nodes.push(last)[nodes.len() as int] == last);
}

/// A flowchart holds what its program adds, entered from `start` alone, with the
/// first node and the first jump numbered zero; then the end. Its edges are those
/// of the program, then one from each path that is open at last to the end,
/// without a label, then the jumps.
pub proof fn law_chart_of_program(root: Syntax, code: Seq<char>)
    ensures
        ({
            let c = chart(root, code);
            let start = seq![PathView { node_id: "start"@, label: ""@ }];
            let drawn = functions(root.children, root.children.len(), code, 0, 0, start);
            let at = drawn.edges.len() as int;
            let then = at + drawn.exits.len();
            &&& program(root, code) == drawn
            &&& c.nodes.drop_last() == drawn.nodes
            &&& c.nodes.last().id == "end"@
            &&& c.nodes.last().label == "End"@
            &&& c.nodes.last().kind == "terminal"@
            &&& c.nodes.len() == drawn.nodes.len() + 1
            &&& c.edges.len() == then + drawn.jumps.len()
            &&& c.edges.take(at) == drawn.edges
            &&& forall|i: int|
                0 <= i < drawn.exits.len() ==> {
                    &&& (#[trigger] c.edges[at + i]).source == drawn.exits[i].node_id
                    &&& c.edges[at + i].target == "end"@
                    &&& c.edges[at + i].label == ""@
                    &&& c.edges[at + i].id == "e-"@ + drawn.exits[i].node_id + "-end"@
                }
            &&& c.edges.skip(then) == drawn.jumps
        }),
{
    let c = chart(root, code);
    let drawn = program(root, code);
    let at = drawn.edges.len() as int;
    assert forall|i: int| 0 <= i < drawn.exits.len() implies #[trigger] c.edges[at + i] == end_edge(
        drawn.exits[i],
    ) by {}
    assert(c.nodes.drop_last() == drawn.nodes);
    assert(c.edges.take(at) == drawn.edges);
    assert(c.edges.skip(at + drawn.exits.len()) == drawn.jumps);
}

/// Whether the text of a node lies in the source, between whole characters.
pub open spec fn lies_in(node: Syntax, code: Seq<char>) -> bool {
    exists|before: Seq<char>, part: Seq<char>, behind: Seq<char>|
        code == before + part + behind && #[trigger] stands_at(
            node.start,
            node.end,
            before,
            part,
            behind,
        )
}

/// Whether a tree is sound: every text in it lies in the source, every `if`,
/// `while` and `do` has a condition and every `switch` a value.
pub open spec fn sound(node: Syntax, code: Seq<char>) -> bool
    decreases node, 1nat,
{
    &&& lies_in(node, code)
    &&& (node.kind == "if_statement"@ || node.kind == "while_statement"@ || node.kind
        == "do_statement"@) ==> node.condition is Some
    &&& node.kind == "switch_statement"@ ==> node.value is Some
    &&& sound_list(node.children, code)
    &&& sound_if_any(node.condition, code)
    &&& sound_if_any(node.consequence, code)
    &&& sound_if_any(node.alternative, code)
    &&& sound_if_any(node.initializer, code)
    &&& sound_if_any(node.update, code)
    &&& sound_if_any(node.body, code)
    &&& sound_if_any(node.value, code)
}

/// Whether a tree, if there is one, is sound.
pub open spec fn sound_if_any(node: Option<Box<Syntax>>, code: Seq<char>) -> bool
    decreases node, 2nat,
{
    match node {
        Some(n) => sound(*n, code),
        None => true,
    }
}

/// Whether all of a list of trees are sound.
pub open spec fn sound_list(nodes: Seq<Syntax>, code: Seq<char>) -> bool
    decreases nodes, 0nat,
{
    forall|i: int| 0 <= i < nodes.len() ==> sound(#[trigger] nodes[i], code)
}

/// A text that lies in the source can be cut out of it.
proof fn lemma_lies_in(node: Syntax, code: Seq<char>)
    requires
        lies_in(node, code),
    ensures
        is_slice(code, node.start, node.end),
{
    let (before, part, behind) = choose|before: Seq<char>, part: Seq<char>, behind: Seq<char>|
        code == before + part + behind && #[trigger] stands_at(
            node.start,
            node.end,
            before,
            part,
            behind,
        );
    crate::text::law_slice_of_part(before, part, behind);
}

/// A sound statement can be drawn.
pub proof fn law_sound_statements_are_drawn(node: Syntax, code: Seq<char>)
    requires
        sound(node, code),
    ensures
        drawable(node, code),
    decreases node, 1nat,
{
    lemma_lies_in(node, code);
    if let Some(s) = node.condition {
        assert(sound(*s, code));
        lemma_lies_in(*s, code);
    }
    if let Some(s) = node.initializer {
        assert(sound(*s, code));
        lemma_lies_in(*s, code);
    }
    if let Some(s) = node.update {
        assert(sound(*s, code));
        lemma_lies_in(*s, code);
    }
    if let Some(s) = node.value {
        assert(sound(*s, code));
        lemma_lies_in(*s, code);
    }
    lemma_sound_list(node.children, Omitted::Nothing, code);
    lemma_sound_list(node.children, Omitted::ElseTokens, code);
    if let Some(s) = node.consequence {
        law_sound_statements_are_drawn(*s, code);
    }
    if let Some(s) = node.alternative {
        law_sound_statements_are_drawn(*s, code);
    }
    if let Some(s) = node.body {
        law_sound_statements_are_drawn(*s, code);
        assert(sound(*s, code));
        lemma_sound_cases(s.children, code);
    }
}

/// As [`law_sound_statements_are_drawn`], of a list.
proof fn lemma_sound_list(nodes: Seq<Syntax>, omitted: Omitted, code: Seq<char>)
    requires
        sound_list(nodes, code),
    ensures
        drawable_list(nodes, omitted, code),
    decreases nodes, 0nat,
{
    assert forall|i: int| 0 <= i < nodes.len() implies drawable(#[trigger] nodes[i], code) by {
        law_sound_statements_are_drawn(nodes[i], code);
    }
}

/// As [`law_sound_statements_are_drawn`], of the cases of a `switch`.
proof fn lemma_sound_cases(nodes: Seq<Syntax>, code: Seq<char>)
    requires
        sound_list(nodes, code),
    ensures
        drawable_cases(nodes, code),
    decreases nodes, 0nat,
{
    assert forall|i: int| 0 <= i < nodes.len() implies {
        &&& drawable_list((#[trigger] nodes[i]).children, Omitted::CaseTokens, code)
        &&& nodes[i].value matches Some(v) ==> is_slice(code, v.start, v.end)
    } by {
        assert(sound(nodes[i], code));
        lemma_sound_list(nodes[i].children, Omitted::CaseTokens, code);
        if let Some(v) = nodes[i].value {
            assert(sound(*v, code));
            lemma_lies_in(*v, code);
        }
    }
}

/// No sound program is refused: its flowchart is drawn. Without a tree there is
/// none, and a text is parsed up to two mebibytes.
pub proof fn law_sound_programs_are_drawn(root: Syntax, code: Seq<char>)
    requires
        sound(root, code),
    ensures
        chart_of_tree(Some(root), code) == Ok::<Chart, ParseFailure>(
            chart(root, code),
        ),
        chart_of_tree(None, code) == Err::<Chart, ParseFailure>(
            ParseFailure::NoTree,
        ),
        fits_parser(code) <==> encode_utf8(code).len() <= 2_097_152,
{
    assert forall|i: int| 0 <= i < root.children.len() implies drawable_bodies(
        (#[trigger] root.children[i]).children,
        code,
    ) by {
        let node = root.children[i];
        assert(sound(node, code));
        assert forall|j: int| 0 <= j < node.children.len() implies drawable_list(
            (#[trigger] node.children[j]).children,
            Omitted::Nothing,
            code,
        ) by {
            assert(sound(node.children[j], code));
            lemma_sound_list(node.children[j].children, Omitted::Nothing, code);
        }
    }
}

/// Which statements are drawn and which refused, exactly. Tokens, comments and
/// jumps are always drawn. An `if`, a `while` and a `do` need a condition, a
/// `switch` a value, and these and the clauses of a `for` a text in the source.
/// Blocks, branches and bodies need what stands in them to be drawn. Any other
/// statement needs its text in the source.
pub proof fn law_drawn_or_refused(node: Syntax, code: Seq<char>)
    ensures
        ({
            let kind = node.kind;
            let token = kind == "{"@ || kind == "}"@ || kind == "comment"@ || kind == ";"@ || kind
                == "\n"@ || kind == "preproc_include"@ || kind == "preproc_def"@;
            let shown = |part: Option<Box<Syntax>>|
                part matches Some(p) ==> is_slice(code, p.start, p.end);
            let drawn = |part: Option<Box<Syntax>>| part matches Some(p) ==> drawable(*p, code);
            &&& token || kind == "break_statement"@ || kind == "continue_statement"@ ==> drawable(
                node,
                code,
            )
            &&& kind == "compound_statement"@ ==> (drawable(node, code) <==> forall|i: int|
                0 <= i < node.children.len() ==> drawable(#[trigger] node.children[i], code))
            &&& kind == "else_clause"@ ==> (drawable(node, code) <==> forall|i: int|
                0 <= i < node.children.len() ==> (#[trigger] node.children[i]).kind == "else"@
                    || node.children[i].kind == "comment"@ || drawable(node.children[i], code))
            &&& kind == "if_statement"@ ==> (drawable(node, code) <==> node.condition is Some
                && shown(node.condition) && drawn(node.consequence) && drawn(node.alternative))
            &&& kind == "while_statement"@ ==> (drawable(node, code) <==> node.condition is Some
                && shown(node.condition) && drawn(node.body))
            &&& kind == "for_statement"@ ==> (drawable(node, code) <==> shown(node.initializer)
                && shown(node.condition) && shown(node.update) && drawn(node.body))
            &&& kind == "do_statement"@ ==> (drawable(node, code) <==> node.condition is Some
                && shown(node.condition) && drawn(node.body))
            &&& kind == "switch_statement"@ ==> (drawable(node, code) <==> node.value is Some
                && shown(node.value) && (node.body matches Some(b) ==> forall|i: int|
                0 <= i < b.children.len() && (#[trigger] b.children[i]).kind == "case_statement"@
                    ==> shown(b.children[i].value) && case_drawn(b.children[i], code)))
            &&& !token && kind != "compound_statement"@ && kind != "else_clause"@ && kind
                != "break_statement"@ && kind != "continue_statement"@ && kind != "if_statement"@
                && kind != "while_statement"@ && kind != "for_statement"@ && kind
                != "do_statement"@ && kind != "switch_statement"@ ==> (drawable(node, code)
                <==> is_slice(code, node.start, node.end))
        }),
{
    let kind = node.kind;
    lemma_ending_kinds();
    if kind == "if_statement"@ || kind == "while_statement"@ || kind == "for_statement"@ || kind
        == "do_statement"@ || kind == "switch_statement"@ {
        lemma_branching_kinds(kind);
    }
    if kind == "compound_statement"@ || kind == "else_clause"@ {
        lemma_compound_kind(kind);
    }
    if kind == "compound_statement"@ && drawable(node, code) {
        assert forall|i: int| 0 <= i < node.children.len() implies drawable(
            #[trigger] node.children[i],
            code,
        ) by {
            assert(omits(Omitted::Nothing, node.children[i].kind) || drawable(
                node.children[i],
                code,
            ));
        }
    }
    if kind == "else_clause"@ && drawable(node, code) {
        assert forall|i: int| 0 <= i < node.children.len() implies (
        #[trigger] node.children[i]).kind == "else"@ || node.children[i].kind == "comment"@
            || drawable(node.children[i], code) by {
            assert(omits(Omitted::ElseTokens, node.children[i].kind) || drawable(
                node.children[i],
                code,
            ));
        }
    }
    if let Some(b) = node.body {
        assert forall|i: int| 0 <= i < b.children.len() implies (case_drawn(
            #[trigger] b.children[i],
            code,
        ) <==> drawable_list(b.children[i].children, Omitted::CaseTokens, code)) by {
            lemma_case_drawn(b.children[i], code);
        }
        if kind == "switch_statement"@ && drawable(node, code) {
            assert forall|i: int|
                0 <= i < b.children.len() && (#[trigger] b.children[i]).kind
                    == "case_statement"@ implies {
                &&& b.children[i].value matches Some(p) ==> is_slice(code, p.start, p.end)
                &&& case_drawn(b.children[i], code)
            } by {
                assert(drawable_cases(b.children, code));
            }
        }
    }
}

/// Whether all that a `case` holds but its keywords and colon can be drawn.
pub open spec fn case_drawn(case: Syntax, code: Seq<char>) -> bool {
    forall|i: int|
        0 <= i < case.children.len() ==> (#[trigger] case.children[i]).kind == "case"@
            || case.children[i].kind == "default"@ || case.children[i].kind == ":"@ || drawable(
            case.children[i],
            code,
        )
}

/// A `case` can be drawn if what it holds can.
proof fn lemma_case_drawn(case: Syntax, code: Seq<char>)
    ensures
        case_drawn(case, code) <==> drawable_list(case.children, Omitted::CaseTokens, code),
{
    if drawable_list(case.children, Omitted::CaseTokens, code) {
        assert forall|i: int| 0 <= i < case.children.len() implies (
        #[trigger] case.children[i]).kind == "case"@ || case.children[i].kind == "default"@
            || case.children[i].kind == ":"@ || drawable(case.children[i], code) by {
            assert(omits(Omitted::CaseTokens, case.children[i].kind) || drawable(
                case.children[i],
                code,
            ));
        }
    }
}

/// A program is drawn if and only if every statement in the blocks of its
/// functions is; the outcome tells the flowchart or why there is none.
pub proof fn law_programs_drawn_or_refused(root: Syntax, code: Seq<char>)
    ensures
        ({
            let drawn = forall|i: int, j: int, k: int|
                0 <= i < root.children.len() && root.children[i].kind == "function_definition"@
                    && 0 <= j < root.children[i].children.len()
                    && root.children[i].children[j].kind == "compound_statement"@ && 0 <= k
                    < root.children[i].children[j].children.len() ==> drawable(
                    #[trigger] root.children[i].children[j].children[k],
                    code,
                );
            chart_of_tree(Some(root), code) == if drawn {
                Ok::<Chart, ParseFailure>(chart(root, code))
            } else {
                Err(ParseFailure::Incomplete)
            }
        }),
{
    if drawable_program(root, code) {
        assert forall|i: int, j: int, k: int|
            0 <= i < root.children.len() && root.children[i].kind == "function_definition"@ && 0
                <= j < root.children[i].children.len() && root.children[i].children[j].kind
                == "compound_statement"@ && 0 <= k
                < root.children[i].children[j].children.len() implies drawable(
            #[trigger] root.children[i].children[j].children[k],
            code,
        ) by {
            let list = root.children[i].children[j].children;
            assert(drawable_bodies(root.children[i].children, code));
            assert(drawable_list(list, Omitted::Nothing, code));
            assert(omits(Omitted::Nothing, list[k].kind) || drawable(list[k], code));
        }
    } else {
        let i = choose|i: int|
            0 <= i < root.children.len() && #[trigger] root.children[i].kind
                == "function_definition"@ && !drawable_bodies(root.children[i].children, code);
        let parts = root.children[i].children;
        let j = choose|j: int|
            0 <= j < parts.len() && #[trigger] parts[j].kind == "compound_statement"@
                && !drawable_list(parts[j].children, Omitted::Nothing, code);
        let list = parts[j].children;
        let k = choose|k: int|
            0 <= k < list.len() && !(omits(Omitted::Nothing, #[trigger] list[k].kind) || drawable(
                list[k],
                code,
            ));
        assert(!drawable(root.children[i].children[j].children[k], code));
    }
}

/// The view of a result holds what the result holds.
pub proof fn law_result_views(r: ParseResult, e: ParseFailure)
    ensures
        r@.nodes.len() == r.nodes@.len(),
        forall|i: int| 0 <= i < r.nodes@.len() ==> #[trigger] r@.nodes[i] == r.nodes@[i]@,
        r@.edges.len() == r.edges@.len(),
        forall|i: int| 0 <= i < r.edges@.len() ==> #[trigger] r@.edges[i] == r.edges@[i]@,
        outcome(Ok(r)) == Ok::<Chart, ParseFailure>(r@),
        outcome(Err(e)) == Err::<Chart, ParseFailure>(e),
{
}

} // verus!
