//! The part of a syntax tree that drawing looks at.
use crate::composition::lemma_branching_kinds;
use crate::drawable::{drawable, drawable_cases, drawable_list};
use crate::flow::{
    case_label, cases, do_statement, for_decision, for_head, for_statement, has_text_if_any,
    if_statement, labelled_path, omits, optional_statement, plain_path, sequence, statement,
    switch_context, switch_statement, way_in, way_into, while_statement, Omitted,
};
use crate::flowchart::{
    bodies, chart, drawable_bodies, drawable_functions, drawable_program, functions,
};
use crate::graph::{node_id, ContextView, PathView};
use crate::syntax::Syntax;
use vstd::prelude::*;

verus! {

/// `node` without its parts.
pub open spec fn leaf(node: Syntax) -> Syntax {
    Syntax {
        kind: node.kind,
        start: node.start,
        end: node.end,
        children: seq![],
        condition: None,
        consequence: None,
        alternative: None,
        initializer: None,
        update: None,
        body: None,
        value: None,
    }
}

/// `node`, if there is one, without its parts.
pub open spec fn leaf_if_any(node: Option<Box<Syntax>>) -> Option<Box<Syntax>> {
    match node {
        Some(n) => Some(Box::new(leaf(*n))),
        None => None,
    }
}

/// The part of a statement that drawing it looks at.
pub open spec fn outline(node: Syntax) -> Syntax
    decreases node, 1nat,
{
    if node.kind == "compound_statement"@ || node.kind == "else_clause"@ {
        Syntax { children: outline_list(node.children), ..leaf(node) }
    } else if node.kind == "if_statement"@ {
        Syntax {
            condition: leaf_if_any(node.condition),
            consequence: outline_if_any(node.consequence),
            alternative: outline_if_any(node.alternative),
            ..leaf(node)
        }
    } else if node.kind == "while_statement"@ {
        Syntax {
            condition: leaf_if_any(node.condition),
            body: outline_if_any(node.body),
            ..leaf(node)
        }
    } else if node.kind == "for_statement"@ {
        Syntax {
            initializer: leaf_if_any(node.initializer),
            condition: leaf_if_any(node.condition),
            update: leaf_if_any(node.update),
            body: outline_if_any(node.body),
            ..leaf(node)
        }
    } else if node.kind == "do_statement"@ {
        Syntax {
            condition: leaf_if_any(node.condition),
            body: outline_if_any(node.body),
            ..leaf(node)
        }
    } else if node.kind == "switch_statement"@ {
        Syntax {
            value: leaf_if_any(node.value),
            body: match node.body {
                Some(b) => Some(
                    Box::new(Syntax { children: outline_cases(b.children), ..leaf(*b) }),
                ),
                None => None,
            },
            ..leaf(node)
        }
    } else {
        leaf(node)
    }
}

/// The outline of `node`, if there is one.
pub open spec fn outline_if_any(node: Option<Box<Syntax>>) -> Option<Box<Syntax>>
    decreases node, 2nat,
{
    match node {
        Some(n) => Some(Box::new(outline(*n))),
        None => None,
    }
}

/// The outlines of a list of statements.
pub open spec fn outline_list(nodes: Seq<Syntax>) -> Seq<Syntax>
    decreases nodes, 0nat,
{
    Seq::new(
        nodes.len(),
        |i: int|
            if 0 <= i < nodes.len() {
                outline(nodes[i])
            } else {
                arbitrary()
            },
    )
}

/// The part of the body of a `switch` that drawing it looks at.
pub open spec fn outline_cases(nodes: Seq<Syntax>) -> Seq<Syntax>
    decreases nodes, 0nat,
{
    Seq::new(
        nodes.len(),
        |i: int|
            if 0 <= i < nodes.len() {
                if nodes[i].kind == "case_statement"@ {
                    Syntax {
                        value: leaf_if_any(nodes[i].value),
                        children: outline_list(nodes[i].children),
                        ..leaf(nodes[i])
                    }
                } else {
                    leaf(nodes[i])
                }
            } else {
                arbitrary()
            },
    )
}

/// The part of a function that drawing it looks at.
pub open spec fn outline_part(part: Syntax) -> Syntax {
    if part.kind == "compound_statement"@ {
        Syntax { children: outline_list(part.children), ..leaf(part) }
    } else {
        leaf(part)
    }
}

/// The part of a top-level node that drawing it looks at.
pub open spec fn outline_function(node: Syntax) -> Syntax {
    if node.kind == "function_definition"@ {
        Syntax {
            children: node.children.map_values(|p: Syntax| outline_part(p)),
            ..leaf(node)
        }
    } else {
        leaf(node)
    }
}

/// The part of a program that drawing it looks at.
pub open spec fn outline_program(root: Syntax) -> Syntax {
    Syntax {
        children: root.children.map_values(|f: Syntax| outline_function(f)),
        ..leaf(root)
    }
}

/// A statement and its outline are drawn alike.
pub proof fn lemma_outline_statement(
    node: Syntax,
    code: Seq<char>,
    n: nat,
    m: nat,
    entry: Seq<PathView>,
    context: Option<ContextView>,
)
    ensures
        statement(outline(node), code, n, m, entry, context) == statement(
            node,
            code,
            n,
            m,
            entry,
            context,
        ),
    decreases node, 1nat,
{
    if node.kind == "compound_statement"@ || node.kind == "else_clause"@ {
        let k = node.children.len();
        lemma_outline_sequence(node.children, k, Omitted::Nothing, code, n, m, entry, context);
        lemma_outline_sequence(node.children, k, Omitted::ElseTokens, code, n, m, entry, context);
    } else if node.kind == "if_statement"@ {
        let open_yes = seq![labelled_path(node_id(n), "Yes"@)];
        let open_no = seq![labelled_path(node_id(n), "No"@)];
        lemma_outline_optional(node.consequence, code, n + 1, m, open_yes, context);
        let yes = optional_statement(node.consequence, code, n + 1, m, open_yes, context);
        lemma_outline_optional(
            node.alternative,
            code,
            n + 1 + yes.nodes.len(),
            m + yes.jumps.len(),
            open_no,
            context,
        );
        assert(if_statement(outline(node), code, n, m, entry, context) == if_statement(
            node,
            code,
            n,
            m,
            entry,
            context,
        ));
    } else if node.kind == "while_statement"@ {
        let inner = ContextView { header_id: node_id(n), break_sink_id: node_id(n + 1) };
        let open_yes = seq![labelled_path(node_id(n), "Yes"@)];
        lemma_outline_optional(node.body, code, n + 2, m, open_yes, Some(inner));
        assert(while_statement(outline(node), code, n, m, entry) == while_statement(
            node,
            code,
            n,
            m,
            entry,
        ));
    } else if node.kind == "for_statement"@ {
        let head = for_head(node, code, n, entry);
        let h = for_decision(node, code, n, entry);
        let inner = ContextView { header_id: node_id(h), break_sink_id: node_id(h + 1) };
        assert(for_head(outline(node), code, n, entry) == head);
        assert(for_decision(outline(node), code, n, entry) == h);
        lemma_outline_optional(
            node.body,
            code,
            n + head.nodes.len(),
            m,
            head.exits,
            Some(inner),
        );
        assert(for_statement(outline(node), code, n, m, entry) == for_statement(
            node,
            code,
            n,
            m,
            entry,
        ));
    } else if node.kind == "do_statement"@ {
        let inner = ContextView { header_id: node_id(n + 1), break_sink_id: node_id(n) };
        if let Some(b) = node.body {
            lemma_outline_way(*b, code);
        }
        lemma_outline_optional(node.body, code, n + 2, m, entry, Some(inner));
        assert(do_statement(outline(node), code, n, m, entry) == do_statement(
            node,
            code,
            n,
            m,
            entry,
        ));
    } else if node.kind == "switch_statement"@ {
        if let Some(b) = node.body {
            lemma_outline_cases(
                b.children,
                b.children.len(),
                code,
                n + 2,
                m,
                node_id(n),
                switch_context(context, node_id(n), node_id(n + 1)),
            );
        }
        assert(switch_statement(outline(node), code, n, m, entry, context)
            == switch_statement(node, code, n, m, entry, context));
    }
}

/// An optional statement and its outline are drawn alike.
proof fn lemma_outline_optional(
    node: Option<Box<Syntax>>,
    code: Seq<char>,
    n: nat,
    m: nat,
    entry: Seq<PathView>,
    context: Option<ContextView>,
)
    ensures
        optional_statement(outline_if_any(node), code, n, m, entry, context)
            == optional_statement(node, code, n, m, entry, context),
    decreases node, 2nat,
{
    if let Some(s) = node {
        lemma_outline_statement(*s, code, n, m, entry, context);
    }
}

/// A list of statements and its outline are drawn alike.
proof fn lemma_outline_sequence(
    nodes: Seq<Syntax>,
    k: nat,
    omitted: Omitted,
    code: Seq<char>,
    n: nat,
    m: nat,
    entry: Seq<PathView>,
    context: Option<ContextView>,
)
    ensures
        sequence(outline_list(nodes), k, omitted, code, n, m, entry, context) == sequence(
            nodes,
            k,
            omitted,
            code,
            n,
            m,
            entry,
            context,
        ),
    decreases nodes, k,
{
    if 0 < k <= nodes.len() {
        let before = sequence(nodes, (k - 1) as nat, omitted, code, n, m, entry, context);
        lemma_outline_sequence(nodes, (k - 1) as nat, omitted, code, n, m, entry, context);
        lemma_outline_statement(
            nodes[k - 1],
            code,
            n + before.nodes.len(),
            m + before.jumps.len(),
            before.exits,
            context,
        );
        lemma_outline_kind(nodes[k - 1]);
    }
}

/// The cases of a `switch` and their outlines are drawn alike.
proof fn lemma_outline_cases(
    nodes: Seq<Syntax>,
    k: nat,
    code: Seq<char>,
    n: nat,
    m: nat,
    switch: Seq<char>,
    around: ContextView,
)
    ensures
        cases(outline_cases(nodes), k, code, n, m, switch, around) == cases(
            nodes,
            k,
            code,
            n,
            m,
            switch,
            around,
        ),
    decreases nodes, k,
{
    if 0 < k <= nodes.len() {
        let before = cases(nodes, (k - 1) as nat, code, n, m, switch, around);
        let case = nodes[k - 1];
        lemma_outline_cases(nodes, (k - 1) as nat, code, n, m, switch, around);
        lemma_outline_sequence(
            case.children,
            case.children.len(),
            Omitted::CaseTokens,
            code,
            n + before.nodes.len(),
            m + before.jumps.len(),
            seq![labelled_path(switch, case_label(case, code))],
            Some(around),
        );
    }
}

/// A statement and its outline are entered alike.
proof fn lemma_outline_way(node: Syntax, code: Seq<char>)
    ensures
        way_in(outline(node), code) == way_in(node, code),
    decreases node, 1nat,
{
    if node.kind == "compound_statement"@ || node.kind == "else_clause"@ {
        let k = node.children.len();
        lemma_outline_way_into(node.children, k, Omitted::Nothing, code);
        lemma_outline_way_into(node.children, k, Omitted::ElseTokens, code);
    } else if node.kind == "do_statement"@ {
        lemma_branching_kinds(node.kind);
        if let Some(b) = node.body {
            lemma_outline_way(*b, code);
        }
    }
}

/// A list of statements and its outline are entered alike.
proof fn lemma_outline_way_into(nodes: Seq<Syntax>, k: nat, omitted: Omitted, code: Seq<char>)
    ensures
        way_into(outline_list(nodes), k, omitted, code) == way_into(nodes, k, omitted, code),
    decreases nodes, k,
{
    if 0 < k <= nodes.len() {
        lemma_outline_way_into(nodes, (k - 1) as nat, omitted, code);
        lemma_outline_way(nodes[k - 1], code);
        lemma_outline_kind(nodes[k - 1]);
    }
}

/// An outline has the kind and the text of what it outlines.
proof fn lemma_outline_kind(node: Syntax)
    ensures
        outline(node).kind == node.kind,
        outline(node).start == node.start,
        outline(node).end == node.end,
{
}

/// A statement can be drawn if and only if its outline can.
pub proof fn lemma_outline_drawable(node: Syntax, code: Seq<char>)
    ensures
        drawable(outline(node), code) == drawable(node, code),
    decreases node, 1nat,
{
    if node.kind == "compound_statement"@ || node.kind == "else_clause"@ {
        lemma_outline_drawable_list(node.children, Omitted::Nothing, code);
        lemma_outline_drawable_list(node.children, Omitted::ElseTokens, code);
    } else {
        if let Some(s) = node.consequence {
            lemma_outline_drawable(*s, code);
        }
        if let Some(s) = node.alternative {
            lemma_outline_drawable(*s, code);
        }
        if let Some(s) = node.body {
            lemma_outline_drawable(*s, code);
            lemma_outline_drawable_cases(s.children, code);
        }
    }
}

/// A list of statements can be drawn if and only if its outline can.
proof fn lemma_outline_drawable_list(nodes: Seq<Syntax>, omitted: Omitted, code: Seq<char>)
    ensures
        drawable_list(outline_list(nodes), omitted, code) == drawable_list(nodes, omitted, code),
    decreases nodes, 0nat,
{
    let outlines = outline_list(nodes);
    assert forall|i: int| 0 <= i < nodes.len() implies {
        &&& (#[trigger] nodes[i]).kind == outlines[i].kind
        &&& drawable(outlines[i], code) == drawable(nodes[i], code)
    } by {
        lemma_outline_kind(nodes[i]);
        lemma_outline_drawable(nodes[i], code);
    }
    if drawable_list(outlines, omitted, code) {
        assert forall|i: int| 0 <= i < nodes.len() implies omits(
            omitted,
            #[trigger] nodes[i].kind,
        ) || drawable(nodes[i], code) by {
            assert(omits(omitted, outlines[i].kind) || drawable(outlines[i], code));
        }
    }
}

/// The cases of a `switch` can be drawn if and only if their outlines can.
proof fn lemma_outline_drawable_cases(nodes: Seq<Syntax>, code: Seq<char>)
    ensures
        drawable_cases(outline_cases(nodes), code) == drawable_cases(nodes, code),
    decreases nodes, 0nat,
{
    let outlines = outline_cases(nodes);
    assert forall|i: int| 0 <= i < nodes.len() implies {
        &&& (#[trigger] nodes[i]).kind == outlines[i].kind
        &&& nodes[i].kind == "case_statement"@ ==> {
            &&& has_text_if_any(outlines[i].value, code) == has_text_if_any(nodes[i].value, code)
            &&& drawable_list(outlines[i].children, Omitted::CaseTokens, code)
                == drawable_list(nodes[i].children, Omitted::CaseTokens, code)
        }
    } by {
        lemma_outline_drawable_list(nodes[i].children, Omitted::CaseTokens, code);
    }
    if drawable_cases(outlines, code) {
        assert forall|i: int|
            0 <= i < nodes.len() && #[trigger] nodes[i].kind == "case_statement"@ implies {
            &&& has_text_if_any(nodes[i].value, code)
            &&& drawable_list(nodes[i].children, Omitted::CaseTokens, code)
        } by {
            assert(outlines[i].kind == "case_statement"@);
        }
    }
}

/// The bodies of a function and their outlines are drawn alike.
proof fn lemma_outline_bodies(
    parts: Seq<Syntax>,
    k: nat,
    code: Seq<char>,
    n: nat,
    m: nat,
    entry: Seq<PathView>,
)
    ensures
        bodies(parts.map_values(|p: Syntax| outline_part(p)), k, code, n, m, entry) == bodies(
            parts,
            k,
            code,
            n,
            m,
            entry,
        ),
    decreases k,
{
    if 0 < k <= parts.len() {
        let before = bodies(parts, (k - 1) as nat, code, n, m, entry);
        let part = parts[k - 1];
        lemma_outline_bodies(parts, (k - 1) as nat, code, n, m, entry);
        lemma_outline_sequence(
            part.children,
            part.children.len(),
            Omitted::Nothing,
            code,
            n + before.nodes.len(),
            m + before.jumps.len(),
            before.exits,
            None,
        );
    }
}

/// The functions of a program and their outlines are drawn alike.
proof fn lemma_outline_functions(
    nodes: Seq<Syntax>,
    k: nat,
    code: Seq<char>,
    n: nat,
    m: nat,
    entry: Seq<PathView>,
)
    ensures
        functions(nodes.map_values(|f: Syntax| outline_function(f)), k, code, n, m, entry)
            == functions(nodes, k, code, n, m, entry),
    decreases k,
{
    if 0 < k <= nodes.len() {
        let before = functions(nodes, (k - 1) as nat, code, n, m, entry);
        let node = nodes[k - 1];
        lemma_outline_functions(nodes, (k - 1) as nat, code, n, m, entry);
        lemma_outline_bodies(
            node.children,
            node.children.len(),
            code,
            n + before.nodes.len(),
            m + before.jumps.len(),
            before.exits,
        );
    }
}

/// The bodies of a function can be drawn if and only if their outlines can.
proof fn lemma_outline_drawable_bodies(parts: Seq<Syntax>, code: Seq<char>)
    ensures
        drawable_bodies(parts.map_values(|p: Syntax| outline_part(p)), code) == drawable_bodies(
            parts,
            code,
        ),
{
    let outlines = parts.map_values(|p: Syntax| outline_part(p));
    assert forall|i: int| 0 <= i < parts.len() implies {
        &&& (#[trigger] parts[i]).kind == outlines[i].kind
        &&& parts[i].kind == "compound_statement"@ ==> drawable_list(
            outlines[i].children,
            Omitted::Nothing,
            code,
        ) == drawable_list(parts[i].children, Omitted::Nothing, code)
    } by {
        lemma_outline_drawable_list(parts[i].children, Omitted::Nothing, code);
    }
    if drawable_bodies(outlines, code) {
        assert forall|i: int|
            0 <= i < parts.len() && #[trigger] parts[i].kind
                == "compound_statement"@ implies drawable_list(
            parts[i].children,
            Omitted::Nothing,
            code,
        ) by {
            assert(outlines[i].kind == "compound_statement"@);
        }
    }
}

/// A program and its outline have the same flowchart, and the one can be drawn
/// if and only if the other can.
pub proof fn lemma_outline_program(root: Syntax, code: Seq<char>)
    ensures
        chart(outline_program(root), code) == chart(root, code),
        drawable_program(outline_program(root), code) == drawable_program(root, code),
{
    let nodes = root.children;
    let outlines = nodes.map_values(|f: Syntax| outline_function(f));
    lemma_outline_functions(
        nodes,
        nodes.len(),
        code,
        0,
        0,
        seq![plain_path("start"@)],
    );
    assert forall|i: int| 0 <= i < nodes.len() implies {
        &&& (#[trigger] nodes[i]).kind == outlines[i].kind
        &&& nodes[i].kind == "function_definition"@ ==> drawable_bodies(
            outlines[i].children,
            code,
        ) == drawable_bodies(nodes[i].children, code)
    } by {
        lemma_outline_drawable_bodies(nodes[i].children, code);
    }
    if drawable_functions(outlines, code) {
        assert forall|i: int|
            0 <= i < nodes.len() && #[trigger] nodes[i].kind
                == "function_definition"@ implies drawable_bodies(
            nodes[i].children,
            code,
        ) by {
            assert(outlines[i].kind == "function_definition"@);
        }
    }
}

} // verus!
