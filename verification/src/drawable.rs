//! Which syntax trees can be drawn.
use crate::flow::{has_text, has_text_if_any, is_skipped, omits, Omitted};
use crate::syntax::{optional_syntax, syntax_list, Syntax, SyntaxNode};
use crate::text::{same_text, slice};
use vstd::prelude::*;

verus! {

/// Whether every text that drawing `node` reads lies within `code`, and every
/// statement on the way has the parts that it cannot be drawn without.
pub open spec fn drawable(node: Syntax, code: Seq<char>) -> bool
    decreases node, 1nat,
{
    if is_skipped(node.kind) {
        true
    } else if node.kind == "compound_statement"@ {
        drawable_list(node.children, Omitted::Nothing, code)
    } else if node.kind == "else_clause"@ {
        drawable_list(node.children, Omitted::ElseTokens, code)
    } else if node.kind == "break_statement"@ || node.kind == "continue_statement"@ {
        true
    } else if node.kind == "if_statement"@ {
        &&& node.condition is Some
        &&& has_text_if_any(node.condition, code)
        &&& drawable_if_any(node.consequence, code)
        &&& drawable_if_any(node.alternative, code)
    } else if node.kind == "while_statement"@ {
        &&& node.condition is Some
        &&& has_text_if_any(node.condition, code)
        &&& drawable_if_any(node.body, code)
    } else if node.kind == "for_statement"@ {
        &&& has_text_if_any(node.initializer, code)
        &&& has_text_if_any(node.condition, code)
        &&& has_text_if_any(node.update, code)
        &&& drawable_if_any(node.body, code)
    } else if node.kind == "do_statement"@ {
        &&& node.condition is Some
        &&& has_text_if_any(node.condition, code)
        &&& drawable_if_any(node.body, code)
    } else if node.kind == "switch_statement"@ {
        &&& node.value is Some
        &&& has_text_if_any(node.value, code)
        &&& match node.body {
            Some(b) => drawable_cases(b.children, code),
            None => true,
        }
    } else {
        has_text(node, code)
    }
}

/// Whether `node`, if there is one, can be drawn.
pub open spec fn drawable_if_any(node: Option<Box<Syntax>>, code: Seq<char>) -> bool
    decreases node, 2nat,
{
    match node {
        Some(n) => drawable(*n, code),
        None => true,
    }
}

/// Whether all of `nodes` but the `omitted` ones can be drawn.
pub open spec fn drawable_list(nodes: Seq<Syntax>, omitted: Omitted, code: Seq<char>) -> bool
    decreases nodes, 0nat,
{
    forall|i: int|
        0 <= i < nodes.len() ==> omits(omitted, #[trigger] nodes[i].kind) || drawable(
            nodes[i],
            code,
        )
}

/// Whether the `case`s among `nodes` can be drawn.
pub open spec fn drawable_cases(nodes: Seq<Syntax>, code: Seq<char>) -> bool
    decreases nodes, 0nat,
{
    forall|i: int|
        0 <= i < nodes.len() && #[trigger] nodes[i].kind == "case_statement"@ ==> {
            &&& has_text_if_any(nodes[i].value, code)
            &&& drawable_list(nodes[i].children, Omitted::CaseTokens, code)
        }
}

/// Whether nothing is drawn for nodes of kind `kind`.
pub fn skips(kind: &str) -> (res: bool)
    ensures
        res == is_skipped(kind@),
{
    same_text(kind, "{") || same_text(kind, "}") || same_text(kind, "comment") || same_text(
        kind,
        ";",
    ) || same_text(kind, "\n") || same_text(kind, "preproc_include") || same_text(
        kind,
        "preproc_def",
    )
}

/// Whether nodes of kind `kind` are left out.
pub fn leaves_out(omitted: Omitted, kind: &str) -> (res: bool)
    ensures
        res == omits(omitted, kind@),
{
    match omitted {
        Omitted::Nothing => false,
        Omitted::ElseTokens => same_text(kind, "else") || same_text(kind, "comment"),
        Omitted::CaseTokens => same_text(kind, "case") || same_text(kind, "default") || same_text(
            kind,
            ":",
        ),
    }
}

/// Whether the text of `node`, if there is one, can be read in `code`.
fn has_readable_text(node: &Option<Box<SyntaxNode>>, code: &str) -> (res: bool)
    ensures
        res == has_text_if_any(optional_syntax(*node), code@),
{
    match node {
        Some(n) => slice(code, n.start, n.end).is_some(),
        None => true,
    }
}

/// Whether `node` can be drawn.
pub fn can_draw(node: &SyntaxNode, code: &str) -> (res: bool)
    ensures
        res == drawable(node@, code@),
    decreases node, 1nat,
{
    let kind = node.kind.as_str();
    if skips(kind) {
        true
    } else if same_text(kind, "compound_statement") {
        can_draw_list(&node.children, Omitted::Nothing, code)
    } else if same_text(kind, "else_clause") {
        can_draw_list(&node.children, Omitted::ElseTokens, code)
    } else if same_text(kind, "break_statement") || same_text(kind, "continue_statement") {
        true
    } else if same_text(kind, "if_statement") {
        node.condition.is_some() && has_readable_text(&node.condition, code) && can_draw_if_any(
            &node.consequence,
            code,
        ) && can_draw_if_any(&node.alternative, code)
    } else if same_text(kind, "while_statement") {
        node.condition.is_some() && has_readable_text(&node.condition, code) && can_draw_if_any(
            &node.body,
            code,
        )
    } else if same_text(kind, "for_statement") {
        has_readable_text(&node.initializer, code) && has_readable_text(&node.condition, code)
            && has_readable_text(&node.update, code) && can_draw_if_any(&node.body, code)
    } else if same_text(kind, "do_statement") {
        node.condition.is_some() && has_readable_text(&node.condition, code) && can_draw_if_any(
            &node.body,
            code,
        )
    } else if same_text(kind, "switch_statement") {
        node.value.is_some() && has_readable_text(&node.value, code) && match &node.body {
            Some(b) => can_draw_cases(&b.children, code),
            None => true,
        }
    } else {
        slice(code, node.start, node.end).is_some()
    }
}

/// Whether `node`, if there is one, can be drawn.
fn can_draw_if_any(node: &Option<Box<SyntaxNode>>, code: &str) -> (res: bool)
    ensures
        res == drawable_if_any(optional_syntax(*node), code@),
    decreases node, 2nat,
{
    match node {
        Some(n) => can_draw(n, code),
        None => true,
    }
}

/// Whether all of `nodes` but the `omitted` ones can be drawn.
pub fn can_draw_list(nodes: &Vec<SyntaxNode>, omitted: Omitted, code: &str) -> (res: bool)
    ensures
        res == drawable_list(syntax_list(nodes@), omitted, code@),
    decreases nodes, 0nat,
{
    let ghost all = syntax_list(nodes@);
    let mut i: usize = 0;
    while i < nodes.len()
        invariant
            i <= nodes.len(),
            all == syntax_list(nodes@),
            forall|j: int|
                0 <= j < i ==> omits(omitted, #[trigger] all[j].kind) || drawable(all[j], code@),
        decreases nodes.len() - i,
    {
        let node = &nodes[i];
        assert(node@ == all[i as int]);
        if !leaves_out(omitted, node.kind.as_str()) && !can_draw(node, code) {
            assert(!omits(omitted, all[i as int].kind));
            return false;
        }
        i = i + 1;
    }
    true
}

/// Whether the `case`s among `nodes` can be drawn.
fn can_draw_cases(nodes: &Vec<SyntaxNode>, code: &str) -> (res: bool)
    ensures
        res == drawable_cases(syntax_list(nodes@), code@),
    decreases nodes, 0nat,
{
    let ghost all = syntax_list(nodes@);
    let mut i: usize = 0;
    while i < nodes.len()
        invariant
            i <= nodes.len(),
            all == syntax_list(nodes@),
            forall|j: int|
                0 <= j < i && #[trigger] all[j].kind == "case_statement"@ ==> {
                    &&& has_text_if_any(all[j].value, code@)
                    &&& drawable_list(all[j].children, Omitted::CaseTokens, code@)
                },
        decreases nodes.len() - i,
    {
        let node = &nodes[i];
        assert(node@ == all[i as int]);
        if same_text(node.kind.as_str(), "case_statement") && !(has_readable_text(
            &node.value,
            code,
        ) && can_draw_list(&node.children, Omitted::CaseTokens, code)) {
            assert(all[i as int].kind == "case_statement"@);
            return false;
        }
        i = i + 1;
    }
    true
}

} // verus!
