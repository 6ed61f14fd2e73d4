//! Parsing C with Tree-sitter, and reading the tree that it returns.
use crate::outline::{
    leaf, leaf_if_any, lemma_outline_program, outline, outline_cases, outline_function,
    outline_if_any, outline_list, outline_part, outline_program,
};
use crate::flowchart::{can_draw_program, chart, draw_program, drawable_program, Chart, ParseResult};
use crate::kinds::{law_chart_has_one_terminal, one_terminal, plain};
use crate::syntax::{optional_syntax, syntax_list, Syntax, SyntaxNode};
use crate::text::same_text;
use tree_sitter::{Node, Tree};
use vstd::prelude::*;
use vstd::string::*;
use vstd::utf8::*;

verus! {

/// A syntax tree of Tree-sitter.
#[verifier::external_type_specification]
#[verifier::external_body]
pub struct ExTree(tree_sitter::Tree);

/// A node of a syntax tree of Tree-sitter, with everything below it.
#[verifier::external_type_specification]
#[verifier::external_body]
pub struct ExNode<'tree>(tree_sitter::Node<'tree>);

/// The syntax tree that Tree-sitter's C grammar gives `code`, if it gives one.
pub uninterp spec fn c_syntax(code: Seq<char>) -> Option<Syntax>;

/// The nodes that a tree holds.
pub uninterp spec fn tree_syntax(tree: tree_sitter::Tree) -> Syntax;

/// The nodes that a node holds: itself and what is below it.
pub uninterp spec fn node_syntax(node: tree_sitter::Node<'_>) -> Syntax;

/// The length in bytes of the longest text that is parsed: what a web server
/// takes as the body of a request by default.
pub const MAX_SOURCE_LEN: usize = 2_097_152;

/// The children that the grammar may give a name which drawing asks for.
pub open spec fn field_of(node: Syntax, name: Seq<char>) -> Option<Box<Syntax>> {
    if name == "condition"@ {
        node.condition
    } else if name == "consequence"@ {
        node.consequence
    } else if name == "alternative"@ {
        node.alternative
    } else if name == "initializer"@ {
        node.initializer
    } else if name == "update"@ {
        node.update
    } else if name == "body"@ {
        node.body
    } else {
        node.value
    }
}

/// The names that [`field_of`] tells apart.
pub open spec fn is_field_name(name: Seq<char>) -> bool {
    ||| name == "condition"@
    ||| name == "consequence"@
    ||| name == "alternative"@
    ||| name == "initializer"@
    ||| name == "update"@
    ||| name == "body"@
    ||| name == "value"@
}

/// `tree_sitter::Parser::parse` on a new parser whose language
/// (`tree_sitter::Parser::set_language`) is `tree_sitter_c::LANGUAGE`, without
/// an old tree: the outcome depends on the text alone. The grammar gives no node
/// the kind `terminal` or `connector`.
///
/// A longer text is not handed over: Tree-sitter counts bytes and the costs of
/// errors in 32 bits, and it aborts the process where a cost wraps round. To
/// skip a text costs up to 131 for each byte (100 for a token, 30 for a line, 1
/// for the byte itself), which is far from 32 bits at this length.
#[verifier::external_body]
fn parse_tree(code: &str) -> (res: Option<Tree>)
    requires
        code.spec_bytes().len() <= MAX_SOURCE_LEN,
    ensures
        match res {
            Some(tree) => c_syntax(code@) == Some(tree_syntax(tree)) && plain(tree_syntax(tree)),
            None => c_syntax(code@) is None,
        },
{
    let mut parser = tree_sitter::Parser::new();
    parser.set_language(&tree_sitter_c::LANGUAGE.into()).ok()?;
    parser.parse(code, None)
}

/// `tree_sitter::Tree::root_node`: the node that holds the whole tree.
pub assume_specification[ tree_sitter::Tree::root_node ](tree: &Tree) -> (res: Node<'_>)
    ensures
        node_syntax(res) == tree_syntax(*tree),
;

/// `tree_sitter::Node::kind`: the name of the node's kind.
pub assume_specification<'tree>[ tree_sitter::Node::<'tree>::kind ](node: &Node<'tree>) -> (res:
    &'static str)
    ensures
        res@ == node_syntax(*node).kind,
;

/// `tree_sitter::Node::start_byte`: the byte offset where the node starts.
pub assume_specification<'tree>[ tree_sitter::Node::<'tree>::start_byte ](
    node: &Node<'tree>,
) -> (res: usize)
    ensures
        res == node_syntax(*node).start,
;

/// `tree_sitter::Node::end_byte`: the byte offset where the node ends.
pub assume_specification<'tree>[ tree_sitter::Node::<'tree>::end_byte ](
    node: &Node<'tree>,
) -> (res: usize)
    ensures
        res == node_syntax(*node).end,
;

/// `tree_sitter::Node::children`: the children of a node, in order, here as a
/// vector.
#[verifier::external_body]
fn children<'tree>(node: &Node<'tree>) -> (res: Vec<Node<'tree>>)
    ensures
        res@.len() == node_syntax(*node).children.len(),
        forall|i: int|
            0 <= i < res@.len() ==> node_syntax(#[trigger] res@[i]) == node_syntax(
                *node,
            ).children[i],
{
    let mut cursor = node.walk();
    let res = node.children(&mut cursor).collect();
    res
}

/// `tree_sitter::Node::child_by_field_name`: the first child that the grammar
/// gives the name.
#[verifier::external_body]
fn child_by_field_name<'tree>(node: &Node<'tree>, name: &str) -> (res: Option<Node<'tree>>)
    requires
        is_field_name(name@),
    ensures
        match res {
            Some(child) => field_of(node_syntax(*node), name@) == Some(
                Box::new(node_syntax(child)),
            ),
            None => field_of(node_syntax(*node), name@) is None,
        },
{
    node.child_by_field_name(name)
}

/// The names of the fields differ.
proof fn lemma_field_names(node: Syntax)
    ensures
        field_of(node, "condition"@) == node.condition,
        field_of(node, "consequence"@) == node.consequence,
        field_of(node, "alternative"@) == node.alternative,
        field_of(node, "initializer"@) == node.initializer,
        field_of(node, "update"@) == node.update,
        field_of(node, "body"@) == node.body,
        field_of(node, "value"@) == node.value,
{
    reveal_strlit("condition");
    reveal_strlit("consequence");
    reveal_strlit("alternative");
    reveal_strlit("initializer");
    reveal_strlit("update");
    reveal_strlit("body");
    reveal_strlit("value");
    assert("condition"@.len() == 9);
    assert("consequence"@[0] == 'c');
    assert("alternative"@[0] == 'a');
    assert("initializer"@[0] == 'i');
    assert("update"@.len() == 6);
    assert("body"@.len() == 4);
    assert("value"@.len() == 5);
}

/// Reads a node without its parts.
fn read_leaf(node: &Node<'_>) -> (res: SyntaxNode)
    ensures
        res@ == leaf(node_syntax(*node)),
{
    let res = SyntaxNode {
        kind: node.kind().to_owned(),
        start: node.start_byte(),
        end: node.end_byte(),
        children: Vec::new(),
        condition: None,
        consequence: None,
        alternative: None,
        initializer: None,
        update: None,
        body: None,
        value: None,
    };
    assert(res@.children == Seq::<Syntax>::empty());
    res
}

/// Reads the part of a named child that drawing looks at if it is a text.
fn read_text(node: &Node<'_>, name: &str) -> (res: Option<Box<SyntaxNode>>)
    requires
        is_field_name(name@),
    ensures
        optional_syntax(res) == leaf_if_any(field_of(node_syntax(*node), name@)),
{
    match child_by_field_name(node, name) {
        Some(child) => Some(Box::new(read_leaf(&child))),
        None => None,
    }
}

/// Reads the part of a named child that drawing looks at if it is a statement.
fn read_optional(node: &Node<'_>, name: &str) -> (res: Option<Box<SyntaxNode>>)
    requires
        is_field_name(name@),
    ensures
        optional_syntax(res) == outline_if_any(field_of(node_syntax(*node), name@)),
    decreases node_syntax(*node), 0nat,
{
    match child_by_field_name(node, name) {
        Some(child) => Some(Box::new(read_statement(&child))),
        None => None,
    }
}

/// Reads the parts of a node's children that drawing looks at if they are
/// statements.
fn read_list(node: &Node<'_>) -> (res: Vec<SyntaxNode>)
    ensures
        syntax_list(res@) == outline_list(node_syntax(*node).children),
    decreases node_syntax(*node), 0nat,
{
    let nodes = children(node);
    let ghost all = node_syntax(*node).children;
    let mut res: Vec<SyntaxNode> = Vec::new();
    let mut i: usize = 0;
    while i < nodes.len()
        invariant
            i <= nodes.len(),
            all == node_syntax(*node).children,
            nodes@.len() == all.len(),
            forall|j: int| 0 <= j < all.len() ==> node_syntax(#[trigger] nodes@[j]) == all[j],
            res@.len() == i,
            forall|j: int| 0 <= j < i ==> (#[trigger] res@[j])@ == outline(all[j]),
        decreases nodes.len() - i,
    {
        assert(decreases_to!(node_syntax(*node) => all[i as int]));
        res.push(read_statement(&nodes[i]));
        i = i + 1;
    }
    assert(syntax_list(res@) == outline_list(all));
    res
}

/// Reads the part of a statement that drawing looks at.
fn read_statement(node: &Node<'_>) -> (res: SyntaxNode)
    ensures
        res@ == outline(node_syntax(*node)),
    decreases node_syntax(*node), 1nat,
{
    let kind = node.kind();
    let mut res = read_leaf(node);
    proof {
        lemma_field_names(node_syntax(*node));
    }
    if same_text(kind, "compound_statement") || same_text(kind, "else_clause") {
        res.children = read_list(node);
    } else if same_text(kind, "if_statement") {
        res.condition = read_text(node, "condition");
        res.consequence = read_optional(node, "consequence");
        res.alternative = read_optional(node, "alternative");
    } else if same_text(kind, "while_statement") {
        res.condition = read_text(node, "condition");
        res.body = read_optional(node, "body");
    } else if same_text(kind, "for_statement") {
        res.initializer = read_text(node, "initializer");
        res.condition = read_text(node, "condition");
        res.update = read_text(node, "update");
        res.body = read_optional(node, "body");
    } else if same_text(kind, "do_statement") {
        res.condition = read_text(node, "condition");
        res.body = read_optional(node, "body");
    } else if same_text(kind, "switch_statement") {
        res.value = read_text(node, "value");
        res.body = read_switch_body(node);
    }
    res
}

/// Reads the part of the body of a `switch` that drawing looks at.
fn read_switch_body(node: &Node<'_>) -> (res: Option<Box<SyntaxNode>>)
    ensures
        optional_syntax(res) == (match node_syntax(*node).body {
            Some(b) => Some(Box::new(Syntax { children: outline_cases(b.children), ..leaf(*b) })),
            None => None,
        }),
    decreases node_syntax(*node), 0nat,
{
    proof {
        lemma_field_names(node_syntax(*node));
    }
    match child_by_field_name(node, "body") {
        Some(body) => {
            let nodes = children(&body);
            let ghost all = node_syntax(body).children;
            let mut list: Vec<SyntaxNode> = Vec::new();
            let mut i: usize = 0;
            while i < nodes.len()
                invariant
                    i <= nodes.len(),
                    node_syntax(*node).body == Some(Box::new(node_syntax(body))),
                    all == node_syntax(body).children,
                    nodes@.len() == all.len(),
                    forall|j: int|
                        0 <= j < all.len() ==> node_syntax(#[trigger] nodes@[j]) == all[j],
                    list@.len() == i,
                    forall|j: int|
                        0 <= j < i ==> (#[trigger] list@[j])@ == outline_cases(all)[j],
                decreases nodes.len() - i,
            {
                let case = &nodes[i];
                proof {
                    lemma_field_names(node_syntax(*case));
                    assert(decreases_to!(node_syntax(*node) => node_syntax(*node).body->0));
                    assert(decreases_to!(node_syntax(body) => all));
                    assert(decreases_to!(all => all[i as int]));
                }
                let mut one = read_leaf(case);
                if same_text(case.kind(), "case_statement") {
                    one.value = read_text(case, "value");
                    one.children = read_list(case);
                }
                assert(one@ == outline_cases(all)[i as int]);
                list.push(one);
                i = i + 1;
            }
            let mut res = read_leaf(&body);
            assert(syntax_list(list@) == outline_cases(all));
            res.children = list;
            Some(Box::new(res))
        },
        None => None,
    }
}

/// Reads the part of a function that drawing looks at.
fn read_parts(node: &Node<'_>) -> (res: Vec<SyntaxNode>)
    ensures
        syntax_list(res@) == node_syntax(*node).children.map_values(|p: Syntax| outline_part(p)),
{
    let nodes = children(node);
    let ghost all = node_syntax(*node).children;
    let mut res: Vec<SyntaxNode> = Vec::new();
    let mut i: usize = 0;
    while i < nodes.len()
        invariant
            i <= nodes.len(),
            nodes@.len() == all.len(),
            forall|j: int| 0 <= j < all.len() ==> node_syntax(#[trigger] nodes@[j]) == all[j],
            res@.len() == i,
            forall|j: int| 0 <= j < i ==> (#[trigger] res@[j])@ == outline_part(all[j]),
        decreases nodes.len() - i,
    {
        let part = &nodes[i];
        let mut one = read_leaf(part);
        if same_text(part.kind(), "compound_statement") {
            one.children = read_list(part);
        }
        assert(one@ == outline_part(all[i as int]));
        res.push(one);
        i = i + 1;
    }
    assert(syntax_list(res@) == all.map_values(|p: Syntax| outline_part(p)));
    res
}

/// Reads the part of a program that drawing looks at.
fn read_program(root: &Node<'_>) -> (res: SyntaxNode)
    ensures
        res@ == outline_program(node_syntax(*root)),
{
    let nodes = children(root);
    let ghost all = node_syntax(*root).children;
    let mut list: Vec<SyntaxNode> = Vec::new();
    let mut i: usize = 0;
    while i < nodes.len()
        invariant
            i <= nodes.len(),
            nodes@.len() == all.len(),
            forall|j: int| 0 <= j < all.len() ==> node_syntax(#[trigger] nodes@[j]) == all[j],
            list@.len() == i,
            forall|j: int| 0 <= j < i ==> (#[trigger] list@[j])@ == outline_function(all[j]),
        decreases nodes.len() - i,
    {
        let node = &nodes[i];
        let mut one = read_leaf(node);
        if same_text(node.kind(), "function_definition") {
            one.children = read_parts(node);
        }
        assert(one@ == outline_function(all[i as int]));
        list.push(one);
        i = i + 1;
    }
    assert(syntax_list(list@) == all.map_values(|f: Syntax| outline_function(f)));
    let mut res = read_leaf(root);
    res.children = list;
    res
}

/// Why a source text has no flowchart.
#[derive(Clone, Copy, Debug, PartialEq, Eq, Structural)]
pub enum ParseFailure {
    /// The text is longer than is parsed.
    TooLong,
    /// The parser returned no tree.
    NoTree,
    /// A statement lacks a part that it cannot be drawn without, or a text does
    /// not lie between characters of the source.
    Incomplete,
}

/// Whether `code` is short enough to be parsed.
pub open spec fn fits_parser(code: Seq<char>) -> bool {
    encode_utf8(code).len() <= MAX_SOURCE_LEN
}

/// The flowchart of the tree that the parser gave `code`.
pub open spec fn chart_of_tree(tree: Option<Syntax>, code: Seq<char>) -> Result<
    Chart,
    ParseFailure,
> {
    match tree {
        Some(root) => if drawable_program(root, code) {
            Ok(chart(root, code))
        } else {
            Err(ParseFailure::Incomplete)
        },
        None => Err(ParseFailure::NoTree),
    }
}

/// The view of an outcome.
pub open spec fn outcome(res: Result<ParseResult, ParseFailure>) -> Result<Chart, ParseFailure> {
    match res {
        Ok(r) => Ok(r@),
        Err(e) => Err(e),
    }
}

/// Draws the flowchart of a syntax tree, if there is one and it can be drawn.
pub fn draw_tree(tree: Option<SyntaxNode>, code: &str) -> (res: Result<ParseResult, ParseFailure>)
    ensures
        outcome(res) == chart_of_tree(
            match tree {
                Some(root) => Some(root@),
                None => None,
            },
            code@,
        ),
{
    match tree {
        Some(root) => if can_draw_program(&root, code) {
            Ok(draw_program(&root, code))
        } else {
            Err(ParseFailure::Incomplete)
        },
        None => Err(ParseFailure::NoTree),
    }
}

/// Parses a C source text and draws its flowchart, whose one terminal is its last
/// node and whose connectors are without a label.
pub fn parse_c_code(code: &str) -> (res: Result<ParseResult, ParseFailure>)
    ensures
        outcome(res) == (if fits_parser(code@) {
            chart_of_tree(c_syntax(code@), code@)
        } else {
            Err(ParseFailure::TooLong)
        }),
        res matches Ok(r) ==> one_terminal(r@.nodes),
{
    if code.as_bytes().len() > MAX_SOURCE_LEN {
        return Err(ParseFailure::TooLong);
    }
    match parse_tree(code) {
        Some(tree) => {
            let root = tree.root_node();
            proof {
                lemma_outline_program(node_syntax(root), code@);
                law_chart_has_one_terminal(node_syntax(root), code@);
            }
            draw_tree(Some(read_program(&root)), code)
        },
        None => draw_tree(None, code),
    }
}

} // verus!
