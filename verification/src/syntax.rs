//! Concrete syntax trees of C, as plain values.
use vstd::prelude::*;

verus! {

/// A node of a concrete syntax tree.
///
/// `start` and `end` are byte offsets into the source text. The fields after
/// `children` are the children that the grammar gives these names.
#[derive(Debug, PartialEq, Eq)]
pub struct SyntaxNode {
    pub kind: String,
    pub start: usize,
    pub end: usize,
    pub children: Vec<SyntaxNode>,
    pub condition: Option<Box<SyntaxNode>>,
    pub consequence: Option<Box<SyntaxNode>>,
    pub alternative: Option<Box<SyntaxNode>>,
    pub initializer: Option<Box<SyntaxNode>>,
    pub update: Option<Box<SyntaxNode>>,
    pub body: Option<Box<SyntaxNode>>,
    pub value: Option<Box<SyntaxNode>>,
}

/// What a [`SyntaxNode`] stands for.
pub struct Syntax {
    pub kind: Seq<char>,
    pub start: nat,
    pub end: nat,
    pub children: Seq<Syntax>,
    pub condition: Option<Box<Syntax>>,
    pub consequence: Option<Box<Syntax>>,
    pub alternative: Option<Box<Syntax>>,
    pub initializer: Option<Box<Syntax>>,
    pub update: Option<Box<Syntax>>,
    pub body: Option<Box<Syntax>>,
    pub value: Option<Box<Syntax>>,
}

/// The view of an optional node.
pub open spec fn optional_syntax(node: Option<Box<SyntaxNode>>) -> Option<Box<Syntax>>
    decreases node,
{
    match node {
        Some(n) => Some(Box::new(n.syntax())),
        None => None,
    }
}

/// The views of a list of nodes.
pub open spec fn syntax_list(nodes: Seq<SyntaxNode>) -> Seq<Syntax>
    decreases nodes,
{
    Seq::new(
        nodes.len(),
        |i: int|
            if 0 <= i < nodes.len() {
                nodes[i].syntax()
            } else {
                arbitrary()
            },
    )
}

impl SyntaxNode {
    /// The view of a node.
    pub open spec fn syntax(&self) -> Syntax
        decreases self,
    {
        Syntax {
            kind: self.kind@,
            start: self.start as nat,
            end: self.end as nat,
            children: syntax_list(self.children@),
            condition: optional_syntax(self.condition),
            consequence: optional_syntax(self.consequence),
            alternative: optional_syntax(self.alternative),
            initializer: optional_syntax(self.initializer),
            update: optional_syntax(self.update),
            body: optional_syntax(self.body),
            value: optional_syntax(self.value),
        }
    }
}

impl View for SyntaxNode {
    type V = Syntax;

    open spec fn view(&self) -> Syntax {
        self.syntax()
    }
}

/// The view of a node holds what the node holds.
pub proof fn law_syntax_view(node: SyntaxNode, part: Option<Box<SyntaxNode>>)
    ensures
        node@.kind == node.kind@,
        node@.start == node.start,
        node@.end == node.end,
        node@.children.len() == node.children@.len(),
        forall|i: int| 0 <= i < node.children@.len() ==> #[trigger] node@.children[i]
            == node.children@[i]@,
        node@.condition == optional_syntax(node.condition),
        node@.consequence == optional_syntax(node.consequence),
        node@.alternative == optional_syntax(node.alternative),
        node@.initializer == optional_syntax(node.initializer),
        node@.update == optional_syntax(node.update),
        node@.body == optional_syntax(node.body),
        node@.value == optional_syntax(node.value),
        part matches Some(p) ==> optional_syntax(part) == Some(Box::new(p@)),
        part is None ==> optional_syntax(part) is None,
{
}

} // verus!
