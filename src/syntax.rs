//! A concrete syntax tree that keeps every token of the source, trivia included.
use vstd::prelude::*;

verus! {

/// The kind of a node or a token. Only the kinds that the editing logic looks
/// at have a variant of their own; every other kind keeps the parser's raw code.
#[derive(Clone, Copy, Debug, PartialEq, Eq, Structural)]
pub enum Kind {
    /// An array value: `[ ... ]`.
    Array,
    /// A value node; inside an array it wraps one array entry.
    Value,
    /// A basic string token, delimited by `"`.
    BasicString,
    /// A literal string token, delimited by `'`.
    LiteralString,
    /// Any other kind, by its raw code.
    Other(u16),
}

/// A leaf of the tree, with its verbatim source text.
#[derive(Debug)]
pub struct SyntaxToken {
    pub kind: Kind,
    pub text: String,
}

/// An inner node of the tree, with its ordered children.
#[derive(Debug)]
pub struct SyntaxNode {
    pub kind: Kind,
    pub children: Vec<SyntaxElement>,
}

/// A child of a node: another node or a token.
#[derive(Debug)]
pub enum SyntaxElement {
    Node(SyntaxNode),
    Token(SyntaxToken),
}

/// The mathematical model of a tree: kinds, the order of children, and the
/// text of every token.
pub enum Tree {
    Node(Kind, Seq<Tree>),
    Token(Kind, Seq<char>),
}

impl Kind {
    /// A string token that the editor rewrites.
    pub open spec fn is_string(self) -> bool {
        self == Kind::BasicString || self == Kind::LiteralString
    }
}

/// The model of an element.
pub open spec fn element_view(e: SyntaxElement) -> Tree
    decreases e,
{
    match e {
        SyntaxElement::Node(n) => Tree::Node(
            n.kind,
            Seq::new(
                n.children@.len(),
                |i: int|
                    if 0 <= i < n.children@.len() {
                        element_view(n.children@[i])
                    } else {
                        Tree::Token(n.kind, Seq::empty())
                    },
            ),
        ),
        SyntaxElement::Token(t) => Tree::Token(t.kind, t.text@),
    }
}

impl View for SyntaxNode {
    type V = Tree;

    open spec fn view(&self) -> Tree {
        element_view(SyntaxElement::Node(*self))
    }
}

} // verus!
