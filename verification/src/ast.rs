//! The tree that a template is parsed into.
use vstd::prelude::*;

verus! {

/// A node of a parsed template.
pub enum ASTNode {
    /// Literal text, followed by child nodes.
    TextNode(TextNode),
    /// A placeholder that is replaced by a bound value.
    VariableNode(VariableNode),
}

/// Literal text. Its children, if any, come after its own content.
pub struct TextNode {
    pub children: Vec<ASTNode>,
    pub content: String,
}

/// A placeholder: the name between the opening and the closing marker,
/// exactly as it was written.
pub struct VariableNode {
    pub variable: String,
}

/// What a node is, as plain text and sequences.
pub enum Tree {
    /// Literal text and the trees that follow it.
    Text { content: Seq<char>, children: Seq<Tree> },
    /// A placeholder with its name.
    Variable { name: Seq<char> },
}

impl View for VariableNode {
    type V = Tree;

    open spec fn view(&self) -> Tree {
        Tree::Variable { name: self.variable@ }
    }
}

impl View for TextNode {
    type V = Tree;

    open spec fn view(&self) -> Tree {
        tree_of(ASTNode::TextNode(*self))
    }
}

impl View for ASTNode {
    type V = Tree;

    open spec fn view(&self) -> Tree {
        tree_of(*self)
    }
}

/// The tree of one node: its text and, for literal text, the trees of its
/// children in order.
pub open spec fn tree_of(node: ASTNode) -> Tree
    decreases node,
{
    match node {
        ASTNode::TextNode(text) => Tree::Text {
            content: text.content@,
            children: Seq::new(
                text.children@.len(),
                |k: int|
                    // Always so; the test shows that the recursion ends.
                    if 0 <= k < text.children@.len() {
                        tree_of(text.children@[k])
                    } else {
                        arbitrary()
                    },
            ),
        },
        ASTNode::VariableNode(variable) => Tree::Variable { name: variable.variable@ },
    }
}

/// The trees of a sequence of nodes, in order.
pub open spec fn trees_of(nodes: Seq<ASTNode>) -> Seq<Tree> {
    Seq::new(nodes.len(), |k: int| tree_of(nodes[k]))
}

/// The tree of literal text holds its content and the trees of its children.
pub proof fn lemma_text_tree(text: TextNode)
    ensures
        text@ == (Tree::Text { content: text.content@, children: trees_of(text.children@) }),
{
    assert(text@->Text_children =~= trees_of(text.children@));
}

} // verus!
