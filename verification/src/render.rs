//! Rendering a tree against a mapping from names to values.
use crate::ast::{lemma_text_tree, trees_of, ASTNode, TextNode, Tree, VariableNode};
use crate::parser::{
    closes_at, is_placeholder, lemma_tokens_without_pairs, opens_at, parsed, token_seq, token_tree,
};
use std::collections::HashMap;
use vstd::prelude::*;

verus! {

impl Tree {
    /// The text that a tree renders to: literal text gives its own content
    /// followed by what its children render to, in order; a placeholder gives
    /// the value bound to its name, or nothing where the name is not bound.
    pub open spec fn rendered(self, bindings: Map<Seq<char>, Seq<char>>) -> Seq<char>
        decreases self, 0nat,
    {
        match self {
            Tree::Text { content, children } => content + rendered_first(
                children,
                children.len(),
                bindings,
            ),
            Tree::Variable { name } => if bindings.contains_key(name) {
                bindings[name]
            } else {
                Seq::empty()
            },
        }
    }
}

/// What the first `count` of `trees` render to, joined in order.
pub open spec fn rendered_first(
    trees: Seq<Tree>,
    count: nat,
    bindings: Map<Seq<char>, Seq<char>>,
) -> Seq<char>
    decreases trees, count,
{
    if count == 0 || count > trees.len() {
        Seq::empty()
    } else {
        rendered_first(trees, (count - 1) as nat, bindings) + trees[count - 1].rendered(bindings)
    }
}

/// The names that a map binds, each with its value, as plain text. A name is
/// bound when a key of the map has exactly its characters.
pub uninterp spec fn bindings_of(map: &HashMap<&str, &str>) -> Map<Seq<char>, Seq<char>>;

/// `HashMap::get` with a string key. The map compares keys by their
/// characters, so the result is the value stored under `name`, or `None` where
/// no key has these characters. It is stated here, over `bindings_of`, because
/// vstd's own contract for `get` is silent for keys of type `&str`.
#[verifier::external_body]
fn lookup<'m, 'a>(map: &'m HashMap<&'a str, &'a str>, name: &str) -> (value: Option<&'m &'a str>)
    ensures
        value matches Some(found) ==> bindings_of(map).contains_key(name@) && bindings_of(map)[name@]
            == found@,
        value is None ==> !bindings_of(map).contains_key(name@),
{
    map.get(name)
}

impl VariableNode {
    /// The value bound to this placeholder's name, or an empty string where
    /// the name is not bound.
    pub fn render(&self, map: &HashMap<&str, &str>) -> (out: String)
        ensures
            out@ == self@.rendered(bindings_of(map)),
    {
        match lookup(map, self.variable.as_str()) {
            None => String::new(),
            Some(value) => String::from_str(*value),
        }
    }
}

impl TextNode {
    /// This node's content followed by what its children render to, in order.
    pub fn render(&self, map: &HashMap<&str, &str>) -> (out: String)
        ensures
            out@ == self@.rendered(bindings_of(map)),
        decreases self,
    {
        let ghost bindings = bindings_of(map);
        let ghost trees = trees_of(self.children@);
        let mut rendered_content = self.content.clone();
        let mut k: usize = 0;
        while k < self.children.len()
            invariant
                k <= self.children@.len(),
                bindings == bindings_of(map),
                trees == trees_of(self.children@),
                rendered_content@ == self.content@ + rendered_first(trees, k as nat, bindings),
            decreases self.children@.len() - k,
        {
            let content = self.children[k].render(map);
            rendered_content.append(content.as_str());
            k = k + 1;
        }
        proof {
            lemma_text_tree(*self);
        }
        rendered_content
    }
}

impl ASTNode {
    /// What this node renders to against the given bindings.
    pub fn render(&self, map: &HashMap<&str, &str>) -> (out: String)
        ensures
            out@ == self@.rendered(bindings_of(map)),
        decreases self,
    {
        match self {
            ASTNode::TextNode(node) => node.render(map),
            ASTNode::VariableNode(node) => node.render(map),
        }
    }
}

/// A template without `{{` and without `}}` renders to itself, whatever the
/// bindings are.
pub proof fn lemma_plain_text_round_trip(s: Seq<char>, bindings: Map<Seq<char>, Seq<char>>)
    requires
        forall|i: int| !opens_at(s, i) && !closes_at(s, i),
    ensures
        parsed(s).rendered(bindings) == s,
{
    lemma_tokens_without_pairs(s, 0, 0);
    let trees = token_seq(s).map_values(|token: Seq<char>| token_tree(token));
    if s.len() > 0 {
        assert(s.subrange(0, s.len() as int) =~= s);
        assert(token_seq(s) == seq![s]);
        assert(!is_placeholder(s)) by {
            assert(!opens_at(s, 0));
        }
        assert(trees[0] == (Tree::Text { content: s, children: Seq::empty() }));
        assert(rendered_first(trees, 1, bindings) == rendered_first(trees, 0, bindings)
            + trees[0].rendered(bindings));
    }
}

} // verus!
