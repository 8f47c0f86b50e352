//! Splitting a template into tokens, and building the tree from them.
use crate::ast::{lemma_text_tree, trees_of, ASTNode, TextNode, Tree, VariableNode};
use vstd::prelude::*;
use vstd::std_specs::iter::IteratorSpec;

verus! {

/// The character that, written twice, opens a placeholder.
pub const OPEN_EXPRESSION_CHAR: char = '{';

/// The character that, written twice, closes a placeholder.
pub const CLOSE_EXPRESSION_CHAR: char = '}';

/// Two opening characters stand at `i` and `i + 1`.
pub open spec fn opens_at(s: Seq<char>, i: int) -> bool {
    &&& 0 <= i
    &&& i + 1 < s.len()
    &&& s[i] == OPEN_EXPRESSION_CHAR
    &&& s[i + 1] == OPEN_EXPRESSION_CHAR
}

/// Two closing characters stand at `i` and `i + 1`.
pub open spec fn closes_at(s: Seq<char>, i: int) -> bool {
    &&& 0 <= i
    &&& i + 1 < s.len()
    &&& s[i] == CLOSE_EXPRESSION_CHAR
    &&& s[i + 1] == CLOSE_EXPRESSION_CHAR
}

/// The text from `from` up to `to` as one token, or no token where it is empty.
pub open spec fn piece(s: Seq<char>, from: int, to: int) -> Seq<Seq<char>> {
    if from < to {
        seq![s.subrange(from, to)]
    } else {
        Seq::empty()
    }
}

/// The tokens still to come when the scan stands at `i` and the token being
/// collected began at `start`.
///
/// An opening pair ends the token before it and begins the next one; a closing
/// pair is taken into the token and ends it; any other character is taken into
/// the token. Both characters of a pair are passed at once, so of three equal
/// markers the third stands alone.
pub open spec fn tokens_from(s: Seq<char>, start: int, i: int) -> Seq<Seq<char>>
    decreases s.len() - i,
{
    if i >= s.len() {
        piece(s, start, s.len() as int)
    } else if opens_at(s, i) {
        piece(s, start, i) + tokens_from(s, i, i + 2)
    } else if closes_at(s, i) {
        seq![s.subrange(start, i + 2)] + tokens_from(s, i + 2, i + 2)
    } else {
        tokens_from(s, start, i + 1)
    }
}

/// The tokens of a whole template.
pub open spec fn token_seq(s: Seq<char>) -> Seq<Seq<char>> {
    tokens_from(s, 0, 0)
}

/// The character strings that a vector of tokens holds.
pub open spec fn token_views(tokens: Seq<String>) -> Seq<Seq<char>> {
    tokens.map_values(|t: String| t@)
}

/// `String::push`: the character is added at the end, and nothing else changes.
pub assume_specification[ String::push ](s: &mut String, c: char)
    ensures
        final(s)@ == old(s)@.push(c),
;

/// Moves the token being collected to the end of `tokens` and leaves it empty.
/// An empty token is not stored.
pub fn append_token(current_token: &mut String, tokens: &mut Vec<String>)
    ensures
        final(current_token)@ == Seq::<char>::empty(),
        final(tokens)@ == if old(current_token)@.len() > 0 {
            old(tokens)@.push(*old(current_token))
        } else {
            old(tokens)@
        },
{
    if !current_token.as_str().is_empty() {
        tokens.push(current_token.clone());
        *current_token = String::new();
    }
}

/// Splits a template into its tokens: runs of literal text and placeholders.
///
/// The tokens are exactly those of `token_seq`. None of them is empty, and
/// joined in order they give the template back.
pub fn tokenize(template: &str) -> (tokens: Vec<String>)
    ensures
        token_views(tokens@) == token_seq(template@),
        token_views(tokens@).flatten() == template@,
        forall|k: int| 0 <= k < tokens@.len() ==> (#[trigger] tokens@[k])@.len() > 0,
{
    let ghost s = template@;
    let mut tokens: Vec<String> = Vec::new();
    let mut characters = template.chars();
    let mut current_token = String::new();
    let mut upcoming: Option<char> = characters.next();
    let ghost mut start: int = 0;
    let ghost mut i: int = 0;
    loop
        invariant
            s == template@,
            0 <= start <= i <= s.len(),
            characters.obeys_prophetic_iter_laws(),
            i < s.len() ==> upcoming == Some(s[i]) && characters.remaining() == s.skip(i + 1),
            i == s.len() ==> upcoming is None,
            current_token@ == s.subrange(start, i),
            token_views(tokens@) + tokens_from(s, start, i) == token_seq(s),
        ensures
            upcoming is None,
        decreases s.len() - i,
    {
        let c = match upcoming {
            Some(c) => c,
            None => {
                break;
            },
        };
        let following = characters.next();
        match following {
            Some(next_char) => {
                if c == OPEN_EXPRESSION_CHAR && next_char == OPEN_EXPRESSION_CHAR {
                    upcoming = characters.next();
                    append_token(&mut current_token, &mut tokens);
                    current_token.push(c);
                    current_token.push(next_char);
                    proof {
                        start = i;
                        i = i + 2;
                    }
                } else if c == CLOSE_EXPRESSION_CHAR && next_char == CLOSE_EXPRESSION_CHAR {
                    upcoming = characters.next();
                    current_token.push(c);
                    current_token.push(next_char);
                    append_token(&mut current_token, &mut tokens);
                    proof {
                        assert(s.subrange(start, i).push(c).push(next_char) =~= s.subrange(
                            start,
                            i + 2,
                        ));
                        start = i + 2;
                        i = i + 2;
                    }
                } else {
                    current_token.push(c);
                    upcoming = following;
                    proof {
                        i = i + 1;
                    }
                }
            },
            None => {
                current_token.push(c);
                upcoming = following;
                proof {
                    i = i + 1;
                }
            },
        }
    }
    let ghost before = token_views(tokens@);
    append_token(&mut current_token, &mut tokens);
    proof {
        assert(token_views(tokens@) == before + piece(s, start, i));
        lemma_tokens_lossless(s);
        lemma_tokens_from_nonempty(s, 0, 0);
        assert forall|k: int| 0 <= k < tokens@.len() implies (#[trigger] tokens@[k])@.len() > 0 by {
            assert(token_views(tokens@)[k] == tokens@[k]@);
        }
    }
    tokens
}

/// A token is a placeholder when it begins with two opening characters, ends
/// with two closing characters, and has at least four characters.
pub open spec fn is_placeholder(token: Seq<char>) -> bool {
    &&& token.len() >= 4
    &&& token[0] == OPEN_EXPRESSION_CHAR
    &&& token[1] == OPEN_EXPRESSION_CHAR
    &&& token[token.len() - 2] == CLOSE_EXPRESSION_CHAR
    &&& token[token.len() - 1] == CLOSE_EXPRESSION_CHAR
}

/// The tree of one token: a placeholder gives a variable named by what stands
/// between its markers, untrimmed; any other token gives literal text without
/// children.
pub open spec fn token_tree(token: Seq<char>) -> Tree {
    if is_placeholder(token) {
        Tree::Variable { name: token.subrange(2, token.len() - 2) }
    } else {
        Tree::Text { content: token, children: Seq::empty() }
    }
}

/// The tree of a whole template: literal text with no content of its own,
/// whose children are the trees of the template's tokens, in order.
pub open spec fn parsed(s: Seq<char>) -> Tree {
    Tree::Text {
        content: Seq::empty(),
        children: token_seq(s).map_values(|token: Seq<char>| token_tree(token)),
    }
}

/// Parses a template into its tree. Every string is accepted: markers that
/// do not pair up stay literal text.
pub fn parse(template: &str) -> (root: ASTNode)
    ensures
        root is TextNode,
        root@ == parsed(template@),
{
    let tokens = tokenize(template);
    let mut root = TextNode { children: Vec::new(), content: String::new() };
    let ghost all = token_views(tokens@);
    for token in iter: tokens
        invariant
            all == token_views(iter.seq()),
            root.content@ == Seq::<char>::empty(),
            root.children@.len() == iter.index(),
            forall|j: int|
                0 <= j < iter.index() ==> (#[trigger] root.children@[j])@ == token_tree(all[j]),
    {
        let text: &str = token.as_str();
        let length = text.unicode_len();
        let marked = length >= 4 && text.get_char(0) == OPEN_EXPRESSION_CHAR && text.get_char(1)
            == OPEN_EXPRESSION_CHAR && text.get_char(length - 2) == CLOSE_EXPRESSION_CHAR
            && text.get_char(length - 1) == CLOSE_EXPRESSION_CHAR;
        if marked {
            let var: &str = text.substring_char(2, length - 2);
            root.children.push(ASTNode::VariableNode(VariableNode { variable: var.to_owned() }));
        } else {
            let literal = TextNode { children: Vec::new(), content: token };
            proof {
                lemma_text_tree(literal);
                assert(trees_of(literal.children@) =~= Seq::<Tree>::empty());
            }
            root.children.push(ASTNode::TextNode(literal));
        }
    }
    proof {
        lemma_text_tree(root);
        assert(trees_of(root.children@) =~= token_seq(template@).map_values(
            |token: Seq<char>| token_tree(token),
        ));
    }
    ASTNode::TextNode(root)
}

/// Joined in order, the tokens still to come are the text from the start of
/// the token being collected to the end of the template.
pub proof fn lemma_tokens_from_joined(s: Seq<char>, start: int, i: int)
    requires
        0 <= start <= i <= s.len(),
    ensures
        tokens_from(s, start, i).flatten() == s.subrange(start, s.len() as int),
    decreases s.len() - i,
{
    let n = s.len() as int;
    if i >= n {
        lemma_piece_joined(s, start, n);
    } else if opens_at(s, i) {
        lemma_tokens_from_joined(s, i, i + 2);
        lemma_piece_joined(s, start, i);
        vstd::seq_lib::lemma_flatten_concat(piece(s, start, i), tokens_from(s, i, i + 2));
    } else if closes_at(s, i) {
        lemma_tokens_from_joined(s, i + 2, i + 2);
        let head = seq![s.subrange(start, i + 2)];
        head.lemma_flatten_one_element();
        vstd::seq_lib::lemma_flatten_concat(head, tokens_from(s, i + 2, i + 2));
    } else {
        lemma_tokens_from_joined(s, start, i + 1);
    }
}

/// Tokenizing loses nothing: joined in order, the tokens of a template are the
/// template itself.
pub proof fn lemma_tokens_lossless(s: Seq<char>)
    ensures
        token_seq(s).flatten() == s,
{
    lemma_tokens_from_joined(s, 0, 0);
}

/// Where no marker pair stands at or after `i`, the rest of the template
/// goes into the token being collected and nothing follows it.
pub proof fn lemma_tokens_without_pairs(s: Seq<char>, start: int, i: int)
    requires
        0 <= start <= i <= s.len(),
        forall|j: int| i <= j ==> !opens_at(s, j) && !closes_at(s, j),
    ensures
        tokens_from(s, start, i) == piece(s, start, s.len() as int),
    decreases s.len() - i,
{
    if i < s.len() {
        lemma_tokens_without_pairs(s, start, i + 1);
    }
}

/// Joined, a piece is the text it was cut from.
proof fn lemma_piece_joined(s: Seq<char>, from: int, to: int)
    requires
        0 <= from <= to <= s.len(),
    ensures
        piece(s, from, to).flatten() == s.subrange(from, to),
{
    if from < to {
        piece(s, from, to).lemma_flatten_one_element();
    }
}

/// None of the tokens still to come is empty.
pub proof fn lemma_tokens_from_nonempty(s: Seq<char>, start: int, i: int)
    requires
        0 <= start <= i <= s.len(),
    ensures
        forall|k: int|
            0 <= k < tokens_from(s, start, i).len() ==> (#[trigger] tokens_from(s, start, i)[k]).len()
                > 0,
    decreases s.len() - i,
{
    let all = tokens_from(s, start, i);
    if i >= s.len() {
    } else if opens_at(s, i) {
        lemma_tokens_from_nonempty(s, i, i + 2);
        assert(all == piece(s, start, i) + tokens_from(s, i, i + 2));
        assert forall|k: int| 0 <= k < all.len() implies (#[trigger] all[k]).len() > 0 by {}
    } else if closes_at(s, i) {
        lemma_tokens_from_nonempty(s, i + 2, i + 2);
        assert(all == seq![s.subrange(start, i + 2)] + tokens_from(s, i + 2, i + 2));
        assert forall|k: int| 0 <= k < all.len() implies (#[trigger] all[k]).len() > 0 by {}
    } else {
        lemma_tokens_from_nonempty(s, start, i + 1);
        assert(all == tokens_from(s, start, i + 1));
    }
}

} // verus!
