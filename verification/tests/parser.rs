use text_template::ast::{ASTNode, TextNode};
use text_template::parser::{append_token, parse, tokenize};

fn texts(tokens: &[String]) -> Vec<&str> {
    tokens.iter().map(|t| t.as_str()).collect()
}

#[test]
fn tokenize_simple() {
    let template = "{{expression}} here {{another expr}}";

    let tokens = tokenize(&template);

    assert_eq!(3, tokens.len());
    assert_eq!("{{expression}}", tokens.get(0).unwrap());
    assert_eq!(" here ", tokens.get(1).unwrap());
    assert_eq!("{{another expr}}", tokens.get(2).unwrap());
}

#[test]
fn parse_simple() {
    let template = "Hello {{harry}}.";

    let ast = parse(template);

    match ast {
        ASTNode::TextNode(TextNode { children: nodes, content }) => {
            assert_eq!(nodes.len(), 3, "Invalid number of root children.");
            assert_eq!(content, "");

            match (&nodes[0], &nodes[1], &nodes[2]) {
                (
                    ASTNode::TextNode(node1),
                    ASTNode::VariableNode(node2),
                    ASTNode::TextNode(node3),
                ) => {
                    assert_eq!(node1.content, "Hello ");
                    assert_eq!(node2.variable, "harry");
                    assert_eq!(node3.content, ".");
                }
                _ => assert_eq!(-1, 1, "Nodes are of incorrect type or order!"),
            }
        }
        _ => assert_eq!(-1, 1, "Invalid root node."),
    }
}

#[test]
fn tokenize_empty_gives_no_tokens() {
    assert!(tokenize("").is_empty());
}

#[test]
fn tokenize_plain_text_is_one_token() {
    assert_eq!(texts(&tokenize("just some text")), vec!["just some text"]);
}

#[test]
fn tokenize_single_markers_are_literal() {
    assert_eq!(texts(&tokenize("a { b } c")), vec!["a { b } c"]);
    assert_eq!(texts(&tokenize("{")), vec!["{"]);
    assert_eq!(texts(&tokenize("}")), vec!["}"]);
    assert_eq!(texts(&tokenize("{}")), vec!["{}"]);
    assert_eq!(texts(&tokenize("}{")), vec!["}{"]);
}

#[test]
fn tokenize_three_markers_pair_from_the_left() {
    assert_eq!(texts(&tokenize("{{{")), vec!["{{{"]);
    assert_eq!(texts(&tokenize("a{{{b}}}c")), vec!["a", "{{{b}}", "}c"]);
    assert_eq!(texts(&tokenize("}}}")), vec!["}}", "}"]);
    assert_eq!(texts(&tokenize("{{{{")), vec!["{{", "{{"]);
    assert_eq!(texts(&tokenize("}}}}")), vec!["}}", "}}"]);
}

#[test]
fn tokenize_nested_placeholder_closes_at_first_pair() {
    assert_eq!(texts(&tokenize("{{ {{x}} }}")), vec!["{{ ", "{{x}}", " }}"]);
}

#[test]
fn tokenize_unclosed_and_unopened() {
    assert_eq!(texts(&tokenize("a {{ b")), vec!["a ", "{{ b"]);
    assert_eq!(texts(&tokenize("a }} b")), vec!["a }}", " b"]);
    assert_eq!(texts(&tokenize("{{a{{b}}")), vec!["{{a", "{{b}}"]);
}

#[test]
fn tokenize_empty_placeholder() {
    assert_eq!(texts(&tokenize("{{}}")), vec!["{{}}"]);
    assert_eq!(texts(&tokenize("x{{}}y")), vec!["x", "{{}}", "y"]);
}

#[test]
fn tokenize_adjacent_placeholders() {
    assert_eq!(texts(&tokenize("{{a}}{{b}}")), vec!["{{a}}", "{{b}}"]);
}

#[test]
fn tokenize_is_lossless() {
    let samples = [
        "",
        "plain",
        "Hello {{name}}.",
        "{{a}}-{{b}}",
        "a {{ b",
        "{{{x}}}",
        "}}{{",
        "{ { } }",
        "{{ {{x}} }}",
        "gr\u{fc}\u{df} {{n\u{e4}me}} \u{1f600}{{",
    ];
    for sample in samples {
        let tokens = tokenize(sample);
        assert_eq!(tokens.concat(), sample);
        assert!(tokens.iter().all(|t| !t.is_empty()));
    }
}

#[test]
fn tokenize_counts_characters_not_bytes() {
    assert_eq!(
        texts(&tokenize("\u{e9}{{\u{e9}\u{1f600}}}\u{e9}")),
        vec!["\u{e9}", "{{\u{e9}\u{1f600}}}", "\u{e9}"]
    );
}

#[test]
fn append_token_moves_a_token() {
    let mut current = String::from("abc");
    let mut tokens = vec![String::from("first")];
    append_token(&mut current, &mut tokens);
    assert_eq!(current, "");
    assert_eq!(tokens, vec![String::from("first"), String::from("abc")]);
}

#[test]
fn append_token_skips_an_empty_token() {
    let mut current = String::new();
    let mut tokens = vec![String::from("first")];
    append_token(&mut current, &mut tokens);
    assert_eq!(current, "");
    assert_eq!(tokens, vec![String::from("first")]);
}

#[test]
fn parse_empty_gives_bare_root() {
    match parse("") {
        ASTNode::TextNode(root) => {
            assert_eq!(root.content, "");
            assert!(root.children.is_empty());
        }
        _ => panic!("the root is literal text"),
    }
}

#[test]
fn parse_keeps_whitespace_in_names() {
    match parse("{{ name }}") {
        ASTNode::TextNode(root) => {
            assert_eq!(root.children.len(), 1);
            match &root.children[0] {
                ASTNode::VariableNode(node) => assert_eq!(node.variable, " name "),
                _ => panic!("a placeholder becomes a variable"),
            }
        }
        _ => panic!("the root is literal text"),
    }
}

#[test]
fn parse_empty_placeholder_has_empty_name() {
    match parse("{{}}") {
        ASTNode::TextNode(root) => {
            assert_eq!(root.children.len(), 1);
            match &root.children[0] {
                ASTNode::VariableNode(node) => assert_eq!(node.variable, ""),
                _ => panic!("a placeholder becomes a variable"),
            }
        }
        _ => panic!("the root is literal text"),
    }
}

#[test]
fn parse_unmatched_markers_become_text() {
    match parse("a {{ b") {
        ASTNode::TextNode(root) => {
            assert_eq!(root.children.len(), 2);
            match (&root.children[0], &root.children[1]) {
                (ASTNode::TextNode(first), ASTNode::TextNode(second)) => {
                    assert_eq!(first.content, "a ");
                    assert!(first.children.is_empty());
                    assert_eq!(second.content, "{{ b");
                    assert!(second.children.is_empty());
                }
                _ => panic!("both children are literal text"),
            }
        }
        _ => panic!("the root is literal text"),
    }
}

#[test]
fn parse_short_marker_runs_become_text() {
    for template in ["{{", "}}", "{{}", "{}}", "{{{"] {
        match parse(template) {
            ASTNode::TextNode(root) => {
                for child in &root.children {
                    assert!(matches!(child, ASTNode::TextNode(_)));
                }
            }
            _ => panic!("the root is literal text"),
        }
    }
}

#[test]
fn parse_name_with_wide_characters() {
    match parse("{{n\u{e4}me\u{1f600}}}") {
        ASTNode::TextNode(root) => {
            assert_eq!(root.children.len(), 1);
            match &root.children[0] {
                ASTNode::VariableNode(node) => assert_eq!(node.variable, "n\u{e4}me\u{1f600}"),
                _ => panic!("a placeholder becomes a variable"),
            }
        }
        _ => panic!("the root is literal text"),
    }
}
