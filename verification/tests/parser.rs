use syntax_tree::parser::{
    parse_node, parse_node_with, parse_syntax_tree, parse_syntax_tree_with, ParseError,
    ParseErrorKind, ParserConfig, MAX_DEPTH,
};
use syntax_tree::tree::{Node, NodeKind, X_UNIT};

fn children(node: &Node) -> (&Node, Option<&Node>) {
    match &*node.kind {
        NodeKind::Subtree { left, right } => (left, right.as_ref()),
        NodeKind::Leaf { .. } => panic!("a leaf has no children"),
    }
}

fn label(node: &Node) -> &str {
    match &*node.kind {
        NodeKind::Leaf { label } => &label.value,
        NodeKind::Subtree { .. } => panic!("a subtree has no label"),
    }
}

fn failure(input: &str) -> ParseError {
    match parse_syntax_tree(input) {
        Ok(_) => panic!("{:?} should not parse", input),
        Err(error) => error,
    }
}

fn nested(depth: usize) -> String {
    let mut text = String::new();
    for _ in 1..depth {
        text.push_str("[X ");
    }
    text.push_str("[X x]");
    for _ in 1..depth {
        text.push(']');
    }
    text
}

#[test]
fn worked_example() {
    let (rest, tree) = parse_syntax_tree("[S [NP Ash][VP caught]]").unwrap();
    assert_eq!(rest, "");
    let root = tree.root();
    assert_eq!(root.category.value, "S");
    assert_eq!(root.y, 0);
    assert_eq!(root.x, X_UNIT / 2);
    assert_eq!(root.x as f64 / X_UNIT as f64, 0.5);
    let (left, right) = children(root);
    let right = right.unwrap();
    assert_eq!(left.category.value, "NP");
    assert_eq!(label(left), "Ash");
    assert_eq!((left.x, left.y), (0, 1));
    assert_eq!(right.category.value, "VP");
    assert_eq!(label(right), "caught");
    assert_eq!((right.x, right.y), (X_UNIT, 1));
}

#[test]
fn missing_closing_bracket_fails_without_a_tree() {
    let result = parse_syntax_tree("[S [NP Ash]");
    assert!(result.is_err());
    assert_eq!(
        result.err(),
        Some(ParseError { kind: ParseErrorKind::ExpectedCloseBracket, position: 11 })
    );
}

#[test]
fn whitespace_is_kept_where_it_was_read() {
    let (rest, node) = parse_node("  [ S  [NP\tAsh ]\n]  x").unwrap();
    assert_eq!(rest, "x");
    assert_eq!(node.whitespace.0, "  ");
    assert_eq!(node.whitespace.1, "  ");
    assert_eq!(node.category.prefix, " ");
    assert_eq!(node.category.value, "S");
    assert_eq!(node.category.suffix, "  ");
    let (left, right) = children(&node);
    assert!(right.is_none());
    assert_eq!(left.whitespace.0, "");
    assert_eq!(left.whitespace.1, "\n");
    assert_eq!(left.category.prefix, "");
    assert_eq!(left.category.value, "NP");
    assert_eq!(left.category.suffix, "\t");
    match &*left.kind {
        NodeKind::Leaf { label } => {
            assert_eq!(label.prefix, "");
            assert_eq!(label.value, "Ash");
            assert_eq!(label.suffix, " ");
        }
        NodeKind::Subtree { .. } => panic!("NP holds a label"),
    }
}

#[test]
fn parse_node_leaves_the_layout_out() {
    let (_, node) = parse_node("[S [NP Ash][VP caught]]").unwrap();
    assert_eq!((node.x, node.y), (0, 0));
    let (left, right) = children(&node);
    assert_eq!((left.x, left.y), (0, 0));
    assert_eq!((right.unwrap().x, right.unwrap().y), (0, 0));
}

#[test]
fn what_follows_the_tree_is_handed_back() {
    let (rest, tree) = parse_syntax_tree("[S a] [T b]").unwrap();
    assert_eq!(rest, "[T b]");
    assert_eq!(tree.root().category.value, "S");
    assert_eq!(tree.root().whitespace.1, " ");
}

#[test]
fn a_token_is_any_run_without_whitespace_and_brackets() {
    let (rest, node) = parse_node("[N' l'été-2]").unwrap();
    assert_eq!(rest, "");
    assert_eq!(node.category.value, "N'");
    assert_eq!(label(&node), "l'été-2");
}

#[test]
fn only_the_four_blank_characters_are_whitespace() {
    let (_, node) = parse_node("[S\u{a0}x y]").unwrap();
    assert_eq!(node.category.value, "S\u{a0}x");
    assert_eq!(label(&node), "y");
}

#[test]
fn input_that_ends_early() {
    assert_eq!(
        failure(""),
        ParseError { kind: ParseErrorKind::UnexpectedEndOfInput, position: 0 }
    );
    assert_eq!(
        failure(" \t\r\n"),
        ParseError { kind: ParseErrorKind::UnexpectedEndOfInput, position: 4 }
    );
    assert_eq!(
        failure("[ "),
        ParseError { kind: ParseErrorKind::UnexpectedEndOfInput, position: 2 }
    );
    assert_eq!(
        failure("[S "),
        ParseError { kind: ParseErrorKind::UnexpectedEndOfInput, position: 3 }
    );
}

#[test]
fn input_that_does_not_open_a_node() {
    assert_eq!(
        failure("S"),
        ParseError { kind: ParseErrorKind::ExpectedOpenBracket, position: 0 }
    );
    assert_eq!(
        failure("  ] "),
        ParseError { kind: ParseErrorKind::ExpectedOpenBracket, position: 2 }
    );
}

#[test]
fn brackets_in_place_of_tokens() {
    assert_eq!(failure("[ ]"), ParseError { kind: ParseErrorKind::EmptyToken, position: 2 });
    assert_eq!(failure("[[S a]]"), ParseError { kind: ParseErrorKind::EmptyToken, position: 1 });
    assert_eq!(failure("[S]"), ParseError { kind: ParseErrorKind::EmptyToken, position: 2 });
    assert_eq!(failure("[S ]"), ParseError { kind: ParseErrorKind::EmptyToken, position: 3 });
}

#[test]
fn input_that_ends_before_the_closing_bracket() {
    assert_eq!(
        failure("[S a"),
        ParseError { kind: ParseErrorKind::ExpectedCloseBracket, position: 4 }
    );
    assert_eq!(
        failure("[S [A a] [B b] "),
        ParseError { kind: ParseErrorKind::ExpectedCloseBracket, position: 15 }
    );
}

#[test]
fn content_before_the_closing_bracket() {
    assert_eq!(
        failure("[S a b]"),
        ParseError { kind: ParseErrorKind::UnconsumedTrailingContent, position: 5 }
    );
    assert_eq!(
        failure("[S a [B b]]"),
        ParseError { kind: ParseErrorKind::UnconsumedTrailingContent, position: 5 }
    );
    assert_eq!(
        failure("[S [A a] b]"),
        ParseError { kind: ParseErrorKind::UnconsumedTrailingContent, position: 9 }
    );
    assert_eq!(
        failure("[S [A a] [B b] [C c]]"),
        ParseError { kind: ParseErrorKind::UnconsumedTrailingContent, position: 15 }
    );
}

#[test]
fn the_first_error_is_the_one_reported() {
    assert_eq!(
        failure("[S [A a] [B"),
        ParseError { kind: ParseErrorKind::UnexpectedEndOfInput, position: 11 }
    );
    assert_eq!(
        failure("[S [A [B ]] [C c]]"),
        ParseError { kind: ParseErrorKind::EmptyToken, position: 9 }
    );
}

#[test]
fn positions_count_characters() {
    assert_eq!(
        failure("[é ü"),
        ParseError { kind: ParseErrorKind::ExpectedCloseBracket, position: 4 }
    );
}

#[test]
fn strict_parsing_takes_the_standard_categories() {
    let config = ParserConfig::standard();
    assert!(config.strict);
    let source = "[S [NP [Det the] [N cat]] [VP [V sat] [PP [P on] [NP [Adj red] [N mats]]]]]";
    let (rest, tree) = parse_syntax_tree_with(source, &config).unwrap();
    assert_eq!(rest, "");
    assert_eq!(tree.root().source_text(), source);
    let (rest, node) = parse_node_with("[CP [C that] [S x]]", &config).unwrap();
    assert_eq!(rest, "");
    assert_eq!(node.category.value, "CP");
}

#[test]
fn strict_parsing_refuses_other_categories() {
    let config = ParserConfig::standard();
    assert_eq!(
        parse_syntax_tree_with("[S [XP a]]", &config).err(),
        Some(ParseError { kind: ParseErrorKind::InvalidCategory, position: 4 })
    );
    assert_eq!(
        parse_node_with(" [ np a]", &config).err(),
        Some(ParseError { kind: ParseErrorKind::InvalidCategory, position: 3 })
    );
    assert!(parse_syntax_tree("[S [XP a]]").is_ok());
    assert!(parse_node("[np a]").is_ok());
}

#[test]
fn a_label_need_not_be_in_the_vocabulary() {
    let config = ParserConfig::standard();
    assert!(parse_node_with("[N Ash]", &config).is_ok());
}

#[test]
fn a_vocabulary_of_ones_own() {
    let config = ParserConfig::with_vocabulary(vec![String::from("A"), String::from("B")]);
    assert!(config.strict);
    assert!(parse_node_with("[A [B b]]", &config).is_ok());
    assert_eq!(
        parse_node_with("[A [S b]]", &config).err(),
        Some(ParseError { kind: ParseErrorKind::InvalidCategory, position: 4 })
    );
    let nothing = ParserConfig::with_vocabulary(Vec::new());
    assert_eq!(
        parse_node_with("[A a]", &nothing).err(),
        Some(ParseError { kind: ParseErrorKind::InvalidCategory, position: 1 })
    );
}

#[test]
fn free_form_parsing_asks_for_no_vocabulary() {
    let config = ParserConfig::free_form();
    assert!(!config.strict);
    assert!(config.vocabulary.is_empty());
    assert!(parse_node_with("[anything goes]", &config).is_ok());
}

#[test]
fn nesting_up_to_the_limit() {
    assert_eq!(MAX_DEPTH, 64);
    let source = nested(MAX_DEPTH);
    let (rest, tree) = parse_syntax_tree(&source).unwrap();
    assert_eq!(rest, "");
    let mut deepest = 0;
    let mut walk = tree.iter();
    while let Some(node) = walk.next() {
        deepest = deepest.max(node.y);
    }
    assert_eq!(deepest, MAX_DEPTH - 1);
}

#[test]
fn nesting_beyond_the_limit() {
    let source = nested(MAX_DEPTH + 1);
    assert_eq!(
        failure(&source),
        ParseError { kind: ParseErrorKind::NestingTooDeep, position: 3 * MAX_DEPTH }
    );
    assert_eq!(
        parse_node(&source).err(),
        Some(ParseError { kind: ParseErrorKind::NestingTooDeep, position: 3 * MAX_DEPTH })
    );
}
