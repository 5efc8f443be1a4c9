use syntax_tree::tree::{Node, NodeKind, SyntaxTree, Token};

fn token(value: &str) -> Token {
    Token {
        prefix: Default::default(),
        suffix: Default::default(),
        value: String::from(value),
    }
}

fn leaf(category: &str) -> Node {
    Node {
        category: token(category),
        kind: Box::new(NodeKind::Leaf { label: token("label") }),
        x: 0,
        y: 0,
        whitespace: (Default::default(), Default::default()),
    }
}

#[test]
fn iter_works() {
    let root = Node {
        category: Token {
            prefix: Default::default(),
            suffix: Default::default(),
            value: String::from("i am root"),
        },
        kind: Box::new(NodeKind::Subtree {
            left: Node {
                category: Token {
                    prefix: Default::default(),
                    suffix: Default::default(),
                    value: String::from("left 1"),
                },
                kind: Box::new(NodeKind::Subtree {
                    left: Node {
                        category: Token {
                            prefix: Default::default(),
                            suffix: Default::default(),
                            value: String::from("left 2"),
                        },
                        kind: Box::new(NodeKind::Leaf {
                            label: Token {
                                prefix: Default::default(),
                                suffix: Default::default(),
                                value: String::from("label"),
                            },
                        }),
                        x: 0,
                        y: 0,
                        whitespace: (Default::default(), Default::default()),
                    },
                    right: Some(Node {
                        category: Token {
                            prefix: Default::default(),
                            suffix: Default::default(),
                            value: String::from("right 2"),
                        },
                        kind: Box::new(NodeKind::Leaf {
                            label: Token {
                                prefix: Default::default(),
                                suffix: Default::default(),
                                value: String::from("label"),
                            },
                        }),
                        x: 0,
                        y: 0,
                        whitespace: (Default::default(), Default::default()),
                    }),
                }),
                x: 0,
                y: 0,
                whitespace: (Default::default(), Default::default()),
            },
            right: Some(Node {
                category: Token {
                    prefix: Default::default(),
                    suffix: Default::default(),
                    value: String::from("right 1"),
                },
                kind: Box::new(NodeKind::Leaf {
                    label: Token {
                        prefix: Default::default(),
                        suffix: Default::default(),
                        value: String::from("label"),
                    },
                }),
                x: 0,
                y: 0,
                whitespace: (Default::default(), Default::default()),
            }),
        }),
        x: 0,
        y: 0,
        whitespace: (Default::default(), Default::default()),
    };

    let tree = SyntaxTree::new(root);
    let mut iter = tree.iter();

    assert_eq!(
        iter.next().map(|node| &*node.category.value),
        Some("i am root")
    );

    assert_eq!(
        iter.next().map(|node| &*node.category.value),
        Some("left 1")
    );

    assert_eq!(
        iter.next().map(|node| &*node.category.value),
        Some("left 2")
    );

    assert_eq!(
        iter.next().map(|node| &*node.category.value),
        Some("right 2")
    );

    assert_eq!(
        iter.next().map(|node| &*node.category.value),
        Some("right 1")
    );

    assert!(iter.next().is_none());
}

#[test]
fn walk_of_a_single_leaf_yields_it_once() {
    let tree = SyntaxTree::new(leaf("N"));
    let mut walk = tree.iter();
    assert_eq!(walk.next().map(|node| &*node.category.value), Some("N"));
    assert!(walk.next().is_none());
    assert!(walk.next().is_none());
}

#[test]
fn each_walk_starts_afresh() {
    let tree = SyntaxTree::new(Node {
        category: token("NP"),
        kind: Box::new(NodeKind::Subtree { left: leaf("Det"), right: Some(leaf("N")) }),
        x: 0,
        y: 0,
        whitespace: (Default::default(), Default::default()),
    });
    let mut first = tree.iter();
    assert_eq!(first.next().map(|node| &*node.category.value), Some("NP"));
    assert_eq!(first.next().map(|node| &*node.category.value), Some("Det"));
    let mut second = tree.iter();
    assert_eq!(second.next().map(|node| &*node.category.value), Some("NP"));
    assert_eq!(first.next().map(|node| &*node.category.value), Some("N"));
    assert!(first.next().is_none());
    assert_eq!(second.next().map(|node| &*node.category.value), Some("Det"));
}
