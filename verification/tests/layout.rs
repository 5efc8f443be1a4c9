use syntax_tree::parser::parse_syntax_tree;
use syntax_tree::tree::{Node, NodeKind, SyntaxTree, Token, X_UNIT};

fn token(value: &str) -> Token {
    Token { prefix: String::new(), suffix: String::new(), value: String::from(value) }
}

fn leaf(category: &str, label: &str) -> Node {
    Node {
        category: token(category),
        kind: Box::new(NodeKind::Leaf { label: token(label) }),
        x: 7,
        y: 7,
        whitespace: (String::new(), String::new()),
    }
}

fn subtree(category: &str, left: Node, right: Option<Node>) -> Node {
    Node {
        category: token(category),
        kind: Box::new(NodeKind::Subtree { left, right }),
        x: 7,
        y: 7,
        whitespace: (String::new(), String::new()),
    }
}

fn check_rules(node: &Node, depth: usize, leaves: &mut Vec<u128>) {
    assert_eq!(node.y, depth);
    match &*node.kind {
        NodeKind::Leaf { .. } => leaves.push(node.x),
        NodeKind::Subtree { left, right } => {
            check_rules(left, depth + 1, leaves);
            match right {
                Some(right) => {
                    check_rules(right, depth + 1, leaves);
                    assert_eq!(node.x, (left.x + right.x) / 2);
                    assert_eq!(2 * node.x, left.x + right.x);
                }
                None => assert_eq!(node.x, left.x),
            }
        }
    }
}

const SAMPLE: &str = "[S
  [NP [N Ash] ]
  [VP
    [V caught]
    [NP
      [Det the]
      [NP
        [N Mew]
        [PP
          [P with]
          [NP
            [Det the]
            [NP [N Pokeball] ]
          ]
        ]
      ]
    ]
  ]
]";

#[test]
fn a_single_leaf_stands_at_the_origin() {
    let tree = SyntaxTree::new(leaf("N", "Ash"));
    assert_eq!((tree.root().x, tree.root().y), (0, 0));
}

#[test]
fn a_parent_of_one_stands_above_its_child() {
    let tree = SyntaxTree::new(subtree("NP", leaf("N", "Ash"), None));
    let root = tree.root();
    assert_eq!((root.x, root.y), (0, 0));
    match &*root.kind {
        NodeKind::Subtree { left, right } => {
            assert!(right.is_none());
            assert_eq!((left.x, left.y), (0, 1));
        }
        NodeKind::Leaf { .. } => panic!("the root has a child"),
    }
}

#[test]
fn midpoints_of_midpoints() {
    let tree = SyntaxTree::new(subtree(
        "A",
        subtree("B", leaf("C", "c"), Some(leaf("D", "d"))),
        Some(leaf("E", "e")),
    ));
    let mut walk = tree.iter();
    let mut places = Vec::new();
    while let Some(node) = walk.next() {
        places.push((node.category.value.clone(), node.x, node.y));
    }
    assert_eq!(
        places,
        vec![
            (String::from("A"), X_UNIT + X_UNIT / 4, 0),
            (String::from("B"), X_UNIT / 2, 1),
            (String::from("C"), 0, 2),
            (String::from("D"), X_UNIT, 2),
            (String::from("E"), 2 * X_UNIT, 1),
        ]
    );
    assert_eq!(places[0].1 as f64 / X_UNIT as f64, 1.25);
}

#[test]
fn the_rules_hold_of_a_parsed_tree() {
    let (_, tree) = parse_syntax_tree(SAMPLE).unwrap();
    let mut leaves = Vec::new();
    check_rules(tree.root(), 0, &mut leaves);
    assert_eq!(leaves.len(), 7);
    for (index, x) in leaves.iter().enumerate() {
        assert_eq!(*x, index as u128 * X_UNIT);
    }
}

#[test]
fn the_layout_depends_on_the_shape_alone() {
    let (_, one) = parse_syntax_tree("[S [NP Ash][VP caught]]").unwrap();
    let (_, other) = parse_syntax_tree(" [ T\n[U  v ] [W x ] ] ").unwrap();
    let mut first = one.iter();
    let mut second = other.iter();
    while let Some(node) = first.next() {
        let twin = second.next().unwrap();
        assert_eq!((node.x, node.y), (twin.x, twin.y));
    }
    assert!(second.next().is_none());
}

#[test]
fn laying_out_again_changes_nothing() {
    let (_, tree) = parse_syntax_tree(SAMPLE).unwrap();
    let before = format!("{:?}", tree.root());
    let again = SyntaxTree::new(tree.into_root());
    assert_eq!(format!("{:?}", again.root()), before);
}

#[test]
fn the_walk_yields_every_node_once() {
    let (_, tree) = parse_syntax_tree(SAMPLE).unwrap();
    let mut walk = tree.iter();
    let mut categories = Vec::new();
    while let Some(node) = walk.next() {
        categories.push(&*node.category.value);
    }
    assert_eq!(
        categories,
        vec![
            "S", "NP", "N", "VP", "V", "NP", "Det", "NP", "N", "PP", "P", "NP", "Det", "NP",
            "N"
        ]
    );
}

#[test]
fn is_leaf_tells_the_kinds_apart() {
    let (_, tree) = parse_syntax_tree("[S [NP Ash]]").unwrap();
    assert!(!tree.root().is_leaf());
    match &*tree.root().kind {
        NodeKind::Subtree { left, .. } => assert!(left.is_leaf()),
        NodeKind::Leaf { .. } => panic!("the root has a child"),
    }
}

#[test]
fn a_leaf_has_a_label_and_no_children() {
    let (_, tree) = parse_syntax_tree("[NP Ash ]").unwrap();
    let root = tree.root();
    assert_eq!(root.label().map(|label| &*label.value), Some("Ash"));
    assert_eq!(root.label().map(|label| &*label.suffix), Some(" "));
    assert!(root.left().is_none());
    assert!(root.right().is_none());
}

#[test]
fn a_subtree_has_children_and_no_label() {
    let (_, tree) = parse_syntax_tree("[S [NP Ash][VP caught]]").unwrap();
    let root = tree.root();
    assert!(root.label().is_none());
    assert_eq!(root.left().map(|node| &*node.category.value), Some("NP"));
    assert_eq!(root.right().map(|node| &*node.category.value), Some("VP"));
    let (_, tree) = parse_syntax_tree("[S [NP Ash]]").unwrap();
    let root = tree.root();
    assert!(root.label().is_none());
    assert_eq!(root.left().map(|node| &*node.category.value), Some("NP"));
    assert!(root.right().is_none());
}

#[test]
fn clones_are_equal() {
    let (_, tree) = parse_syntax_tree(SAMPLE).unwrap();
    let copy = tree.root().clone();
    assert_eq!(format!("{:?}", copy), format!("{:?}", tree.root()));
    let token = tree.root().category.clone();
    assert_eq!(token.value, "S");
    assert_eq!(token.suffix, "\n  ");
    let kind = (*tree.root().kind).clone();
    assert_eq!(format!("{:?}", kind), format!("{:?}", tree.root().kind));
}

#[test]
fn midpoints_below_the_grid_are_rounded_down() {
    let mut node = leaf("X", "x");
    for _ in 0..70 {
        node = subtree("X", node, Some(leaf("Y", "y")));
    }
    let tree = SyntaxTree::new(node);
    let mut walk = tree.iter();
    let mut rounded = 0;
    let mut count = 0;
    while let Some(node) = walk.next() {
        count += 1;
        if let NodeKind::Subtree { left, right: Some(right) } = &*node.kind {
            assert_eq!(node.x, (left.x + right.x) / 2);
            assert_eq!((left.y, right.y), (node.y + 1, node.y + 1));
            if 2 * node.x != left.x + right.x {
                rounded += 1;
            }
        }
    }
    assert_eq!(count, 141);
    assert!(rounded > 0);
    assert_eq!(tree.root().y, 0);
    assert!(tree.root().x >= 69 * X_UNIT);
    assert!(tree.root().x <= 69 * X_UNIT + 1);
}
