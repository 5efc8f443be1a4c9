use syntax_tree::parser::{parse_node, parse_syntax_tree};
use syntax_tree::format::{Segment, SegmentKind};
use syntax_tree::tree::{Node, NodeKind, SyntaxTree, Token};

const SAMPLE: &str = "[S
  [NP [N Ash] ]
  [VP
    [V caught]
    [NP
      [Det the]
      [NP
        [N Mew]
        [PP
          [P with]
          [NP
            [Det the]
            [NP [N Pokeball] ]
          ]
        ]
      ]
    ]
  ]
]";

fn round_trip(source: &str) {
    let (rest, tree) = parse_syntax_tree(source).unwrap();
    let mut text = tree.root().source_text();
    text.push_str(rest);
    assert_eq!(text, source);
}

#[test]
fn text_of_a_token() {
    let token = Token {
        prefix: String::from(" "),
        suffix: String::from("\t\n"),
        value: String::from("NP"),
    };
    let mut out = String::from(">");
    token.write_text(&mut out);
    assert_eq!(out, "> NP\t\n");
}

#[test]
fn text_of_a_node() {
    let (_, node) = parse_node(" [ S [NP Ash ] ]\n").unwrap();
    assert_eq!(node.source_text(), " [ S [NP Ash ] ]\n");
    let mut out = String::from("tree:");
    node.write_text(&mut out);
    assert_eq!(out, "tree: [ S [NP Ash ] ]\n");
}

#[test]
fn round_trip_of_the_sample() {
    round_trip(SAMPLE);
    let (rest, tree) = parse_syntax_tree(SAMPLE).unwrap();
    assert_eq!(rest, "");
    assert_eq!(tree.root().source_text(), SAMPLE);
}

#[test]
fn round_trip_keeps_every_blank() {
    round_trip("[S a]");
    round_trip("\r\n\t [\tS\r\n[NP  Ash\t]  [VP\n caught ]\n]\t\r\n");
    round_trip("   [S [NP Ash][VP caught]]   ");
    round_trip("[S [N a]] [T b] and more");
    round_trip("[λ [α β][γ δ]]…");
}

#[test]
fn parsing_the_text_again_gives_the_same_tree() {
    let sources = [SAMPLE, " [ S\t[NP Ash ] [VP caught]\n]  ", "[S a]rest"];
    for source in sources {
        let (_, first) = parse_syntax_tree(source).unwrap();
        let text = first.root().source_text();
        let (rest, second) = parse_syntax_tree(&text).unwrap();
        assert_eq!(rest, "");
        assert_eq!(format!("{:?}", second.root()), format!("{:?}", first.root()));
    }
}

#[test]
fn segments_tell_categories_and_labels_apart() {
    let (_, node) = parse_node(" [ S [NP Ash ] ]\n").unwrap();
    let segments: Vec<(SegmentKind, String)> =
        node.segments().into_iter().map(|segment| (segment.kind, segment.text)).collect();
    assert_eq!(
        segments,
        vec![
            (SegmentKind::Plain, String::from(" ")),
            (SegmentKind::Plain, String::from("[")),
            (SegmentKind::Category, String::from(" S ")),
            (SegmentKind::Plain, String::from("")),
            (SegmentKind::Plain, String::from("[")),
            (SegmentKind::Category, String::from("NP ")),
            (SegmentKind::Label, String::from("Ash ")),
            (SegmentKind::Plain, String::from("]")),
            (SegmentKind::Plain, String::from(" ")),
            (SegmentKind::Plain, String::from("]")),
            (SegmentKind::Plain, String::from("\n")),
        ]
    );
}

#[test]
fn segments_join_to_the_text() {
    let (_, tree) = parse_syntax_tree(SAMPLE).unwrap();
    let mut segments = vec![Segment { kind: SegmentKind::Plain, text: String::from("# ") }];
    tree.root().write_segments(&mut segments);
    let text: String = segments.iter().map(|segment| &*segment.text).collect();
    assert_eq!(text, format!("# {}", SAMPLE));
    let labels =
        segments.iter().filter(|segment| segment.kind == SegmentKind::Label).count();
    assert_eq!(labels, 7);
}

#[test]
fn text_of_a_token_alone() {
    let (_, node) = parse_node("[ S\tx]").unwrap();
    assert_eq!(node.category.text(), " S\t");
}

fn token(prefix: &str, value: &str, suffix: &str) -> Token {
    Token {
        prefix: String::from(prefix),
        suffix: String::from(suffix),
        value: String::from(value),
    }
}

#[test]
fn the_text_of_a_tree_built_by_hand_parses_to_it() {
    let built = Node {
        category: token(" ", "S", "\n"),
        kind: Box::new(NodeKind::Subtree {
            left: Node {
                category: token("", "NP", " "),
                kind: Box::new(NodeKind::Leaf { label: token("", "Ash", "") }),
                x: 0,
                y: 0,
                whitespace: (String::new(), String::from(" ")),
            },
            right: Some(Node {
                category: token("\t", "VP", " "),
                kind: Box::new(NodeKind::Leaf { label: token("", "caught", " ") }),
                x: 0,
                y: 0,
                whitespace: (String::new(), String::new()),
            }),
        }),
        x: 0,
        y: 0,
        whitespace: (String::from("  "), String::from("\r\n")),
    };
    let text = built.source_text();
    assert_eq!(text, "  [ S\n[NP Ash] [\tVP caught ]]\r\n");
    let (rest, parsed) = parse_node(&text).unwrap();
    assert_eq!(rest, "");
    assert_eq!(format!("{:?}", parsed), format!("{:?}", built));
    let (_, tree) = parse_syntax_tree(&text).unwrap();
    assert_eq!(format!("{:?}", tree.root()), format!("{:?}", SyntaxTree::new(built).root()));
}
