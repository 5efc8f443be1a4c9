//! The text of a tree: every token and every run of whitespace, in the order
//! in which they were read, as one string or cut up by kind for highlighting.

use crate::layout::{with_coordinates, with_leaves_numbered};
use crate::tree::{leaf_count, node_count, KindView, Node, NodeKind, NodeView, Token, TokenView};
use vstd::prelude::*;
use vstd::string::StringExecFns;

verus! {

/// The text of a token: its value between the whitespace around it.
pub open spec fn token_text(t: TokenView) -> Seq<char> {
    t.prefix + t.value + t.suffix
}

/// The text of a node: its brackets around its category and its content,
/// between the whitespace around it.
pub open spec fn source_text(n: NodeView) -> Seq<char>
    decreases n,
{
    n.lead + seq!['['] + token_text(n.category) + kind_text(n.kind) + seq![']'] + n.trail
}

/// The text of a node's content: that of its label, or those of its children
/// one after the other.
pub open spec fn kind_text(kind: KindView) -> Seq<char>
    decreases kind,
{
    match kind {
        KindView::Leaf { label } => token_text(label),
        KindView::Subtree { left, right: None } => source_text(*left),
        KindView::Subtree { left, right: Some(r) } => source_text(*left) + source_text(*r),
    }
}

/// The text of a tree holds two brackets for each of its nodes.
pub proof fn lemma_text_holds_every_node(n: NodeView)
    ensures
        source_text(n).len() >= 2 * node_count(n),
    decreases n,
{
    match n.kind {
        KindView::Leaf { .. } => {},
        KindView::Subtree { left, right: None } => {
            lemma_text_holds_every_node(*left);
        },
        KindView::Subtree { left, right: Some(r) } => {
            lemma_text_holds_every_node(*left);
            lemma_text_holds_every_node(*r);
        },
    }
}

/// Neither pass of the layout changes the text of a tree.
pub proof fn lemma_layout_keeps_text(n: NodeView, first: nat, depth: nat)
    ensures
        source_text(with_leaves_numbered(n, first)) == source_text(n),
        source_text(with_coordinates(n, depth)) == source_text(n),
    decreases n,
{
    match n.kind {
        KindView::Leaf { .. } => {},
        KindView::Subtree { left, right: None } => {
            lemma_layout_keeps_text(*left, first, depth + 1);
        },
        KindView::Subtree { left, right: Some(r) } => {
            lemma_layout_keeps_text(*left, first, depth + 1);
            lemma_layout_keeps_text(*r, first + leaf_count(*left), depth + 1);
        },
    }
}

impl Token {
    /// Appends the text of this token to `out`.
    pub fn write_text(&self, out: &mut String)
        ensures
            final(out)@ == old(out)@ + token_text(self@),
    {
        out.append(self.prefix.as_str());
        out.append(self.value.as_str());
        out.append(self.suffix.as_str());
        assert(out@ =~= old(out)@ + token_text(self@));
    }
}

impl Node {
    /// Appends the text of this node to `out`.
    pub fn write_text(&self, out: &mut String)
        ensures
            final(out)@ == old(out)@ + source_text(self@),
        decreases *self,
    {
        proof {
            reveal_strlit("[");
            reveal_strlit("]");
        }
        out.append(self.whitespace.0.as_str());
        out.append("[");
        self.category.write_text(out);
        let ghost at_content = out@;
        match &*self.kind {
            NodeKind::Leaf { label } => {
                label.write_text(out);
            },
            NodeKind::Subtree { left, right } => {
                left.write_text(out);
                if let Some(right) = right {
                    right.write_text(out);
                }
            },
        }
        assert(out@ =~= at_content + kind_text(self@.kind));
        out.append("]");
        out.append(self.whitespace.1.as_str());
        assert(out@ =~= old(out)@ + source_text(self@));
    }

    /// The text of this node.
    pub fn source_text(&self) -> (text: String)
        ensures
            text@ == source_text(self@),
    {
        let mut text = String::new();
        self.write_text(&mut text);
        assert(text@ =~= source_text(self@));
        text
    }
}

/// What a stretch of a tree's text is: a category, a label, or the brackets
/// and whitespace between them.
#[derive(Clone, Copy, Debug, PartialEq, Eq, Structural)]
pub enum SegmentKind {
    Plain,
    Category,
    Label,
}

/// A stretch of a tree's text, to be shown in the way of its kind.
#[derive(Debug)]
pub struct Segment {
    pub kind: SegmentKind,
    pub text: String,
}

/// The value of a [`Segment`].
pub struct SegmentView {
    pub kind: SegmentKind,
    pub text: Seq<char>,
}

impl View for Segment {
    type V = SegmentView;

    open spec fn view(&self) -> SegmentView {
        SegmentView { kind: self.kind, text: self.text@ }
    }
}

/// The segments of a node: the whitespace before it, its opening bracket,
/// its category, the segments of its content, its closing bracket, and the
/// whitespace after it.
pub open spec fn segments_of(n: NodeView) -> Seq<SegmentView>
    decreases n,
{
    seq![
        SegmentView { kind: SegmentKind::Plain, text: n.lead },
        SegmentView { kind: SegmentKind::Plain, text: seq!['['] },
        SegmentView { kind: SegmentKind::Category, text: token_text(n.category) },
    ] + kind_segments(n.kind) + seq![
        SegmentView { kind: SegmentKind::Plain, text: seq![']'] },
        SegmentView { kind: SegmentKind::Plain, text: n.trail },
    ]
}

/// The segments of a node's content: its label, or the segments of its
/// children one after the other.
pub open spec fn kind_segments(kind: KindView) -> Seq<SegmentView>
    decreases kind,
{
    match kind {
        KindView::Leaf { label } => seq![
            SegmentView { kind: SegmentKind::Label, text: token_text(label) },
        ],
        KindView::Subtree { left, right: None } => segments_of(*left),
        KindView::Subtree { left, right: Some(r) } => segments_of(*left) + segments_of(*r),
    }
}

/// The texts of `segments`, one after the other.
pub open spec fn joined(segments: Seq<SegmentView>) -> Seq<char>
    decreases segments.len(),
{
    if segments.len() == 0 {
        Seq::empty()
    } else {
        joined(segments.drop_last()) + segments.last().text
    }
}

/// Joining two rows of segments joins their texts.
proof fn lemma_joined_add(a: Seq<SegmentView>, b: Seq<SegmentView>)
    ensures
        joined(a + b) == joined(a) + joined(b),
    decreases b.len(),
{
    if b.len() == 0 {
        assert(a + b =~= a);
        assert(joined(a) + joined(b) =~= joined(a));
    } else {
        lemma_joined_add(a, b.drop_last());
        assert((a + b).drop_last() =~= a + b.drop_last());
        assert(joined(a + b) =~= joined(a) + joined(b));
    }
}

/// The text of a row of one segment.
proof fn lemma_joined_one(a: SegmentView)
    ensures
        joined(seq![a]) == a.text,
{
    let none = seq![a].drop_last();
    assert(none.len() == 0);
    assert(joined(none) =~= Seq::<char>::empty());
    assert(joined(seq![a]) =~= a.text);
}

/// The text of a row of two segments.
proof fn lemma_joined_two(a: SegmentView, b: SegmentView)
    ensures
        joined(seq![a, b]) == a.text + b.text,
{
    lemma_joined_one(a);
    lemma_joined_one(b);
    lemma_joined_add(seq![a], seq![b]);
    assert(seq![a, b] =~= seq![a] + seq![b]);
}

/// The text of a row of three segments.
proof fn lemma_joined_three(a: SegmentView, b: SegmentView, c: SegmentView)
    ensures
        joined(seq![a, b, c]) == a.text + b.text + c.text,
{
    lemma_joined_two(a, b);
    lemma_joined_one(c);
    lemma_joined_add(seq![a, b], seq![c]);
    assert(seq![a, b, c] =~= seq![a, b] + seq![c]);
}

/// The segments of a node, joined, are its text.
pub proof fn lemma_segments_join_to_text(n: NodeView)
    ensures
        joined(segments_of(n)) == source_text(n),
    decreases n,
{
    let front = seq![
        SegmentView { kind: SegmentKind::Plain, text: n.lead },
        SegmentView { kind: SegmentKind::Plain, text: seq!['['] },
        SegmentView { kind: SegmentKind::Category, text: token_text(n.category) },
    ];
    let back = seq![
        SegmentView { kind: SegmentKind::Plain, text: seq![']'] },
        SegmentView { kind: SegmentKind::Plain, text: n.trail },
    ];
    lemma_joined_three(front[0], front[1], front[2]);
    lemma_joined_two(back[0], back[1]);
    lemma_joined_add(front, kind_segments(n.kind));
    lemma_joined_add(front + kind_segments(n.kind), back);
    match n.kind {
        KindView::Leaf { label } => {
            lemma_joined_one(SegmentView { kind: SegmentKind::Label, text: token_text(label) });
        },
        KindView::Subtree { left, right: None } => {
            lemma_segments_join_to_text(*left);
        },
        KindView::Subtree { left, right: Some(r) } => {
            lemma_segments_join_to_text(*left);
            lemma_segments_join_to_text(*r);
            lemma_joined_add(segments_of(*left), segments_of(*r));
        },
    }
    assert(joined(segments_of(n)) =~= source_text(n));
}

/// The values of `segments`.
pub open spec fn segment_views(segments: Seq<Segment>) -> Seq<SegmentView> {
    segments.map_values(|segment: Segment| segment@)
}

impl Token {
    /// The text of this token.
    pub fn text(&self) -> (text: String)
        ensures
            text@ == token_text(self@),
    {
        let mut text = String::new();
        self.write_text(&mut text);
        assert(text@ =~= token_text(self@));
        text
    }
}

impl Node {
    /// Appends the segments of this node to `out`.
    pub fn write_segments(&self, out: &mut Vec<Segment>)
        ensures
            segment_views(final(out)@) == segment_views(old(out)@) + segments_of(self@),
        decreases *self,
    {
        proof {
            reveal_strlit("[");
            reveal_strlit("]");
        }
        let ghost before = segment_views(out@);
        out.push(Segment { kind: SegmentKind::Plain, text: self.whitespace.0.clone() });
        out.push(Segment { kind: SegmentKind::Plain, text: "[".to_owned() });
        out.push(Segment { kind: SegmentKind::Category, text: self.category.text() });
        let ghost at_content = segment_views(out@);
        assert(at_content =~= before + seq![
            SegmentView { kind: SegmentKind::Plain, text: self@.lead },
            SegmentView { kind: SegmentKind::Plain, text: seq!['['] },
            SegmentView { kind: SegmentKind::Category, text: token_text(self@.category) },
        ]) by {
            assert("["@ =~= seq!['[']);
        }
        match &*self.kind {
            NodeKind::Leaf { label } => {
                out.push(Segment { kind: SegmentKind::Label, text: label.text() });
            },
            NodeKind::Subtree { left, right } => {
                left.write_segments(out);
                if let Some(right) = right {
                    right.write_segments(out);
                }
            },
        }
        let ghost at_close = segment_views(out@);
        assert(at_close =~= at_content + kind_segments(self@.kind));
        out.push(Segment { kind: SegmentKind::Plain, text: "]".to_owned() });
        out.push(Segment { kind: SegmentKind::Plain, text: self.whitespace.1.clone() });
        assert(segment_views(out@) =~= at_close + seq![
            SegmentView { kind: SegmentKind::Plain, text: seq![']'] },
            SegmentView { kind: SegmentKind::Plain, text: self@.trail },
        ]) by {
            assert("]"@ =~= seq![']']);
        }
        assert(segment_views(out@) =~= before + segments_of(self@));
    }

    /// The segments of this node: its text, cut up by kind.
    pub fn segments(&self) -> (segments: Vec<Segment>)
        ensures
            segment_views(segments@) == segments_of(self@),
    {
        let mut segments: Vec<Segment> = Vec::new();
        self.write_segments(&mut segments);
        assert(segment_views(segments@) =~= segments_of(self@));
        segments
    }
}

} // verus!
