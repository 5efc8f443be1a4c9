//! The tree itself: tokens, nodes, and the mathematical values they stand for.

use crate::layout::{laid_out, lemma_laid_out_is_placed, lemma_layout_keeps_shape, placed};
use vstd::prelude::*;

verus! {

/// The horizontal distance between two neighbouring leaves: `x` is a
/// fixed-point number with 64 binary places.
pub const X_UNIT: u128 = 0x1_0000_0000_0000_0000;

/// A lexed value together with the whitespace that was read around it.
#[derive(Debug)]
pub struct Token {
    pub prefix: String,
    pub suffix: String,
    pub value: String,
}

/// What a node holds: a terminal label, or one or two children.
#[derive(Debug)]
pub enum NodeKind {
    Leaf { label: Token },
    Subtree { left: Node, right: Option<Node> },
}

/// One bracketed unit.
///
/// `x` is the horizontal position, in units of which [`X_UNIT`] make up the
/// distance between two neighbouring leaves. `y` is the depth below the
/// root. `whitespace` holds the whitespace read before the opening and after
/// the closing bracket. A node that has not been laid out has 0 for both.
#[derive(Debug)]
pub struct Node {
    pub category: Token,
    pub kind: Box<NodeKind>,
    pub x: u128,
    pub y: usize,
    pub whitespace: (String, String),
}

/// The value of a [`Token`].
pub struct TokenView {
    pub prefix: Seq<char>,
    pub value: Seq<char>,
    pub suffix: Seq<char>,
}

/// The value of a [`NodeKind`].
pub enum KindView {
    Leaf { label: TokenView },
    Subtree { left: Box<NodeView>, right: Option<Box<NodeView>> },
}

/// The value of a [`Node`].
pub struct NodeView {
    pub category: TokenView,
    pub kind: KindView,
    pub x: nat,
    pub y: nat,
    pub lead: Seq<char>,
    pub trail: Seq<char>,
}

impl View for Token {
    type V = TokenView;

    open spec fn view(&self) -> TokenView {
        TokenView { prefix: self.prefix@, value: self.value@, suffix: self.suffix@ }
    }
}

/// The value of `node`, children included.
pub open spec fn node_view(node: Node) -> NodeView
    decreases node,
{
    NodeView {
        category: node.category@,
        kind: kind_view(*node.kind),
        x: node.x as nat,
        y: node.y as nat,
        lead: node.whitespace.0@,
        trail: node.whitespace.1@,
    }
}

/// The value of `kind`, children included.
pub open spec fn kind_view(kind: NodeKind) -> KindView
    decreases kind,
{
    match kind {
        NodeKind::Leaf { label } => KindView::Leaf { label: label@ },
        NodeKind::Subtree { left, right } => KindView::Subtree {
            left: Box::new(node_view(left)),
            right: match right {
                Some(r) => Some(Box::new(node_view(r))),
                None => None,
            },
        },
    }
}

impl View for Node {
    type V = NodeView;

    open spec fn view(&self) -> NodeView {
        node_view(*self)
    }
}

impl View for NodeKind {
    type V = KindView;

    open spec fn view(&self) -> KindView {
        kind_view(*self)
    }
}

/// How many leaves `n` has.
pub open spec fn leaf_count(n: NodeView) -> nat
    decreases n,
{
    match n.kind {
        KindView::Leaf { .. } => 1,
        KindView::Subtree { left, right: None } => leaf_count(*left),
        KindView::Subtree { left, right: Some(r) } => leaf_count(*left) + leaf_count(*r),
    }
}

/// How many nodes `n` has, itself included.
pub open spec fn node_count(n: NodeView) -> nat
    decreases n,
{
    match n.kind {
        KindView::Leaf { .. } => 1,
        KindView::Subtree { left, right: None } => 1 + node_count(*left),
        KindView::Subtree { left, right: Some(r) } => 1 + node_count(*left) + node_count(*r),
    }
}

/// How many levels lie below `n`: none below a leaf.
pub open spec fn height(n: NodeView) -> nat
    decreases n,
{
    match n.kind {
        KindView::Leaf { .. } => 0,
        KindView::Subtree { left, right: None } => 1 + height(*left),
        KindView::Subtree { left, right: Some(r) } => 1 + if height(*left) >= height(*r) {
            height(*left)
        } else {
            height(*r)
        },
    }
}

/// The nodes of `n` in pre-order: `n` itself, then all of its left child's,
/// then all of its right child's.
pub open spec fn preorder(n: NodeView) -> Seq<NodeView>
    decreases n,
{
    match n.kind {
        KindView::Leaf { .. } => seq![n],
        KindView::Subtree { left, right: None } => seq![n] + preorder(*left),
        KindView::Subtree { left, right: Some(r) } => seq![n] + preorder(*left) + preorder(*r),
    }
}

/// A tree has no more leaves than nodes, and fewer levels than nodes.
pub proof fn lemma_count_bounds(n: NodeView)
    ensures
        1 <= leaf_count(n) <= node_count(n),
        height(n) < node_count(n),
    decreases n,
{
    match n.kind {
        KindView::Leaf { .. } => {},
        KindView::Subtree { left, right: None } => {
            lemma_count_bounds(*left);
        },
        KindView::Subtree { left, right: Some(r) } => {
            lemma_count_bounds(*left);
            lemma_count_bounds(*r);
        },
    }
}

/// Traversal completeness: the pre-order of a tree starts with its root and
/// has each of its nodes once; of two children, all nodes of the left come
/// before all nodes of the right.
pub proof fn lemma_preorder_is_complete(n: NodeView)
    ensures
        preorder(n).len() == node_count(n),
        preorder(n)[0] == n,
        n.kind matches KindView::Subtree { left, right } ==> preorder(n).subrange(
            1,
            1 + node_count(*left) as int,
        ) == preorder(*left),
        n.kind matches KindView::Subtree { left, right: Some(r) } ==> preorder(n).subrange(
            1 + node_count(*left) as int,
            node_count(n) as int,
        ) == preorder(*r),
    decreases n,
{
    match n.kind {
        KindView::Leaf { .. } => {},
        KindView::Subtree { left, right: None } => {
            lemma_preorder_is_complete(*left);
            assert(preorder(n).subrange(1, 1 + node_count(*left) as int) =~= preorder(*left));
        },
        KindView::Subtree { left, right: Some(r) } => {
            lemma_preorder_is_complete(*left);
            lemma_preorder_is_complete(*r);
            assert(preorder(n).subrange(1, 1 + node_count(*left) as int) =~= preorder(*left));
            assert(preorder(n).subrange(1 + node_count(*left) as int, node_count(n) as int)
                =~= preorder(*r));
        },
    }
}

impl Clone for Token {
    fn clone(&self) -> (res: Token)
        ensures
            res == *self,
    {
        Token {
            prefix: self.prefix.clone(),
            suffix: self.suffix.clone(),
            value: self.value.clone(),
        }
    }
}

fn clone_node(node: &Node) -> (res: Node)
    ensures
        res == *node,
    decreases *node,
{
    Node {
        category: node.category.clone(),
        kind: Box::new(clone_kind(&*node.kind)),
        x: node.x,
        y: node.y,
        whitespace: (node.whitespace.0.clone(), node.whitespace.1.clone()),
    }
}

fn clone_kind(kind: &NodeKind) -> (res: NodeKind)
    ensures
        res == *kind,
    decreases *kind,
{
    match kind {
        NodeKind::Leaf { label } => NodeKind::Leaf { label: label.clone() },
        NodeKind::Subtree { left, right } => NodeKind::Subtree {
            left: clone_node(left),
            right: match right {
                Some(r) => Some(clone_node(r)),
                None => None,
            },
        },
    }
}

impl Clone for Node {
    fn clone(&self) -> (res: Node)
        ensures
            res == *self,
    {
        clone_node(self)
    }
}

impl Clone for NodeKind {
    fn clone(&self) -> (res: NodeKind)
        ensures
            res == *self,
    {
        clone_kind(self)
    }
}

impl Node {
    /// Whether this node holds a label and no children.
    pub fn is_leaf(&self) -> (leaf: bool)
        ensures
            leaf == (self@.kind is Leaf),
    {
        match &*self.kind {
            NodeKind::Leaf { .. } => true,
            NodeKind::Subtree { .. } => false,
        }
    }

    /// The label, if this node is a leaf.
    pub fn label(&self) -> (label: Option<&Token>)
        ensures
            match self@.kind {
                KindView::Leaf { label: held } => label matches Some(token) && token@ == held,
                KindView::Subtree { .. } => label is None,
            },
    {
        match &*self.kind {
            NodeKind::Leaf { label } => Some(label),
            NodeKind::Subtree { .. } => None,
        }
    }

    /// The left child, if this node has children.
    pub fn left(&self) -> (child: Option<&Node>)
        ensures
            match self@.kind {
                KindView::Leaf { .. } => child is None,
                KindView::Subtree { left, .. } => child matches Some(node) && node@ == *left,
            },
    {
        match &*self.kind {
            NodeKind::Leaf { .. } => None,
            NodeKind::Subtree { left, .. } => Some(left),
        }
    }

    /// The right child, if this node has two children.
    pub fn right(&self) -> (child: Option<&Node>)
        ensures
            match self@.kind {
                KindView::Subtree { right: Some(right), .. } => child matches Some(node) && node@
                    == *right,
                _ => child is None,
            },
    {
        match &*self.kind {
            NodeKind::Leaf { .. } => None,
            NodeKind::Subtree { right, .. } => right.as_ref(),
        }
    }
}

/// What a walk that holds `held` has yet to yield: the nodes of the last
/// held node in pre-order, then those of the one before it, and so on.
spec fn held_nodes(held: Seq<&Node>) -> Seq<NodeView>
    decreases held.len(),
{
    if held.len() == 0 {
        Seq::empty()
    } else {
        preorder(held.last()@) + held_nodes(held.drop_last())
    }
}

/// Holding one more node puts its nodes in front.
proof fn lemma_hold(held: Seq<&Node>, node: &Node)
    ensures
        held_nodes(held.push(node)) == preorder(node@) + held_nodes(held),
{
    assert(held.push(node).drop_last() =~= held);
}

/// A walk over the nodes of a tree in pre-order. Its value is the sequence
/// of nodes it has yet to yield.
pub struct SyntaxTreeIter<'a> {
    held: Vec<&'a Node>,
}

impl<'a> View for SyntaxTreeIter<'a> {
    type V = Seq<NodeView>;

    closed spec fn view(&self) -> Seq<NodeView> {
        held_nodes(self.held@)
    }
}

impl<'a> SyntaxTreeIter<'a> {
    /// Yields the next node, if one is left.
    pub fn next(&mut self) -> (item: Option<&'a Node>)
        ensures
            match item {
                Some(node) => old(self)@.len() > 0 && node@ == old(self)@[0] && final(self)@
                    == old(self)@.skip(1),
                None => old(self)@.len() == 0 && final(self)@.len() == 0,
            },
    {
        let ghost before = self.held@;
        let node = match self.held.pop() {
            Some(node) => node,
            None => {
                return None;
            },
        };
        let ghost below = self.held@;
        proof {
            assert(before =~= below.push(node));
            lemma_hold(below, node);
        }
        match &*node.kind {
            NodeKind::Leaf { .. } => {
                proof {
                    assert(held_nodes(before).skip(1) =~= held_nodes(below));
                }
            },
            NodeKind::Subtree { left, right } => {
                if let Some(right) = right {
                    self.held.push(right);
                    proof {
                        lemma_hold(below, right);
                    }
                }
                let ghost middle = self.held@;
                self.held.push(left);
                proof {
                    lemma_hold(middle, left);
                    assert(held_nodes(before).skip(1) =~= held_nodes(self.held@));
                }
            },
        }
        Some(node)
    }
}

/// A tree whose nodes all have their place. The only way to one is
/// [`SyntaxTree::new`], which runs the layout.
#[derive(Debug)]
pub struct SyntaxTree {
    root: Node,
}

impl View for SyntaxTree {
    type V = NodeView;

    closed spec fn view(&self) -> NodeView {
        self.root@
    }
}

impl Clone for SyntaxTree {
    fn clone(&self) -> (res: SyntaxTree)
        ensures
            res@ == self@,
    {
        proof {
            use_type_invariant(self);
        }
        SyntaxTree { root: self.root.clone() }
    }
}

impl SyntaxTree {
    #[verifier::type_invariant]
    spec fn has_layout(self) -> bool {
        placed(self.root@)
    }

    /// Lays `root` out and wraps it.
    ///
    /// A tree in memory has fewer nodes than `usize::MAX`; nothing else is
    /// asked of `root`.
    pub fn new(root: Node) -> (tree: SyntaxTree)
        requires
            node_count(root@) <= usize::MAX,
        ensures
            tree@ == laid_out(root@),
    {
        let mut root = root;
        proof {
            lemma_count_bounds(root@);
            lemma_layout_keeps_shape(root@, 0, 0);
            lemma_laid_out_is_placed(root@);
        }
        root.assign_leaves(0);
        root.compute_coordinates(0);
        SyntaxTree { root }
    }

    /// A fresh walk over the nodes of the tree, in pre-order.
    pub fn iter(&self) -> (walk: SyntaxTreeIter<'_>)
        ensures
            walk@ == preorder(self@),
    {
        let mut held: Vec<&Node> = Vec::new();
        held.push(&self.root);
        proof {
            assert(held@.drop_last() =~= Seq::<&Node>::empty());
            assert(held_nodes(held@.drop_last()) =~= Seq::<NodeView>::empty());
            assert(held_nodes(held@) =~= preorder(self.root@));
        }
        SyntaxTreeIter { held }
    }

    /// The root, which is a layout.
    pub fn root(&self) -> (root: &Node)
        ensures
            root@ == self@,
            placed(root@),
    {
        proof {
            use_type_invariant(self);
        }
        &self.root
    }

    /// Gives the root up.
    pub fn into_root(self) -> (root: Node)
        ensures
            root@ == self@,
            placed(root@),
    {
        proof {
            use_type_invariant(&self);
        }
        self.root
    }
}

} // verus!
