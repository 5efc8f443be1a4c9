//! The layout: two passes over a tree that give every node its place.
//!
//! The first pass numbers the leaves from left to right. The second gives
//! every node its depth as `y`, and every node with children the midpoint of
//! its children's `x`.

use crate::tree::{
    height, leaf_count, lemma_count_bounds, node_count, KindView, Node, NodeKind, NodeView,
    X_UNIT,
};
use vstd::arithmetic::power2::{lemma2_to64, lemma_pow2_adds, lemma_pow2_unfold, pow2};
use vstd::prelude::*;

verus! {

/// The first pass: `n` with its leaves, from left to right, at
/// `first`, `first + 1`, ... leaf steps. Nothing else changes.
pub open spec fn with_leaves_numbered(n: NodeView, first: nat) -> NodeView
    decreases n,
{
    match n.kind {
        KindView::Leaf { .. } => NodeView { x: first * X_UNIT as nat, ..n },
        KindView::Subtree { left, right: None } => NodeView {
            kind: KindView::Subtree {
                left: Box::new(with_leaves_numbered(*left, first)),
                right: None,
            },
            ..n
        },
        KindView::Subtree { left, right: Some(r) } => NodeView {
            kind: KindView::Subtree {
                left: Box::new(with_leaves_numbered(*left, first)),
                right: Some(Box::new(with_leaves_numbered(*r, first + leaf_count(*left)))),
            },
            ..n
        },
    }
}

/// The second pass: `n` with `depth` as its `y`, every level below one
/// deeper, and every node with children at the midpoint of its children,
/// rounded down to the fixed-point grid. The `x` of a leaf does not change.
pub open spec fn with_coordinates(n: NodeView, depth: nat) -> NodeView
    decreases n,
{
    match n.kind {
        KindView::Leaf { .. } => NodeView { y: depth, ..n },
        KindView::Subtree { left, right: None } => {
            let l = with_coordinates(*left, depth + 1);
            NodeView {
                x: l.x,
                y: depth,
                kind: KindView::Subtree { left: Box::new(l), right: None },
                ..n
            }
        },
        KindView::Subtree { left, right: Some(r) } => {
            let l = with_coordinates(*left, depth + 1);
            let r = with_coordinates(*r, depth + 1);
            NodeView {
                x: (l.x + r.x) / 2,
                y: depth,
                kind: KindView::Subtree { left: Box::new(l), right: Some(Box::new(r)) },
                ..n
            }
        },
    }
}

/// Both passes, from leaf 0 and depth 0.
pub open spec fn laid_out(n: NodeView) -> NodeView {
    with_coordinates(with_leaves_numbered(n, 0), 0)
}

/// Whether `n` is a layout: laying it out again changes nothing.
pub open spec fn placed(n: NodeView) -> bool {
    n == laid_out(n)
}

/// Neither pass changes how many leaves, nodes or levels a tree has.
pub proof fn lemma_layout_keeps_shape(n: NodeView, first: nat, depth: nat)
    ensures
        leaf_count(with_leaves_numbered(n, first)) == leaf_count(n),
        node_count(with_leaves_numbered(n, first)) == node_count(n),
        height(with_leaves_numbered(n, first)) == height(n),
        leaf_count(with_coordinates(n, depth)) == leaf_count(n),
        node_count(with_coordinates(n, depth)) == node_count(n),
        height(with_coordinates(n, depth)) == height(n),
    decreases n,
{
    match n.kind {
        KindView::Leaf { .. } => {},
        KindView::Subtree { left, right: None } => {
            lemma_layout_keeps_shape(*left, first, depth + 1);
        },
        KindView::Subtree { left, right: Some(r) } => {
            lemma_layout_keeps_shape(*left, first, depth + 1);
            lemma_layout_keeps_shape(*r, first + leaf_count(*left), depth + 1);
        },
    }
}

/// The second pass does not move a leaf, so numbering the leaves again after
/// it changes nothing.
proof fn lemma_renumbering(n: NodeView, first: nat, depth: nat)
    ensures
        with_leaves_numbered(with_coordinates(with_leaves_numbered(n, first), depth), first)
            == with_coordinates(with_leaves_numbered(n, first), depth),
    decreases n,
{
    match n.kind {
        KindView::Leaf { .. } => {},
        KindView::Subtree { left, right: None } => {
            lemma_renumbering(*left, first, depth + 1);
        },
        KindView::Subtree { left, right: Some(r) } => {
            lemma_renumbering(*left, first, depth + 1);
            lemma_renumbering(*r, first + leaf_count(*left), depth + 1);
            lemma_layout_keeps_shape(*left, first, depth + 1);
            lemma_layout_keeps_shape(with_leaves_numbered(*left, first), first, depth + 1);
        },
    }
}

/// The second pass, run twice from the same depth, gives what it gave once.
proof fn lemma_coordinates_settle(n: NodeView, depth: nat)
    ensures
        with_coordinates(with_coordinates(n, depth), depth) == with_coordinates(n, depth),
    decreases n,
{
    match n.kind {
        KindView::Leaf { .. } => {},
        KindView::Subtree { left, right: None } => {
            lemma_coordinates_settle(*left, depth + 1);
        },
        KindView::Subtree { left, right: Some(r) } => {
            lemma_coordinates_settle(*left, depth + 1);
            lemma_coordinates_settle(*r, depth + 1);
        },
    }
}

/// What the layout gives is a layout.
pub proof fn lemma_laid_out_is_placed(n: NodeView)
    ensures
        placed(laid_out(n)),
{
    lemma_renumbering(n, 0, 0);
    lemma_coordinates_settle(with_leaves_numbered(n, 0), 0);
}

/// The leaves of `n` from left to right.
pub open spec fn leaves(n: NodeView) -> Seq<NodeView>
    decreases n,
{
    match n.kind {
        KindView::Leaf { .. } => seq![n],
        KindView::Subtree { left, right: None } => leaves(*left),
        KindView::Subtree { left, right: Some(r) } => leaves(*left) + leaves(*r),
    }
}

/// Whether the leaves of `n`, from left to right, stand at `first`,
/// `first + 1`, ... leaf steps.
pub open spec fn leaves_numbered(n: NodeView, first: nat) -> bool {
    forall|i: int| 0 <= i < leaves(n).len() ==> (#[trigger] leaves(n)[i]).x == (first + i) * X_UNIT
}

/// Whether every node of `n` with children stands at the midpoint of its
/// children: at its only child's `x`, or at half the sum of its two
/// children's, rounded down to the fixed-point grid.
pub open spec fn midpoints_hold(n: NodeView) -> bool
    decreases n,
{
    match n.kind {
        KindView::Leaf { .. } => true,
        KindView::Subtree { left, right: None } => n.x == left.x && midpoints_hold(*left),
        KindView::Subtree { left, right: Some(r) } => n.x == (left.x + r.x) / 2 && midpoints_hold(
            *left,
        ) && midpoints_hold(*r),
    }
}

/// Whether `n` has `depth` as its `y`, and every node below it one more than
/// its parent.
pub open spec fn depths_hold(n: NodeView, depth: nat) -> bool
    decreases n,
{
    n.y == depth && match n.kind {
        KindView::Leaf { .. } => true,
        KindView::Subtree { left, right: None } => depths_hold(*left, depth + 1),
        KindView::Subtree { left, right: Some(r) } => depths_hold(*left, depth + 1)
            && depths_hold(*r, depth + 1),
    }
}

/// A tree has as many leaves in its row of leaves as it counts.
pub proof fn lemma_leaves_len(n: NodeView)
    ensures
        leaves(n).len() == leaf_count(n),
    decreases n,
{
    match n.kind {
        KindView::Leaf { .. } => {},
        KindView::Subtree { left, right: None } => {
            lemma_leaves_len(*left);
        },
        KindView::Subtree { left, right: Some(r) } => {
            lemma_leaves_len(*left);
            lemma_leaves_len(*r);
        },
    }
}

/// The first pass numbers the leaves, and the second leaves them numbered.
proof fn lemma_passes_number_leaves(n: NodeView, first: nat, depth: nat)
    ensures
        leaves_numbered(with_leaves_numbered(n, first), first),
        leaves(with_coordinates(n, depth)).len() == leaves(n).len(),
        forall|i: int|
            0 <= i < leaves(n).len() ==> (#[trigger] leaves(with_coordinates(n, depth))[i]).x
                == leaves(n)[i].x,
    decreases n,
{
    match n.kind {
        KindView::Leaf { .. } => {},
        KindView::Subtree { left, right: None } => {
            lemma_passes_number_leaves(*left, first, depth + 1);
        },
        KindView::Subtree { left, right: Some(r) } => {
            let second = first + leaf_count(*left);
            lemma_passes_number_leaves(*left, first, depth + 1);
            lemma_passes_number_leaves(*r, second, depth + 1);
            lemma_layout_keeps_shape(*left, first, depth + 1);
            lemma_leaves_len(with_leaves_numbered(*left, first));
            let l = with_leaves_numbered(*left, first);
            let r = with_leaves_numbered(*r, second);
            let m = with_leaves_numbered(n, first);
            assert forall|i: int| 0 <= i < leaves(m).len() implies (#[trigger] leaves(m)[i]).x == (
            first + i) * X_UNIT by {
                if i >= leaves(l).len() {
                    assert(leaves(m)[i] == leaves(r)[i - leaves(l).len()]);
                }
            }
        },
    }
}

/// The second pass puts every node with children at the midpoint of its
/// children, and every node at its depth.
proof fn lemma_second_pass_rules(n: NodeView, depth: nat)
    ensures
        midpoints_hold(with_coordinates(n, depth)),
        depths_hold(with_coordinates(n, depth), depth),
    decreases n,
{
    match n.kind {
        KindView::Leaf { .. } => {},
        KindView::Subtree { left, right: None } => {
            lemma_second_pass_rules(*left, depth + 1);
        },
        KindView::Subtree { left, right: Some(r) } => {
            lemma_second_pass_rules(*left, depth + 1);
            lemma_second_pass_rules(*r, depth + 1);
        },
    }
}

/// Leaf numbering: in a layout with n leaves, the leaves stand, from left to
/// right, at 0, 1, ..., n - 1 leaf steps.
pub proof fn lemma_leaf_numbering(n: NodeView)
    requires
        placed(n),
    ensures
        leaves(n).len() == leaf_count(n),
        leaves_numbered(n, 0),
{
    let numbered = with_leaves_numbered(n, 0);
    lemma_leaves_len(n);
    lemma_passes_number_leaves(n, 0, 0);
    lemma_passes_number_leaves(numbered, 0, 0);
    assert forall|i: int| 0 <= i < leaves(n).len() implies (#[trigger] leaves(n)[i]).x == (0 + i)
        * X_UNIT by {
        assert(leaves(with_coordinates(numbered, 0))[i].x == leaves(numbered)[i].x);
    }
}

/// Midpoint rule: in a layout, every node with two children stands at half
/// the sum of their `x`, and every node with one child at that child's `x`.
pub proof fn lemma_midpoint_rule(n: NodeView)
    requires
        placed(n),
    ensures
        midpoints_hold(n),
{
    lemma_second_pass_rules(with_leaves_numbered(n, 0), 0);
}

/// Depth rule: in a layout, the root has `y` 0 and every other node one more
/// than its parent.
pub proof fn lemma_depth_rule(n: NodeView)
    requires
        placed(n),
    ensures
        depths_hold(n, 0),
{
    lemma_second_pass_rules(with_leaves_numbered(n, 0), 0);
}

/// Whether every node of `n` with two children stands exactly halfway
/// between them, with nothing lost to rounding.
pub open spec fn midpoints_exact(n: NodeView) -> bool
    decreases n,
{
    match n.kind {
        KindView::Leaf { .. } => true,
        KindView::Subtree { left, right: None } => midpoints_exact(*left),
        KindView::Subtree { left, right: Some(r) } => 2 * n.x == left.x + r.x && midpoints_exact(
            *left,
        ) && midpoints_exact(*r),
    }
}

/// Where `steps` steps of 2^`bits` lead.
spec fn grid_point(steps: nat, bits: nat) -> nat {
    steps * pow2(bits)
}

/// Whether `x` is a whole number of steps of 2^`bits`.
spec fn on_grid(x: nat, bits: nat) -> bool {
    exists|steps: nat| x == #[trigger] grid_point(steps, bits)
}

/// What is on a grid is on every finer grid.
proof fn lemma_finer_grid(x: nat, bits: nat, fewer: nat)
    requires
        fewer <= bits,
        on_grid(x, bits),
    ensures
        on_grid(x, fewer),
{
    let steps = choose|steps: nat| x == #[trigger] grid_point(steps, bits);
    let ratio = pow2((bits - fewer) as nat);
    lemma_pow2_adds((bits - fewer) as nat, fewer);
    assert(x == (steps * ratio) * pow2(fewer)) by (nonlinear_arith)
        requires
            x == steps * pow2(bits),
            pow2(bits) == ratio * pow2(fewer),
    ;
    assert(x == grid_point(steps * ratio, fewer));
}

/// Halfway between two points of a grid lies a point of the grid twice as
/// fine.
proof fn lemma_halfway_on_grid(l: nat, r: nat, bits: nat)
    requires
        bits >= 1,
        on_grid(l, bits),
        on_grid(r, bits),
    ensures
        2 * ((l + r) / 2) == l + r,
        on_grid((l + r) / 2, (bits - 1) as nat),
{
    let a = choose|steps: nat| l == #[trigger] grid_point(steps, bits);
    let b = choose|steps: nat| r == #[trigger] grid_point(steps, bits);
    let half = pow2((bits - 1) as nat);
    lemma_pow2_unfold(bits);
    assert(l + r == 2 * ((a + b) * half)) by (nonlinear_arith)
        requires
            l == a * pow2(bits),
            r == b * pow2(bits),
            pow2(bits) == 2 * half,
    ;
    assert((l + r) / 2 == grid_point(a + b, (bits - 1) as nat));
}

/// A leaf step is 2^64 units of `x`.
pub proof fn lemma_x_unit()
    ensures
        X_UNIT == pow2(64),
{
    lemma2_to64();
}

/// In the layout of a tree of at most 64 levels, each node stands on the
/// grid that is as many times finer than the leaf steps as the node is high,
/// so no midpoint is rounded.
proof fn lemma_layout_on_grid(n: NodeView, first: nat, depth: nat)
    requires
        height(n) <= 64,
    ensures
        midpoints_exact(with_coordinates(with_leaves_numbered(n, first), depth)),
        on_grid(
            with_coordinates(with_leaves_numbered(n, first), depth).x,
            (64 - height(n)) as nat,
        ),
    decreases n,
{
    let bits = (64 - height(n)) as nat;
    match n.kind {
        KindView::Leaf { .. } => {
            lemma_x_unit();
            assert(first * X_UNIT as nat == grid_point(first, 64));
        },
        KindView::Subtree { left, right: None } => {
            lemma_layout_on_grid(*left, first, depth + 1);
            let l = with_coordinates(with_leaves_numbered(*left, first), depth + 1);
            lemma_finer_grid(l.x, (64 - height(*left)) as nat, bits);
        },
        KindView::Subtree { left, right: Some(right) } => {
            let second = first + leaf_count(*left);
            lemma_layout_on_grid(*left, first, depth + 1);
            lemma_layout_on_grid(*right, second, depth + 1);
            let l = with_coordinates(with_leaves_numbered(*left, first), depth + 1);
            let r = with_coordinates(with_leaves_numbered(*right, second), depth + 1);
            lemma_finer_grid(l.x, (64 - height(*left)) as nat, bits + 1);
            lemma_finer_grid(r.x, (64 - height(*right)) as nat, bits + 1);
            lemma_halfway_on_grid(l.x, r.x, bits + 1);
        },
    }
}

/// Exact midpoints: in a layout of at most 64 levels below the root, every
/// node with two children stands exactly halfway between them.
pub proof fn lemma_midpoints_exact(n: NodeView)
    requires
        placed(n),
        height(n) <= 64,
    ensures
        midpoints_exact(n),
{
    lemma_layout_on_grid(n, 0, 0);
}

/// Whether every node of `n` stands no further left than its leftmost leaf
/// and no further right than its rightmost.
pub open spec fn within_leaves(n: NodeView) -> bool
    decreases n,
{
    leaves(n).first().x <= n.x <= leaves(n).last().x && match n.kind {
        KindView::Leaf { .. } => true,
        KindView::Subtree { left, right: None } => within_leaves(*left),
        KindView::Subtree { left, right: Some(r) } => within_leaves(*left) && within_leaves(*r),
    }
}

/// Where the outermost leaves stand in the layout of a tree whose leaves are
/// numbered from `first`.
proof fn lemma_outer_leaves(n: NodeView, first: nat, depth: nat)
    ensures
        leaves(with_coordinates(with_leaves_numbered(n, first), depth)).first().x == first
            * X_UNIT,
        leaves(with_coordinates(with_leaves_numbered(n, first), depth)).last().x == (first
            + leaf_count(n) - 1) * X_UNIT,
{
    let numbered = with_leaves_numbered(n, first);
    let m = with_coordinates(numbered, depth);
    lemma_passes_number_leaves(n, first, depth);
    lemma_passes_number_leaves(numbered, first, depth);
    lemma_layout_keeps_shape(n, first, depth);
    lemma_leaves_len(numbered);
    lemma_count_bounds(n);
    assert(leaves(m)[0].x == leaves(numbered)[0].x);
    assert(leaves(m)[leaves(m).len() - 1].x == leaves(numbered)[leaves(m).len() - 1].x);
}

/// In the layout of a tree whose leaves are numbered from `first`, every
/// node stands between its outermost leaves.
proof fn lemma_layout_within_leaves(n: NodeView, first: nat, depth: nat)
    ensures
        within_leaves(with_coordinates(with_leaves_numbered(n, first), depth)),
    decreases n,
{
    match n.kind {
        KindView::Leaf { .. } => {},
        KindView::Subtree { left, right: None } => {
            lemma_layout_within_leaves(*left, first, depth + 1);
        },
        KindView::Subtree { left, right: Some(right) } => {
            let second = first + leaf_count(*left);
            lemma_layout_within_leaves(*left, first, depth + 1);
            lemma_layout_within_leaves(*right, second, depth + 1);
            lemma_outer_leaves(n, first, depth);
            lemma_outer_leaves(*left, first, depth + 1);
            lemma_outer_leaves(*right, second, depth + 1);
            lemma_count_bounds(*left);
            lemma_count_bounds(*right);
        },
    }
}

/// Bounds: in a layout, every node stands between the leftmost and the
/// rightmost of the leaves below it.
pub proof fn lemma_within_leaves(n: NodeView)
    requires
        placed(n),
    ensures
        within_leaves(n),
{
    lemma_layout_within_leaves(n, 0, 0);
}

/// Whether `a` and `b` branch alike, whatever their text.
pub open spec fn same_shape(a: NodeView, b: NodeView) -> bool
    decreases a,
{
    match (a.kind, b.kind) {
        (KindView::Leaf { .. }, KindView::Leaf { .. }) => true,
        (
            KindView::Subtree { left, right: None },
            KindView::Subtree { left: other, right: None },
        ) => same_shape(*left, *other),
        (
            KindView::Subtree { left, right: Some(r) },
            KindView::Subtree { left: other, right: Some(s) },
        ) => same_shape(*left, *other) && same_shape(*r, *s),
        _ => false,
    }
}

/// Whether `a` and `b` branch alike and each node of `a` stands where its
/// counterpart in `b` stands.
pub open spec fn same_places(a: NodeView, b: NodeView) -> bool
    decreases a,
{
    a.x == b.x && a.y == b.y && match (a.kind, b.kind) {
        (KindView::Leaf { .. }, KindView::Leaf { .. }) => true,
        (
            KindView::Subtree { left, right: None },
            KindView::Subtree { left: other, right: None },
        ) => same_places(*left, *other),
        (
            KindView::Subtree { left, right: Some(r) },
            KindView::Subtree { left: other, right: Some(s) },
        ) => same_places(*left, *other) && same_places(*r, *s),
        _ => false,
    }
}

/// Both passes give trees that branch alike the same places.
proof fn lemma_passes_by_shape(a: NodeView, b: NodeView, first: nat, depth: nat)
    requires
        same_shape(a, b),
    ensures
        leaf_count(a) == leaf_count(b),
        same_places(
            with_coordinates(with_leaves_numbered(a, first), depth),
            with_coordinates(with_leaves_numbered(b, first), depth),
        ),
    decreases a,
{
    match (a.kind, b.kind) {
        (
            KindView::Subtree { left, right: None },
            KindView::Subtree { left: other, right: None },
        ) => {
            lemma_passes_by_shape(*left, *other, first, depth + 1);
        },
        (
            KindView::Subtree { left, right: Some(r) },
            KindView::Subtree { left: other, right: Some(s) },
        ) => {
            lemma_passes_by_shape(*left, *other, first, depth + 1);
            lemma_passes_by_shape(*r, *s, first + leaf_count(*left), depth + 1);
        },
        _ => {},
    }
}

/// Determinism: the layout of a tree depends on how it branches and on
/// nothing else. Two trees that branch alike are laid out alike, whatever
/// their categories, labels and whitespace.
pub proof fn lemma_layout_by_shape(a: NodeView, b: NodeView)
    requires
        same_shape(a, b),
    ensures
        same_places(laid_out(a), laid_out(b)),
{
    lemma_passes_by_shape(a, b, 0, 0);
}

impl Node {
    /// Gives the leaves below this node their `x`, counting from
    /// `rightmost_x`, and returns the number for the next leaf to the right.
    pub(crate) fn assign_leaves(&mut self, rightmost_x: usize) -> (next: usize)
        requires
            rightmost_x + leaf_count(old(self)@) <= usize::MAX,
        ensures
            final(self)@ == with_leaves_numbered(old(self)@, rightmost_x as nat),
            next == rightmost_x + leaf_count(old(self)@),
        decreases *old(self),
    {
        match &mut *self.kind {
            NodeKind::Leaf { label: _label } => {
                self.x = (rightmost_x as u128) * X_UNIT;
                rightmost_x + 1
            },
            NodeKind::Subtree { left, right } => {
                let after_left = left.assign_leaves(rightmost_x);
                match right {
                    Some(right_node) => right_node.assign_leaves(after_left),
                    None => after_left,
                }
            },
        }
    }

    /// Gives this node and every node below it its `y`, starting from
    /// `depth`, and every node with children its `x`. The leaves must have
    /// theirs already.
    pub(crate) fn compute_coordinates(&mut self, depth: usize)
        requires
            depth + height(old(self)@) <= usize::MAX,
        ensures
            final(self)@ == with_coordinates(old(self)@, depth as nat),
        decreases *old(self),
    {
        match &mut *self.kind {
            NodeKind::Leaf { label: _label } => {},
            NodeKind::Subtree { left, right } => {
                left.compute_coordinates(depth + 1);
                if let Some(right) = right {
                    right.compute_coordinates(depth + 1);
                    self.x = left.x / 2 + right.x / 2 + (left.x % 2 + right.x % 2) / 2;
                } else {
                    self.x = left.x;
                }
            },
        }
        self.y = depth;
    }
}

} // verus!
