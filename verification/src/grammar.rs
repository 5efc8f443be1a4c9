//! The bracket-notation grammar, as a function on sequences of characters.
//!
//! ```text
//! Node     := WS* '[' WS* Category WS* (Label | Node Node?) ']' WS*
//! Category := one or more characters that are neither whitespace nor brackets
//! Label    := one or more characters that are neither whitespace nor brackets
//! ```
//!
//! A label and a child node both take the whitespace that follows them, so
//! none is left before the closing bracket. The grammar looks one character
//! ahead and never goes back: content that starts with `[` is a child, and
//! the first error met is the one reported.

use crate::format::{kind_text, lemma_text_holds_every_node};
use crate::round_trip::{lemma_content_round_trip, lemma_node_round_trip};
use crate::layout::{
    depths_hold, laid_out, leaves_numbered, lemma_depth_rule, lemma_laid_out_is_placed,
    lemma_layout_keeps_shape, lemma_leaf_numbering, lemma_midpoint_rule, lemma_midpoints_exact,
    lemma_within_leaves, midpoints_exact, midpoints_hold, placed, with_leaves_numbered,
    within_leaves,
};
use crate::scan::{
    is_space, lemma_run_until, lemma_run_until_cut, lemma_space_run, lemma_space_run_cut,
    run_until, space_run,
};
use crate::tree::{height, lemma_count_bounds, node_count, KindView, NodeView, TokenView};
use vstd::prelude::*;

verus! {

/// How many nodes may be nested, the root included.
pub const MAX_DEPTH: usize = 64;

/// Why an input is not a node.
#[derive(Clone, Copy, Debug, PartialEq, Eq, Structural)]
pub enum ParseErrorKind {
    /// The input ended where a `[`, a category, a label or a child was due.
    UnexpectedEndOfInput,
    /// A character other than `[` stands where a node must start.
    ExpectedOpenBracket,
    /// The input ended where a `]` was due.
    ExpectedCloseBracket,
    /// A bracket stands where a category or a label was due.
    EmptyToken,
    /// The category is not in the vocabulary (strict parsing only).
    InvalidCategory,
    /// Something other than `]` follows the label or the last child.
    UnconsumedTrailingContent,
    /// More than [`MAX_DEPTH`] nodes are nested.
    NestingTooDeep,
}

/// The value of a [`crate::parser::ParserConfig`]: whether categories are
/// held to a vocabulary, and the vocabulary.
pub struct Rules {
    pub strict: bool,
    pub vocabulary: Set<Seq<char>>,
}

/// A failed parse of a sequence: the reason, and what of the sequence was
/// left unread at the offending position.
pub struct Failure {
    pub kind: ParseErrorKind,
    pub rest: Seq<char>,
}

/// The rules under which every token is a category.
pub open spec fn free_form() -> Rules {
    Rules { strict: false, vocabulary: Set::empty() }
}

/// The categories of the standard vocabulary: sentence, the phrases, and the
/// parts of speech.
pub open spec fn standard_categories() -> Seq<Seq<char>> {
    seq!["S"@, "NP"@, "VP"@, "PP"@, "CP"@, "N"@, "V"@, "P"@, "C"@, "Det"@, "Adj"@]
}

/// Whether `r` is what is left of `s` behind some prefix of it.
pub open spec fn ends_with(s: Seq<char>, r: Seq<char>) -> bool {
    r.len() <= s.len() && r == s.skip(s.len() - r.len())
}

/// The characters that end a category or a label.
pub open spec fn stop_chars() -> Seq<char> {
    seq![' ', '\t', '\r', '\n', '[', ']']
}

/// The length of the token that `s` starts with; 0 where it starts with none.
pub open spec fn word_run(s: Seq<char>) -> nat {
    run_until(s, stop_chars())
}

/// The token at the front of `s`, with the whitespace behind it as suffix.
pub open spec fn front_token(prefix: Seq<char>, s: Seq<char>) -> TokenView {
    let after = s.skip(word_run(s) as int);
    TokenView {
        prefix,
        value: s.take(word_run(s) as int),
        suffix: after.take(space_run(after) as int),
    }
}

/// What is left of `s` behind its front token and the whitespace after it.
pub open spec fn behind_token(s: Seq<char>) -> Seq<char> {
    let after = s.skip(word_run(s) as int);
    after.skip(space_run(after) as int)
}

/// The grammar's `Node`: what `s` parses to, and what is left of `s` behind
/// the node, with at most `levels` nodes nested. The node carries no layout
/// yet: every `x` and `y` is 0.
pub open spec fn spec_node(s: Seq<char>, rules: Rules, levels: nat) -> Result<
    (Seq<char>, NodeView),
    Failure,
>
    decreases levels, 0nat,
{
    let at_open = s.skip(space_run(s) as int);
    let in_node = at_open.skip(1).skip(space_run(at_open.skip(1)) as int);
    if at_open.len() == 0 {
        Err(Failure { kind: ParseErrorKind::UnexpectedEndOfInput, rest: at_open })
    } else if at_open[0] != '[' {
        Err(Failure { kind: ParseErrorKind::ExpectedOpenBracket, rest: at_open })
    } else if levels == 0 {
        Err(Failure { kind: ParseErrorKind::NestingTooDeep, rest: at_open })
    } else if in_node.len() == 0 {
        Err(Failure { kind: ParseErrorKind::UnexpectedEndOfInput, rest: in_node })
    } else if word_run(in_node) == 0 {
        Err(Failure { kind: ParseErrorKind::EmptyToken, rest: in_node })
    } else if rules.strict && !rules.vocabulary.contains(in_node.take(word_run(in_node) as int)) {
        Err(Failure { kind: ParseErrorKind::InvalidCategory, rest: in_node })
    } else {
        match spec_content(behind_token(in_node), rules, (levels - 1) as nat) {
            Err(failure) => Err(failure),
            Ok((at_close, kind)) => {
                if at_close.len() == 0 {
                    Err(Failure { kind: ParseErrorKind::ExpectedCloseBracket, rest: at_close })
                } else if at_close[0] != ']' {
                    Err(
                        Failure {
                            kind: ParseErrorKind::UnconsumedTrailingContent,
                            rest: at_close,
                        },
                    )
                } else {
                    let after = at_close.skip(1);
                    Ok(
                        (
                            after.skip(space_run(after) as int),
                            NodeView {
                                category: front_token(
                                    at_open.skip(1).take(space_run(at_open.skip(1)) as int),
                                    in_node,
                                ),
                                kind,
                                x: 0,
                                y: 0,
                                lead: s.take(space_run(s) as int),
                                trail: after.take(space_run(after) as int),
                            },
                        ),
                    )
                }
            },
        }
    }
}

/// The grammar's `Label | Node Node?`: what the content of a node parses to,
/// and what is left of `s` behind it. A second child is read exactly when a
/// `[` follows the first.
pub open spec fn spec_content(s: Seq<char>, rules: Rules, levels: nat) -> Result<
    (Seq<char>, KindView),
    Failure,
>
    decreases levels, 1nat,
{
    if word_run(s) > 0 {
        Ok((behind_token(s), KindView::Leaf { label: front_token(Seq::empty(), s) }))
    } else if s.len() == 0 {
        Err(Failure { kind: ParseErrorKind::UnexpectedEndOfInput, rest: s })
    } else if s[0] == ']' {
        Err(Failure { kind: ParseErrorKind::EmptyToken, rest: s })
    } else {
        match spec_node(s, rules, levels) {
            Err(failure) => Err(failure),
            Ok((after_left, left)) => {
                if after_left.len() > 0 && after_left[0] == '[' {
                    match spec_node(after_left, rules, levels) {
                        Err(failure) => Err(failure),
                        Ok((after_right, right)) => Ok(
                            (
                                after_right,
                                KindView::Subtree {
                                    left: Box::new(left),
                                    right: Some(Box::new(right)),
                                },
                            ),
                        ),
                    }
                } else {
                    Ok((after_left, KindView::Subtree { left: Box::new(left), right: None }))
                }
            },
        }
    }
}

/// What `s` parses to as a whole tree: the node that it starts with, laid
/// out, and what is left of `s` behind it.
pub open spec fn spec_tree(s: Seq<char>, rules: Rules) -> Result<(Seq<char>, NodeView), Failure> {
    match spec_node(s, rules, MAX_DEPTH as nat) {
        Ok((rest, n)) => Ok((rest, laid_out(n))),
        Err(failure) => Err(failure),
    }
}

/// A character ends a token exactly when it is whitespace or a bracket.
pub proof fn lemma_stop_chars(c: char)
    ensures
        stop_chars().contains(c) <==> (is_space(c) || c == '[' || c == ']'),
{
    let stops = stop_chars();
    if is_space(c) || c == '[' || c == ']' {
        let i: int = if c == ' ' {
            0
        } else if c == '\t' {
            1
        } else if c == '\r' {
            2
        } else if c == '\n' {
            3
        } else if c == '[' {
            4
        } else {
            5
        };
        assert(stops[i] == c);
    }
}

/// What is left behind a prefix of what is left behind a prefix is left
/// behind a prefix.
proof fn lemma_ends_with(s: Seq<char>, t: Seq<char>, r: Seq<char>)
    requires
        ends_with(s, t),
        ends_with(t, r),
    ensures
        ends_with(s, r),
{
    assert(r =~= s.skip(s.len() - r.len()));
}

/// What is left behind leading whitespace is left behind a prefix.
proof fn lemma_ends_with_spaces(s: Seq<char>)
    ensures
        ends_with(s, s.skip(space_run(s) as int)),
{
    lemma_space_run(s);
}

/// A parse stops inside its input: what a failure leaves unread is what is
/// left of the input behind some prefix of it.
pub proof fn lemma_node_stops_inside(s: Seq<char>, rules: Rules, levels: nat)
    ensures
        spec_node(s, rules, levels) matches Err(failure) ==> ends_with(s, failure.rest),
    decreases levels, 0nat,
{
    if let Err(failure) = spec_node(s, rules, levels) {
        let at_open = s.skip(space_run(s) as int);
        lemma_ends_with_spaces(s);
        if at_open.len() > 0 && at_open[0] == '[' && levels > 0 {
            let after_open = at_open.skip(1);
            let in_node = after_open.skip(space_run(after_open) as int);
            lemma_ends_with_spaces(after_open);
            lemma_ends_with(at_open, after_open, in_node);
            lemma_ends_with(s, at_open, in_node);
            if in_node.len() > 0 && word_run(in_node) > 0 && !(rules.strict
                && !rules.vocabulary.contains(in_node.take(word_run(in_node) as int))) {
                let at_content = behind_token(in_node);
                let after_word = in_node.skip(word_run(in_node) as int);
                lemma_run_until(in_node, stop_chars());
                lemma_ends_with_spaces(after_word);
                lemma_ends_with(in_node, after_word, at_content);
                lemma_ends_with(s, in_node, at_content);
                lemma_content_stops_inside(at_content, rules, (levels - 1) as nat);
                match spec_content(at_content, rules, (levels - 1) as nat) {
                    Err(inner) => {
                        lemma_ends_with(s, at_content, inner.rest);
                    },
                    Ok((at_close, kind)) => {
                        lemma_content_round_trip(at_content, rules, (levels - 1) as nat);
                        assert(at_close =~= at_content.skip(at_content.len() - at_close.len()));
                        lemma_ends_with(s, at_content, at_close);
                    },
                }
            }
        }
    }
}

/// A parse of content stops inside its input.
pub proof fn lemma_content_stops_inside(s: Seq<char>, rules: Rules, levels: nat)
    ensures
        spec_content(s, rules, levels) matches Err(failure) ==> ends_with(s, failure.rest),
    decreases levels, 1nat,
{
    if let Err(failure) = spec_content(s, rules, levels) {
        assert(s.skip(0) =~= s);
        if s.len() > 0 && s[0] != ']' {
            lemma_node_stops_inside(s, rules, levels);
            if let Ok((after_left, left)) = spec_node(s, rules, levels) {
                lemma_node_round_trip(s, rules, levels);
                assert(after_left =~= s.skip(s.len() - after_left.len()));
                lemma_node_stops_inside(after_left, rules, levels);
                lemma_ends_with(s, after_left, failure.rest);
            }
        }
    }
}

/// A node parsed with at most `levels` nodes nested has fewer than `levels`
/// levels below it.
pub proof fn lemma_node_depth(s: Seq<char>, rules: Rules, levels: nat)
    ensures
        spec_node(s, rules, levels) matches Ok((rest, n)) ==> height(n) < levels,
    decreases levels, 0nat,
{
    if spec_node(s, rules, levels) is Ok {
        let after_open = s.skip(space_run(s) as int).skip(1);
        let in_node = after_open.skip(space_run(after_open) as int);
        lemma_content_depth(behind_token(in_node), rules, (levels - 1) as nat);
    }
}

/// The children parsed with at most `levels` nodes nested have fewer than
/// `levels` levels below them.
pub proof fn lemma_content_depth(s: Seq<char>, rules: Rules, levels: nat)
    ensures
        spec_content(s, rules, levels) matches Ok((rest, KindView::Subtree { left, right }))
            ==> height(*left) < levels && (right matches Some(r) ==> height(*r) < levels),
    decreases levels, 1nat,
{
    if spec_content(s, rules, levels) is Ok && word_run(s) == 0 {
        lemma_node_depth(s, rules, levels);
        let (after_left, left) = spec_node(s, rules, levels)->Ok_0;
        if after_left.len() > 0 && after_left[0] == '[' {
            lemma_node_depth(after_left, rules, levels);
        }
    }
}

/// A parsed tree obeys every rule of the layout, and none of its midpoints
/// is rounded: the nesting limit keeps it within the 64 binary places of `x`.
pub proof fn lemma_parsed_tree_rules(s: Seq<char>, rules: Rules)
    ensures
        spec_tree(s, rules) matches Ok((rest, tree)) ==> {
            &&& placed(tree)
            &&& leaves_numbered(tree, 0)
            &&& midpoints_hold(tree)
            &&& midpoints_exact(tree)
            &&& depths_hold(tree, 0)
            &&& within_leaves(tree)
            &&& height(tree) < MAX_DEPTH
        },
{
    if let Ok((rest, n)) = spec_node(s, rules, MAX_DEPTH as nat) {
        let tree = laid_out(n);
        lemma_node_depth(s, rules, MAX_DEPTH as nat);
        lemma_laid_out_is_placed(n);
        lemma_layout_keeps_shape(n, 0, 0);
        lemma_layout_keeps_shape(with_leaves_numbered(n, 0), 0, 0);
        lemma_leaf_numbering(tree);
        lemma_midpoint_rule(tree);
        lemma_midpoints_exact(tree);
        lemma_depth_rule(tree);
        lemma_within_leaves(tree);
    }
}

/// Cutting a sequence off behind its leading whitespace changes neither the
/// whitespace nor, but for the cut, what is behind it.
proof fn lemma_spaces_cut(s: Seq<char>, len: int)
    requires
        space_run(s) <= len <= s.len(),
    ensures
        space_run(s.take(len)) == space_run(s),
        s.take(len).take(space_run(s) as int) == s.take(space_run(s) as int),
        s.take(len).skip(space_run(s) as int) == s.skip(space_run(s) as int).take(
            len - space_run(s),
        ),
{
    lemma_space_run_cut(s, len);
    assert(s.take(len).take(space_run(s) as int) =~= s.take(space_run(s) as int));
    assert(s.take(len).skip(space_run(s) as int) =~= s.skip(space_run(s) as int).take(
        len - space_run(s),
    ));
}

/// How many characters the token at the front of `s` and the whitespace
/// behind it take.
spec fn token_len(s: Seq<char>) -> nat {
    word_run(s) + space_run(s.skip(word_run(s) as int))
}

/// The token at the front of `s` and what is left behind it make up `s`.
proof fn lemma_token_len(s: Seq<char>)
    ensures
        token_len(s) <= s.len(),
        behind_token(s).len() == s.len() - token_len(s),
{
    lemma_run_until(s, stop_chars());
    lemma_space_run(s.skip(word_run(s) as int));
}

/// Cutting a sequence off behind its front token changes neither the token
/// nor, but for the cut, what is behind it.
proof fn lemma_token_cut(prefix: Seq<char>, s: Seq<char>, len: int)
    requires
        token_len(s) <= len <= s.len(),
    ensures
        word_run(s.take(len)) == word_run(s),
        front_token(prefix, s.take(len)) == front_token(prefix, s),
        behind_token(s.take(len)) == behind_token(s).take(len - token_len(s)),
{
    let word = word_run(s) as int;
    let after = s.skip(word);
    lemma_run_until(s, stop_chars());
    lemma_run_until_cut(s, stop_chars(), len);
    assert(s.take(len).take(word) =~= s.take(word));
    assert(s.take(len).skip(word) =~= after.take(len - word));
    lemma_spaces_cut(after, len - word);
}

/// What a successful parse of a node read: fewer characters than there
/// were, and at least one.
proof fn lemma_node_reads(s: Seq<char>, rules: Rules, levels: nat)
    ensures
        spec_node(s, rules, levels) matches Ok((rest, n)) ==> rest.len() < s.len(),
{
    lemma_node_fits(s, rules, levels);
    if let Ok((rest, n)) = spec_node(s, rules, levels) {
        lemma_count_bounds(n);
    }
}

/// What a successful parse of content read: no more characters than there
/// were.
proof fn lemma_content_reads(s: Seq<char>, rules: Rules, levels: nat)
    ensures
        spec_content(s, rules, levels) matches Ok((rest, kind)) ==> rest.len() <= s.len(),
{
    lemma_content_round_trip(s, rules, levels);
    if let Ok((rest, kind)) = spec_content(s, rules, levels) {
        assert((kind_text(kind) + rest).len() == s.len());
    }
}

/// A parse reads no further than it says: cut off anywhere behind what a
/// successful parse read, the input parses to the same node, and what is
/// left unread is cut off at the same place.
pub proof fn lemma_node_cut(s: Seq<char>, rules: Rules, levels: nat, len: int)
    ensures
        spec_node(s, rules, levels) matches Ok((rest, n)) ==> (s.len() - rest.len() <= len
            <= s.len() ==> spec_node(s.take(len), rules, levels) == Ok::<
            (Seq<char>, NodeView),
            Failure,
        >((rest.take(len - (s.len() - rest.len())), n))),
    decreases levels, 0nat,
{
    if let Ok((rest, n)) = spec_node(s, rules, levels) {
        if s.len() - rest.len() <= len <= s.len() {
            let lead = space_run(s) as int;
            let at_open = s.skip(lead);
            let after_open = at_open.skip(1);
            let gap = space_run(after_open) as int;
            let in_node = after_open.skip(gap);
            let at_content = behind_token(in_node);
            let (at_close, kind) = spec_content(at_content, rules, (levels - 1) as nat)->Ok_0;
            let after_close = at_close.skip(1);
            lemma_space_run(s);
            lemma_space_run(after_open);
            lemma_token_len(in_node);
            lemma_content_reads(at_content, rules, (levels - 1) as nat);
            lemma_space_run(after_close);
            assert(rest == after_close.skip(space_run(after_close) as int));

            let len_open = len - lead;
            lemma_spaces_cut(s, len);
            assert(at_open.take(len_open).skip(1) =~= after_open.take(len_open - 1));
            let len_node = len_open - 1 - gap;
            lemma_spaces_cut(after_open, len_open - 1);
            lemma_token_cut(after_open.take(gap), in_node, len_node);
            assert(in_node.take(len_node).take(word_run(in_node) as int) =~= in_node.take(
                word_run(in_node) as int,
            ));
            let len_content = len_node - token_len(in_node);
            lemma_content_cut(at_content, rules, (levels - 1) as nat, len_content);
            let len_close = len_content - (at_content.len() - at_close.len());
            assert(at_close.take(len_close).skip(1) =~= after_close.take(len_close - 1));
            lemma_spaces_cut(after_close, len_close - 1);
        }
    }
}

/// Cut off anywhere behind what a successful parse of content read, the
/// input parses to the same content.
pub proof fn lemma_content_cut(s: Seq<char>, rules: Rules, levels: nat, len: int)
    ensures
        spec_content(s, rules, levels) matches Ok((rest, kind)) ==> (s.len() - rest.len() <= len
            <= s.len() ==> spec_content(s.take(len), rules, levels) == Ok::<
            (Seq<char>, KindView),
            Failure,
        >((rest.take(len - (s.len() - rest.len())), kind))),
    decreases levels, 1nat,
{
    if let Ok((rest, kind)) = spec_content(s, rules, levels) {
        if s.len() - rest.len() <= len <= s.len() {
            if word_run(s) > 0 {
                lemma_token_len(s);
                lemma_token_cut(Seq::empty(), s, len);
            } else {
                let (after_left, left) = spec_node(s, rules, levels)->Ok_0;
                lemma_node_reads(s, rules, levels);
                lemma_node_reads(after_left, rules, levels);
                lemma_run_until_cut(s, stop_chars(), len);
                lemma_node_cut(s, rules, levels, len);
                lemma_node_cut(after_left, rules, levels, len - (s.len() - after_left.len()));
            }
        }
    }
}

/// A parsed node has no more nodes than the parser read characters.
pub proof fn lemma_node_fits(s: Seq<char>, rules: Rules, levels: nat)
    ensures
        spec_node(s, rules, levels) matches Ok((rest, n)) ==> node_count(n) + rest.len()
            <= s.len(),
{
    if let Ok((rest, n)) = spec_node(s, rules, levels) {
        lemma_node_round_trip(s, rules, levels);
        lemma_text_holds_every_node(n);
    }
}

} // verus!
