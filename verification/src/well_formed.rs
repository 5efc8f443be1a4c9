//! Which trees the grammar gives, and which texts it takes: the trees are
//! the well-formed ones, and the texts are theirs.

use crate::format::{kind_text, source_text};
use crate::grammar::{
    behind_token, front_token, lemma_stop_chars, spec_content, spec_node, spec_tree, stop_chars,
    word_run, Failure, Rules, MAX_DEPTH,
};
use crate::layout::laid_out;
use crate::scan::{
    is_blank, is_free_of, is_space, lemma_run_until, lemma_run_until_of_free, lemma_space_run,
    lemma_space_run_of_blank, space_run,
};
use crate::tree::{KindView, NodeView};
use vstd::prelude::*;

verus! {

/// Whether `w` is a token: not empty, and free of whitespace and brackets.
pub open spec fn is_word(w: Seq<char>) -> bool {
    w.len() > 0 && is_free_of(w, stop_chars())
}

/// Whether `s` starts with whitespace.
pub open spec fn starts_blank(s: Seq<char>) -> bool {
    s.len() > 0 && is_space(s[0])
}

/// Whether `n` is a node as the grammar gives them, with at most `levels`
/// nodes nested and no layout yet: its tokens are tokens, its whitespace is
/// whitespace, and each run of whitespace is held by what stands before it,
/// so that a child has none before its bracket, a label none before its
/// value, and a category some between itself and a label.
pub open spec fn well_formed(n: NodeView, rules: Rules, levels: nat) -> bool
    decreases n,
{
    &&& levels > 0
    &&& n.x == 0
    &&& n.y == 0
    &&& is_blank(n.lead)
    &&& is_blank(n.trail)
    &&& is_blank(n.category.prefix)
    &&& is_word(n.category.value)
    &&& is_blank(n.category.suffix)
    &&& rules.strict ==> rules.vocabulary.contains(n.category.value)
    &&& well_formed_content(n.kind, n.category.suffix, rules, (levels - 1) as nat)
}

/// Whether `kind` is the content of a node as the grammar gives them, behind
/// a category with the whitespace `gap` after it.
pub open spec fn well_formed_content(
    kind: KindView,
    gap: Seq<char>,
    rules: Rules,
    levels: nat,
) -> bool
    decreases kind,
{
    match kind {
        KindView::Leaf { label } => {
            &&& gap.len() > 0
            &&& label.prefix.len() == 0
            &&& is_word(label.value)
            &&& is_blank(label.suffix)
        },
        KindView::Subtree { left, right: None } => {
            &&& left.lead.len() == 0
            &&& well_formed(*left, rules, levels)
        },
        KindView::Subtree { left, right: Some(right) } => {
            &&& left.lead.len() == 0
            &&& right.lead.len() == 0
            &&& well_formed(*left, rules, levels)
            &&& well_formed(*right, rules, levels)
        },
    }
}

/// What is read off the front of `s` as a token is a token with whitespace
/// behind it, and what is left starts with no whitespace.
proof fn lemma_front_token_is_token(prefix: Seq<char>, s: Seq<char>)
    requires
        word_run(s) > 0,
    ensures
        is_word(front_token(prefix, s).value),
        is_blank(front_token(prefix, s).suffix),
        !starts_blank(behind_token(s)),
        front_token(prefix, s).suffix.len() == 0 ==> word_run(behind_token(s)) == 0,
{
    let after = s.skip(word_run(s) as int);
    lemma_run_until(s, stop_chars());
    lemma_space_run(after);
    if space_run(after) == 0 {
        assert(after.skip(0) =~= after);
        if after.len() > 0 {
            assert(after[0] == s[word_run(s) as int]);
        }
    }
}

/// The grammar gives well-formed nodes only, and reads all the whitespace
/// behind them.
pub proof fn lemma_node_is_well_formed(s: Seq<char>, rules: Rules, levels: nat)
    ensures
        spec_node(s, rules, levels) matches Ok((rest, n)) ==> well_formed(n, rules, levels)
            && !starts_blank(rest) && n.lead.len() == space_run(s),
    decreases levels, 0nat,
{
    if let Ok((rest, n)) = spec_node(s, rules, levels) {
        let at_open = s.skip(space_run(s) as int);
        let after_open = at_open.skip(1);
        let in_node = after_open.skip(space_run(after_open) as int);
        let at_content = behind_token(in_node);
        let (at_close, kind) = spec_content(at_content, rules, (levels - 1) as nat)->Ok_0;
        lemma_space_run(s);
        lemma_space_run(after_open);
        lemma_space_run(at_close.skip(1));
        lemma_front_token_is_token(after_open.take(space_run(after_open) as int), in_node);
        lemma_content_is_well_formed(at_content, n.category.suffix, rules, (levels - 1) as nat);
    }
}

/// The grammar gives well-formed content only, behind whatever whitespace
/// lets the content start where it does.
pub proof fn lemma_content_is_well_formed(
    s: Seq<char>,
    gap: Seq<char>,
    rules: Rules,
    levels: nat,
)
    requires
        !starts_blank(s),
        gap.len() == 0 ==> word_run(s) == 0,
    ensures
        spec_content(s, rules, levels) matches Ok((rest, kind)) ==> well_formed_content(
            kind,
            gap,
            rules,
            levels,
        ) && !starts_blank(rest),
    decreases levels, 1nat,
{
    if let Ok((rest, kind)) = spec_content(s, rules, levels) {
        if word_run(s) > 0 {
            lemma_front_token_is_token(Seq::empty(), s);
        } else {
            lemma_node_is_well_formed(s, rules, levels);
            let (after_left, left) = spec_node(s, rules, levels)->Ok_0;
            if after_left.len() > 0 && after_left[0] == '[' {
                lemma_node_is_well_formed(after_left, rules, levels);
            }
        }
    }
}

/// The text of a node without whitespace before its bracket starts with
/// the bracket.
proof fn lemma_text_starts_with_bracket(n: NodeView, rest: Seq<char>)
    requires
        n.lead.len() == 0,
    ensures
        (source_text(n) + rest).len() > 0,
        (source_text(n) + rest)[0] == '[',
{
    assert((n.lead + seq!['['])[0] == '[');
}

/// The grammar takes the text of every well-formed node: followed by
/// anything that starts with no whitespace, the text parses to the node, and
/// what followed is left unread.
pub proof fn lemma_text_parses(n: NodeView, rules: Rules, levels: nat, rest: Seq<char>)
    requires
        well_formed(n, rules, levels),
        !starts_blank(rest),
    ensures
        spec_node(source_text(n) + rest, rules, levels) == Ok::<(Seq<char>, NodeView), Failure>(
            (rest, n),
        ),
    decreases n,
{
    let s = source_text(n) + rest;
    let category = n.category;
    let after_close = n.trail + rest;
    let at_close = seq![']'] + after_close;
    let at_content = kind_text(n.kind) + at_close;
    let after_word = category.suffix + at_content;
    let in_node = category.value + after_word;
    let after_open = category.prefix + in_node;
    let at_open = seq!['['] + after_open;
    assert(s =~= n.lead + at_open);
    lemma_content_text_parses(n.kind, category.suffix, rules, (levels - 1) as nat, at_close);

    lemma_space_run_of_blank(n.lead, at_open);
    assert(s.take(n.lead.len() as int) =~= n.lead);
    assert(s.skip(n.lead.len() as int) =~= at_open);
    assert(at_open.skip(1) =~= after_open);

    lemma_stop_chars(category.value[0]);
    lemma_space_run_of_blank(category.prefix, in_node);
    assert(after_open.take(category.prefix.len() as int) =~= category.prefix);
    assert(after_open.skip(category.prefix.len() as int) =~= in_node);

    if category.suffix.len() > 0 {
        lemma_stop_chars(category.suffix[0]);
    }
    lemma_run_until_of_free(category.value, stop_chars(), after_word);
    assert(in_node.take(category.value.len() as int) =~= category.value);
    assert(in_node.skip(category.value.len() as int) =~= after_word);

    lemma_space_run_of_blank(category.suffix, at_content);
    assert(after_word.take(category.suffix.len() as int) =~= category.suffix);
    assert(after_word.skip(category.suffix.len() as int) =~= at_content);
    assert(behind_token(in_node) == at_content);
    assert(front_token(category.prefix, in_node) == category);

    assert(at_close.skip(1) =~= after_close);
    lemma_space_run_of_blank(n.trail, rest);
    assert(after_close.take(n.trail.len() as int) =~= n.trail);
    assert(after_close.skip(n.trail.len() as int) =~= rest);
}

/// The grammar takes the text of every well-formed tree within the nesting
/// limit, and lays the tree out.
pub proof fn lemma_text_parses_to_tree(n: NodeView, rules: Rules, rest: Seq<char>)
    requires
        well_formed(n, rules, MAX_DEPTH as nat),
        !starts_blank(rest),
    ensures
        spec_tree(source_text(n) + rest, rules) == Ok::<(Seq<char>, NodeView), Failure>(
            (rest, laid_out(n)),
        ),
{
    lemma_text_parses(n, rules, MAX_DEPTH as nat, rest);
}

/// The grammar takes the text of all well-formed content that a closing
/// bracket follows.
proof fn lemma_content_text_parses(
    kind: KindView,
    gap: Seq<char>,
    rules: Rules,
    levels: nat,
    rest: Seq<char>,
)
    requires
        well_formed_content(kind, gap, rules, levels),
        rest.len() > 0,
        rest[0] == ']',
    ensures
        spec_content(kind_text(kind) + rest, rules, levels) == Ok::<
            (Seq<char>, KindView),
            Failure,
        >((rest, kind)),
        !starts_blank(kind_text(kind) + rest),
        gap.len() == 0 ==> stop_chars().contains((kind_text(kind) + rest)[0]),
    decreases kind,
{
    let s = kind_text(kind) + rest;
    lemma_stop_chars('[');
    lemma_stop_chars(']');
    match kind {
        KindView::Leaf { label } => {
            let after_word = label.suffix + rest;
            assert(label.prefix =~= Seq::<char>::empty());
            assert(s =~= label.value + after_word);
            lemma_stop_chars(label.value[0]);
            if label.suffix.len() > 0 {
                lemma_stop_chars(label.suffix[0]);
            }
            lemma_run_until_of_free(label.value, stop_chars(), after_word);
            assert(s.take(label.value.len() as int) =~= label.value);
            assert(s.skip(label.value.len() as int) =~= after_word);
            lemma_space_run_of_blank(label.suffix, rest);
            assert(after_word.take(label.suffix.len() as int) =~= label.suffix);
            assert(after_word.skip(label.suffix.len() as int) =~= rest);
            assert(front_token(Seq::empty(), s) == label);
        },
        KindView::Subtree { left, right: None } => {
            lemma_text_starts_with_bracket(*left, rest);
            lemma_text_parses(*left, rules, levels, rest);
        },
        KindView::Subtree { left, right: Some(right) } => {
            let second = source_text(*right) + rest;
            assert(s =~= source_text(*left) + second);
            lemma_text_starts_with_bracket(*left, second);
            lemma_text_starts_with_bracket(*right, rest);
            lemma_text_parses(*left, rules, levels, second);
            lemma_text_parses(*right, rules, levels, rest);
        },
    }
}

} // verus!
