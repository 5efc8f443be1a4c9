//! Parsing loses nothing: the text of a parsed tree is the text it was
//! parsed from, and parses to the same tree again.

use crate::format::{kind_text, lemma_layout_keeps_text, source_text, token_text};
use crate::grammar::{
    behind_token, front_token, lemma_node_cut, spec_content, spec_node, spec_tree, stop_chars,
    word_run, Failure, Rules, MAX_DEPTH,
};
use crate::layout::{laid_out, with_leaves_numbered};
use crate::scan::{lemma_run_until, lemma_space_run, space_run};
use crate::tree::NodeView;
use vstd::prelude::*;

verus! {

/// A token read off the front of `s`, and what is left behind it, make up
/// `s` again.
proof fn lemma_front_token(prefix: Seq<char>, s: Seq<char>)
    ensures
        token_text(front_token(prefix, s)) + behind_token(s) == prefix + s,
{
    let after = s.skip(word_run(s) as int);
    lemma_run_until(s, stop_chars());
    lemma_space_run(after);
    assert(s =~= s.take(word_run(s) as int) + after);
    assert(after =~= after.take(space_run(after) as int) + after.skip(space_run(after) as int));
    assert(token_text(front_token(prefix, s)) + behind_token(s) =~= prefix + s);
}

/// Whitespace read off the front of `s`, and what is left behind it, make up
/// `s` again.
proof fn lemma_front_spaces(s: Seq<char>)
    ensures
        s.take(space_run(s) as int) + s.skip(space_run(s) as int) == s,
{
    lemma_space_run(s);
    assert(s.take(space_run(s) as int) + s.skip(space_run(s) as int) =~= s);
}

/// Round trip: the text of a parsed node, followed by what the parser left
/// unread, is the input.
pub proof fn lemma_node_round_trip(s: Seq<char>, rules: Rules, levels: nat)
    ensures
        spec_node(s, rules, levels) matches Ok((rest, n)) ==> source_text(n) + rest == s,
    decreases levels, 0nat,
{
    if let Ok((rest, n)) = spec_node(s, rules, levels) {
        let at_open = s.skip(space_run(s) as int);
        let after_open = at_open.skip(1);
        let in_node = after_open.skip(space_run(after_open) as int);
        let at_content = behind_token(in_node);
        lemma_content_round_trip(at_content, rules, (levels - 1) as nat);
        let (at_close, kind) = spec_content(at_content, rules, (levels - 1) as nat)->Ok_0;
        let after_close = at_close.skip(1);
        lemma_front_spaces(s);
        lemma_front_spaces(after_open);
        lemma_front_spaces(after_close);
        lemma_front_token(after_open.take(space_run(after_open) as int), in_node);
        assert(at_open =~= seq!['['] + after_open);
        assert(at_close =~= seq![']'] + after_close);
        let category = token_text(n.category);
        assert(category + at_content == after_open);
        assert(kind_text(kind) + at_close == at_content);
        assert(n.trail + rest == after_close);
        assert(n.lead + at_open == s);
        assert(source_text(n) + rest =~= n.lead + (seq!['['] + (category + (kind_text(kind) + (
        seq![']'] + (n.trail + rest))))));
    }
}

/// Round trip for the content of a node: its text, followed by what was left
/// unread, is the input.
pub proof fn lemma_content_round_trip(s: Seq<char>, rules: Rules, levels: nat)
    ensures
        spec_content(s, rules, levels) matches Ok((rest, kind)) ==> kind_text(kind) + rest == s,
    decreases levels, 1nat,
{
    if let Ok((rest, kind)) = spec_content(s, rules, levels) {
        if word_run(s) > 0 {
            lemma_front_token(Seq::empty(), s);
            assert(Seq::<char>::empty() + s =~= s);
        } else {
            lemma_node_round_trip(s, rules, levels);
            let (after_left, left) = spec_node(s, rules, levels)->Ok_0;
            if after_left.len() > 0 && after_left[0] == '[' {
                lemma_node_round_trip(after_left, rules, levels);
                let (after_right, right) = spec_node(after_left, rules, levels)->Ok_0;
                assert(kind_text(kind) + rest =~= source_text(left) + (source_text(right)
                    + after_right));
            }
        }
    }
}

/// Round trip: the text of a parsed tree, followed by what the parser left
/// unread, is the input, character for character.
pub proof fn lemma_round_trip(s: Seq<char>, rules: Rules)
    ensures
        spec_tree(s, rules) matches Ok((rest, tree)) ==> source_text(tree) + rest == s,
{
    if let Ok((rest, n)) = spec_node(s, rules, MAX_DEPTH as nat) {
        lemma_node_round_trip(s, rules, MAX_DEPTH as nat);
        lemma_layout_keeps_text(n, 0, 0);
        lemma_layout_keeps_text(with_leaves_numbered(n, 0), 0, 0);
    }
}

/// Re-parse: the text of a parsed tree parses to the same tree, with nothing
/// left unread.
pub proof fn lemma_reparse(s: Seq<char>, rules: Rules)
    ensures
        spec_tree(s, rules) matches Ok((rest, tree)) ==> spec_tree(source_text(tree), rules)
            == Ok::<(Seq<char>, NodeView), Failure>((Seq::empty(), tree)),
{
    if let Ok((rest, n)) = spec_node(s, rules, MAX_DEPTH as nat) {
        let read = s.len() - rest.len();
        lemma_round_trip(s, rules);
        lemma_node_round_trip(s, rules, MAX_DEPTH as nat);
        lemma_node_cut(s, rules, MAX_DEPTH as nat, read);
        assert(s.take(read) =~= source_text(n));
        assert(rest.take(0) =~= Seq::<char>::empty());
        assert(source_text(laid_out(n)) + rest == source_text(n) + rest);
        assert(source_text(laid_out(n)) =~= (source_text(laid_out(n)) + rest).take(read));
    }
}

} // verus!
