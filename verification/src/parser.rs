//! The parser: it reads a tree off the front of a string slice, as the
//! grammar says, and says where and why it stopped when there is none.

use crate::grammar::{
    free_form, lemma_node_fits, lemma_node_stops_inside, spec_content, spec_node, spec_tree,
    standard_categories, stop_chars, word_run, Failure, Rules,
};
pub use crate::grammar::{ParseErrorKind, MAX_DEPTH};
use crate::scan::{is_not, multispace0, space_run, tag};
use crate::tree::{Node, NodeKind, SyntaxTree, Token};
use vstd::prelude::*;
use vstd::string::StrSliceExecFns;

verus! {

/// A failed parse: the reason, and how many characters precede the offending
/// position.
#[derive(Clone, Copy, Debug, PartialEq, Eq, Structural)]
pub struct ParseError {
    pub kind: ParseErrorKind,
    pub position: usize,
}

/// What the parser accepts as a category. With `strict` unset every token is
/// one; with it set, only the tokens of `vocabulary` are.
#[derive(Debug)]
pub struct ParserConfig {
    pub strict: bool,
    pub vocabulary: Vec<String>,
}

impl View for ParserConfig {
    type V = Rules;

    open spec fn view(&self) -> Rules {
        Rules { strict: self.strict, vocabulary: self.vocabulary.deep_view().to_set() }
    }
}

/// Whether `res` is what the grammar's `model` says of `input`: on success
/// the same rest and the same value; on failure the same reason, at the
/// position where the model stopped reading.
pub open spec fn agrees<T: View>(
    res: Result<(&str, T), ParseError>,
    model: Result<(Seq<char>, T::V), Failure>,
    input: Seq<char>,
) -> bool {
    match model {
        Ok((rest, value)) => res matches Ok((r, v)) && r@ == rest && v@ == value,
        Err(failure) => res matches Err(e) && e.kind == failure.kind && e.position
            + failure.rest.len() == input.len(),
    }
}

/// A failed parse of a slice: the reason, and the unread slice at the
/// offending position.
struct Stop<'a> {
    kind: ParseErrorKind,
    rest: &'a str,
}

/// Whether what the parser returned is what the grammar says.
spec fn follows<T: View>(
    res: Result<(&str, T), Stop<'_>>,
    model: Result<(Seq<char>, T::V), Failure>,
) -> bool {
    match (res, model) {
        (Ok((rest, value)), Ok((model_rest, model_value))) => rest@ == model_rest && value@
            == model_value,
        (Err(stop), Err(failure)) => stop.kind == failure.kind && stop.rest@ == failure.rest,
        _ => false,
    }
}

/// Splits `input` behind its leading whitespace: `(rest, whitespace)`.
fn spaces<'a>(input: &'a str) -> (res: (&'a str, &'a str))
    ensures
        res.1@ == input@.take(space_run(input@) as int),
        res.0@ == input@.skip(space_run(input@) as int),
{
    match multispace0(input) {
        Some(split) => split,
        None => vstd::pervasive::unreached(),
    }
}

/// Splits `input` behind the token it starts with: `(rest, token)`.
fn word<'a>(input: &'a str) -> (res: Option<(&'a str, &'a str)>)
    ensures
        match res {
            Some((rest, token)) => word_run(input@) > 0 && token@ == input@.take(
                word_run(input@) as int,
            ) && rest@ == input@.skip(word_run(input@) as int),
            None => word_run(input@) == 0,
        },
{
    proof {
        reveal_strlit(" \t\r\n[]");
        assert(" \t\r\n[]"@ =~= stop_chars());
    }
    is_not(" \t\r\n[]", input)
}

/// What is left of `input` behind a leading `[`, if it has one.
fn open_bracket<'a>(input: &'a str) -> (res: Option<&'a str>)
    ensures
        match res {
            Some(rest) => input@.len() > 0 && input@[0] == '[' && rest@ == input@.skip(1),
            None => input@.len() == 0 || input@[0] != '[',
        },
{
    let found = tag("[", input);
    proof {
        reveal_strlit("[");
        if input@.len() > 0 {
            assert(input@.subrange(0, 1)[0] == input@[0]);
            assert(input@[0] == '[' ==> "["@ =~= input@.subrange(0, 1));
        }
    }
    match found {
        Some((rest, _)) => Some(rest),
        None => None,
    }
}

/// What is left of `input` behind a leading `]`, if it has one.
fn close_bracket<'a>(input: &'a str) -> (res: Option<&'a str>)
    ensures
        match res {
            Some(rest) => input@.len() > 0 && input@[0] == ']' && rest@ == input@.skip(1),
            None => input@.len() == 0 || input@[0] != ']',
        },
{
    let found = tag("]", input);
    proof {
        reveal_strlit("]");
        if input@.len() > 0 {
            assert(input@.subrange(0, 1)[0] == input@[0]);
            assert(input@[0] == ']' ==> "]"@ =~= input@.subrange(0, 1));
        }
    }
    match found {
        Some((rest, _)) => Some(rest),
        None => None,
    }
}

/// Whether `word` is one of `vocabulary`.
fn in_vocabulary(word: &String, vocabulary: &Vec<String>) -> (found: bool)
    ensures
        found == vocabulary.deep_view().to_set().contains(word@),
{
    let mut i: usize = 0;
    while i < vocabulary.len()
        invariant
            i <= vocabulary.len(),
            forall|j: int| 0 <= j < i ==> vocabulary.deep_view()[j] != word@,
        decreases vocabulary.len() - i,
    {
        assert(vocabulary.deep_view()[i as int] == vocabulary@[i as int]@);
        if vocabulary[i] == *word {
            assert(vocabulary.deep_view().contains(word@));
            return true;
        }
        i += 1;
    }
    false
}

/// Reads one node off the front of `input`, with at most `levels` nodes
/// nested.
fn node<'a>(input: &'a str, config: &ParserConfig, levels: usize) -> (res: Result<
    (&'a str, Node),
    Stop<'a>,
>)
    ensures
        follows(res, spec_node(input@, config@, levels as nat)),
    decreases levels, 0nat,
{
    let (at_open, lead) = spaces(input);
    let Some(after_open) = open_bracket(at_open) else {
        let kind = if at_open.is_empty() {
            ParseErrorKind::UnexpectedEndOfInput
        } else {
            ParseErrorKind::ExpectedOpenBracket
        };
        return Err(Stop { kind, rest: at_open });
    };
    if levels == 0 {
        return Err(Stop { kind: ParseErrorKind::NestingTooDeep, rest: at_open });
    }
    let (in_node, category_prefix) = spaces(after_open);
    let Some((after_category, category)) = word(in_node) else {
        let kind = if in_node.is_empty() {
            ParseErrorKind::UnexpectedEndOfInput
        } else {
            ParseErrorKind::EmptyToken
        };
        return Err(Stop { kind, rest: in_node });
    };
    let value = category.to_owned();
    if config.strict && !in_vocabulary(&value, &config.vocabulary) {
        return Err(Stop { kind: ParseErrorKind::InvalidCategory, rest: in_node });
    }
    let (at_content, category_suffix) = spaces(after_category);
    let (at_close, kind) = match content(at_content, config, levels - 1) {
        Ok(read) => read,
        Err(stop) => {
            return Err(stop);
        },
    };
    let Some(after_close) = close_bracket(at_close) else {
        let kind = if at_close.is_empty() {
            ParseErrorKind::ExpectedCloseBracket
        } else {
            ParseErrorKind::UnconsumedTrailingContent
        };
        return Err(Stop { kind, rest: at_close });
    };
    let (rest, trail) = spaces(after_close);
    Ok(
        (
            rest,
            Node {
                category: Token {
                    prefix: category_prefix.to_owned(),
                    suffix: category_suffix.to_owned(),
                    value,
                },
                kind: Box::new(kind),
                x: 0,
                y: 0,
                whitespace: (lead.to_owned(), trail.to_owned()),
            },
        ),
    )
}

/// Reads the content of a node off the front of `input`: a label, or one or
/// two children.
fn content<'a>(input: &'a str, config: &ParserConfig, levels: usize) -> (res: Result<
    (&'a str, NodeKind),
    Stop<'a>,
>)
    ensures
        follows(res, spec_content(input@, config@, levels as nat)),
    decreases levels, 1nat,
{
    if let Some((after_label, label)) = word(input) {
        let (rest, suffix) = spaces(after_label);
        let label = Token {
            prefix: String::new(),
            suffix: suffix.to_owned(),
            value: label.to_owned(),
        };
        return Ok((rest, NodeKind::Leaf { label }));
    }
    if input.is_empty() {
        return Err(Stop { kind: ParseErrorKind::UnexpectedEndOfInput, rest: input });
    }
    if close_bracket(input).is_some() {
        return Err(Stop { kind: ParseErrorKind::EmptyToken, rest: input });
    }
    let (after_left, left) = match node(input, config, levels) {
        Ok(read) => read,
        Err(stop) => {
            return Err(stop);
        },
    };
    if open_bracket(after_left).is_none() {
        return Ok((after_left, NodeKind::Subtree { left, right: None }));
    }
    match node(after_left, config, levels) {
        Ok((rest, right)) => Ok((rest, NodeKind::Subtree { left, right: Some(right) })),
        Err(stop) => Err(stop),
    }
}

/// The failure of a parse of `length` characters that stopped at `stop`.
fn located(length: usize, stop: Stop<'_>) -> (error: ParseError)
    requires
        stop.rest@.len() <= length,
    ensures
        error.kind == stop.kind,
        error.position + stop.rest@.len() == length,
{
    ParseError { kind: stop.kind, position: length - stop.rest.unicode_len() }
}

impl ParserConfig {
    /// Every token is a category.
    pub fn free_form() -> (config: ParserConfig)
        ensures
            config@ == free_form(),
    {
        let config = ParserConfig { strict: false, vocabulary: Vec::new() };
        assert(config.vocabulary.deep_view() =~= Seq::<Seq<char>>::empty());
        assert(config@.vocabulary =~= Set::<Seq<char>>::empty());
        config
    }

    /// Only the tokens of `vocabulary` are categories.
    pub fn with_vocabulary(vocabulary: Vec<String>) -> (config: ParserConfig)
        ensures
            config@ == (Rules { strict: true, vocabulary: vocabulary.deep_view().to_set() }),
    {
        ParserConfig { strict: true, vocabulary }
    }

    /// Only the standard categories are categories.
    pub fn standard() -> (config: ParserConfig)
        ensures
            config@ == (Rules { strict: true, vocabulary: standard_categories().to_set() }),
    {
        let mut vocabulary: Vec<String> = Vec::new();
        vocabulary.push("S".to_owned());
        vocabulary.push("NP".to_owned());
        vocabulary.push("VP".to_owned());
        vocabulary.push("PP".to_owned());
        vocabulary.push("CP".to_owned());
        vocabulary.push("N".to_owned());
        vocabulary.push("V".to_owned());
        vocabulary.push("P".to_owned());
        vocabulary.push("C".to_owned());
        vocabulary.push("Det".to_owned());
        vocabulary.push("Adj".to_owned());
        assert(vocabulary.deep_view() =~= standard_categories());
        ParserConfig { strict: true, vocabulary }
    }
}

/// Reads one node off the front of `input`, under the rules of `config`.
/// The node has no layout yet.
pub fn parse_node_with<'a>(input: &'a str, config: &ParserConfig) -> (res: Result<
    (&'a str, Node),
    ParseError,
>)
    ensures
        agrees(res, spec_node(input@, config@, MAX_DEPTH as nat), input@),
{
    match node(input, config, MAX_DEPTH) {
        Ok(read) => Ok(read),
        Err(stop) => {
            proof {
                lemma_node_stops_inside(input@, config@, MAX_DEPTH as nat);
            }
            Err(located(input.unicode_len(), stop))
        },
    }
}

/// Reads one node off the front of `input`, with every token a category.
/// The node has no layout yet.
pub fn parse_node<'a>(input: &'a str) -> (res: Result<(&'a str, Node), ParseError>)
    ensures
        agrees(res, spec_node(input@, free_form(), MAX_DEPTH as nat), input@),
{
    parse_node_with(input, &ParserConfig::free_form())
}

/// Reads one tree off the front of `input`, under the rules of `config`, and
/// lays it out.
pub fn parse_syntax_tree_with<'a>(input: &'a str, config: &ParserConfig) -> (res: Result<
    (&'a str, SyntaxTree),
    ParseError,
>)
    ensures
        agrees(res, spec_tree(input@, config@), input@),
{
    let length = input.unicode_len();
    match node(input, config, MAX_DEPTH) {
        Ok((rest, root)) => {
            proof {
                lemma_node_fits(input@, config@, MAX_DEPTH as nat);
            }
            Ok((rest, SyntaxTree::new(root)))
        },
        Err(stop) => {
            proof {
                lemma_node_stops_inside(input@, config@, MAX_DEPTH as nat);
            }
            Err(located(length, stop))
        },
    }
}

/// Reads one tree off the front of `input`, with every token a category,
/// and lays it out.
pub fn parse_syntax_tree<'a>(input: &'a str) -> (res: Result<(&'a str, SyntaxTree), ParseError>)
    ensures
        agrees(res, spec_tree(input@, free_form()), input@),
{
    parse_syntax_tree_with(input, &ParserConfig::free_form())
}

} // verus!
