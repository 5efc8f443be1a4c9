//! Lexical primitives: runs of whitespace, runs of token characters and
//! literal prefixes, read with `nom` and described over sequences of
//! characters.

use vstd::prelude::*;

verus! {

/// Whether `c` is one of the four whitespace characters of the notation.
pub open spec fn is_space(c: char) -> bool {
    c == ' ' || c == '\t' || c == '\r' || c == '\n'
}

/// The length of the longest prefix of `s` that is all whitespace.
pub open spec fn space_run(s: Seq<char>) -> nat
    decreases s.len(),
{
    if s.len() > 0 && is_space(s[0]) {
        1 + space_run(s.skip(1))
    } else {
        0
    }
}

/// The length of the longest prefix of `s` that holds no character of `stops`.
pub open spec fn run_until(s: Seq<char>, stops: Seq<char>) -> nat
    decreases s.len(),
{
    if s.len() > 0 && !stops.contains(s[0]) {
        1 + run_until(s.skip(1), stops)
    } else {
        0
    }
}

/// Whether `s` is all whitespace.
pub open spec fn is_blank(s: Seq<char>) -> bool {
    forall|i: int| 0 <= i < s.len() ==> is_space(#[trigger] s[i])
}

/// Whether `s` holds no character of `stops`.
pub open spec fn is_free_of(s: Seq<char>, stops: Seq<char>) -> bool {
    forall|i: int| 0 <= i < s.len() ==> !stops.contains(#[trigger] s[i])
}

/// `nom::character::complete::multispace0` on a `&str`.
///
/// Trusted: the call always succeeds, and splits the input after its longest
/// prefix of spaces, tabs, carriage returns and line feeds. The result is
/// `(rest, spaces)`.
#[verifier::external_body]
pub(crate) fn multispace0<'a>(input: &'a str) -> (res: Option<(&'a str, &'a str)>)
    ensures
        match res {
            Some((rest, spaces)) => spaces@ == input@.take(space_run(input@) as int) && rest@
                == input@.skip(space_run(input@) as int),
            None => false,
        },
{
    nom::character::complete::multispace0::<&'a str, nom::error::Error<&'a str>>(input).ok()
}

/// `nom::bytes::complete::is_not` on a `&str`, with the characters of `stops`
/// as the set to stop at.
///
/// Trusted: the call splits the input after its longest prefix free of the
/// characters of `stops`, and fails exactly when that prefix is empty. The
/// result is `(rest, run)`.
#[verifier::external_body]
pub(crate) fn is_not<'a>(stops: &str, input: &'a str) -> (res: Option<(&'a str, &'a str)>)
    ensures
        match res {
            Some((rest, run)) => run_until(input@, stops@) > 0 && run@ == input@.take(
                run_until(input@, stops@) as int,
            ) && rest@ == input@.skip(run_until(input@, stops@) as int),
            None => run_until(input@, stops@) == 0,
        },
{
    nom::bytes::complete::is_not::<&str, &'a str, nom::error::Error<&'a str>>(stops)(input).ok()
}

/// `nom::bytes::complete::tag` on a `&str`.
///
/// Trusted: the call succeeds exactly when the input starts with `pattern`,
/// and then splits the input after it. The result is `(rest, matched)`.
#[verifier::external_body]
pub(crate) fn tag<'a>(pattern: &str, input: &'a str) -> (res: Option<(&'a str, &'a str)>)
    ensures
        match res {
            Some((rest, matched)) => pattern@.is_prefix_of(input@) && matched@ == pattern@
                && rest@ == input@.skip(pattern@.len() as int),
            None => !pattern@.is_prefix_of(input@),
        },
{
    nom::bytes::complete::tag::<&str, &'a str, nom::error::Error<&'a str>>(pattern)(input).ok()
}

/// A run of whitespace never outgrows its sequence, holds only whitespace,
/// and ends at the end or before a character that is no whitespace.
pub proof fn lemma_space_run(s: Seq<char>)
    ensures
        space_run(s) <= s.len(),
        forall|i: int| 0 <= i < space_run(s) ==> is_space(#[trigger] s[i]),
        space_run(s) < s.len() ==> !is_space(s[space_run(s) as int]),
    decreases s.len(),
{
    if s.len() > 0 && is_space(s[0]) {
        let t = s.skip(1);
        lemma_space_run(t);
        assert forall|i: int| 0 <= i < space_run(s) implies is_space(#[trigger] s[i]) by {
            if i > 0 {
                assert(s[i] == t[i - 1]);
            }
        }
        if space_run(s) < s.len() {
            assert(s[space_run(s) as int] == t[space_run(t) as int]);
        }
    }
}

/// A run up to `stops` never outgrows its sequence, holds no character of
/// `stops`, and ends at the end or before a character of `stops`.
pub proof fn lemma_run_until(s: Seq<char>, stops: Seq<char>)
    ensures
        run_until(s, stops) <= s.len(),
        forall|i: int| 0 <= i < run_until(s, stops) ==> !stops.contains(#[trigger] s[i]),
        run_until(s, stops) < s.len() ==> stops.contains(s[run_until(s, stops) as int]),
    decreases s.len(),
{
    if s.len() > 0 && !stops.contains(s[0]) {
        let t = s.skip(1);
        lemma_run_until(t, stops);
        assert forall|i: int| 0 <= i < run_until(s, stops) implies !stops.contains(
            #[trigger] s[i],
        ) by {
            if i > 0 {
                assert(s[i] == t[i - 1]);
            }
        }
        if run_until(s, stops) < s.len() {
            assert(s[run_until(s, stops) as int] == t[run_until(t, stops) as int]);
        }
    }
}

/// Whitespace in front of what starts with no whitespace is the run of
/// whitespace of the whole.
pub proof fn lemma_space_run_of_blank(blank: Seq<char>, tail: Seq<char>)
    requires
        is_blank(blank),
        tail.len() == 0 || !is_space(tail[0]),
    ensures
        space_run(blank + tail) == blank.len(),
    decreases blank.len(),
{
    if blank.len() > 0 {
        assert(is_space(blank[0]));
        assert forall|i: int| 0 <= i < blank.skip(1).len() implies is_space(
            #[trigger] blank.skip(1)[i],
        ) by {
            assert(blank.skip(1)[i] == blank[i + 1]);
        }
        lemma_space_run_of_blank(blank.skip(1), tail);
        assert((blank + tail).skip(1) =~= blank.skip(1) + tail);
    } else {
        assert(blank + tail =~= tail);
    }
}

/// Characters free of `stops` in front of what starts with one of `stops`
/// are the run up to `stops` of the whole.
pub proof fn lemma_run_until_of_free(free: Seq<char>, stops: Seq<char>, tail: Seq<char>)
    requires
        is_free_of(free, stops),
        tail.len() == 0 || stops.contains(tail[0]),
    ensures
        run_until(free + tail, stops) == free.len(),
    decreases free.len(),
{
    if free.len() > 0 {
        assert(!stops.contains(free[0]));
        assert forall|i: int| 0 <= i < free.skip(1).len() implies !stops.contains(
            #[trigger] free.skip(1)[i],
        ) by {
            assert(free.skip(1)[i] == free[i + 1]);
        }
        lemma_run_until_of_free(free.skip(1), stops, tail);
        assert((free + tail).skip(1) =~= free.skip(1) + tail);
    } else {
        assert(free + tail =~= tail);
    }
}

/// Cutting a sequence off behind its run of whitespace leaves the run as
/// long as it was.
pub proof fn lemma_space_run_cut(s: Seq<char>, len: int)
    requires
        space_run(s) <= len <= s.len(),
    ensures
        space_run(s.take(len)) == space_run(s),
    decreases s.len(),
{
    if s.len() > 0 && is_space(s[0]) {
        lemma_space_run_cut(s.skip(1), len - 1);
        assert(s.take(len).skip(1) =~= s.skip(1).take(len - 1));
    }
}

/// Cutting a sequence off behind its run up to `stops` leaves the run as
/// long as it was.
pub proof fn lemma_run_until_cut(s: Seq<char>, stops: Seq<char>, len: int)
    requires
        run_until(s, stops) <= len <= s.len(),
    ensures
        run_until(s.take(len), stops) == run_until(s, stops),
    decreases s.len(),
{
    if s.len() > 0 && !stops.contains(s[0]) {
        lemma_run_until_cut(s.skip(1), stops, len - 1);
        assert(s.take(len).skip(1) =~= s.skip(1).take(len - 1));
    }
}

} // verus!
