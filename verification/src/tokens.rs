//! The lexical primitives of the parser, taken from `nom`.
//!
//! Each function here hands one call to `nom` and states, over the
//! characters of the slices, what `nom` documents of it. The bodies are not
//! verified: the contracts are what the parser's proofs rest on.

use vstd::prelude::*;
use crate::classes::{is_alphanumeric, splits_at_run, CharClass};

verus! {

/// `nom::character::complete::multispace0`: splits `input` behind its longest
/// prefix of spaces, tabs, carriage returns and line feeds. The pair is
/// `nom`'s: what is left, then the run. On a string slice it never fails.
#[verifier::external_body]
pub(crate) fn multispace0<'a>(input: &'a str) -> (r: Option<(&'a str, &'a str)>)
    ensures
        match r {
            Some((rest, spaces)) => splits_at_run(input@, spaces@, rest@, CharClass::Whitespace),
            None => false,
        },
{
    match nom::character::complete::multispace0::<&str, nom::error::Error<&str>>(input) {
        Ok(split) => Some(split),
        Err(_) => None,
    }
}

/// `nom::character::complete::alphanumeric1`: splits `input` behind its
/// longest prefix of ASCII letters and digits, and fails when that prefix is
/// empty.
#[verifier::external_body]
pub(crate) fn alphanumeric1<'a>(input: &'a str) -> (r: Option<(&'a str, &'a str)>)
    ensures
        match r {
            Some((rest, word)) => word@.len() > 0 && splits_at_run(
                input@,
                word@,
                rest@,
                CharClass::Alphanumeric,
            ),
            None => input@.len() == 0 || !is_alphanumeric(input@[0]),
        },
{
    match nom::character::complete::alphanumeric1::<&str, nom::error::Error<&str>>(input) {
        Ok(split) => Some(split),
        Err(_) => None,
    }
}

/// `nom::bytes::complete::is_not`: splits `input` in front of the first
/// character that `excluded` holds, and fails when nothing stands in front
/// of it.
#[verifier::external_body]
pub(crate) fn is_not<'a>(input: &'a str, excluded: &str) -> (r: Option<(&'a str, &'a str)>)
    ensures
        match r {
            Some((rest, word)) => {
                &&& word@.len() > 0
                &&& input@ == word@ + rest@
                &&& forall|i: int| 0 <= i < word@.len() ==> !excluded@.contains(#[trigger] word@[i])
                &&& rest@.len() > 0 ==> excluded@.contains(rest@[0])
            },
            None => input@.len() == 0 || excluded@.contains(input@[0]),
        },
{
    match nom::bytes::complete::is_not::<&str, &str, nom::error::Error<&str>>(excluded)(input) {
        Ok(split) => Some(split),
        Err(_) => None,
    }
}

/// `nom::bytes::complete::tag`: what is left of `input` behind `pattern`,
/// where `input` begins with it.
#[verifier::external_body]
pub(crate) fn tag<'a>(input: &'a str, pattern: &str) -> (r: Option<&'a str>)
    ensures
        match r {
            Some(rest) => input@ == pattern@ + rest@,
            None => !pattern@.is_prefix_of(input@),
        },
{
    match nom::bytes::complete::tag::<&str, &str, nom::error::Error<&str>>(pattern)(input) {
        Ok((rest, _)) => Some(rest),
        Err(_) => None,
    }
}

/// `nom::character::complete::one_of`: the first character of `input` and
/// what is left behind it, where `list` holds that character.
#[verifier::external_body]
pub(crate) fn one_of<'a>(input: &'a str, list: &str) -> (r: Option<(&'a str, char)>)
    ensures
        match r {
            Some((rest, first)) => {
                &&& input@.len() > 0
                &&& first == input@[0]
                &&& list@.contains(first)
                &&& rest@ == input@.drop_first()
            },
            None => input@.len() == 0 || !list@.contains(input@[0]),
        },
{
    match nom::character::complete::one_of::<&str, &str, nom::error::Error<&str>>(list)(input) {
        Ok(split) => Some(split),
        Err(_) => None,
    }
}

/// `nom::bytes::complete::take_until`: splits `input` in front of the first
/// place at which `pattern` stands, and fails when it stands nowhere.
#[verifier::external_body]
pub(crate) fn take_until<'a>(input: &'a str, pattern: &str) -> (r: Option<(&'a str, &'a str)>)
    ensures
        match r {
            Some((rest, skipped)) => {
                &&& input@ == skipped@ + rest@
                &&& pattern@.is_prefix_of(rest@)
                &&& forall|i: int|
                    0 <= i < skipped@.len() ==> !pattern@.is_prefix_of(#[trigger] input@.skip(i))
            },
            None => forall|i: int|
                0 <= i <= input@.len() ==> !pattern@.is_prefix_of(#[trigger] input@.skip(i)),
        },
{
    match nom::bytes::complete::take_until::<&str, &str, nom::error::Error<&str>>(pattern)(input) {
        Ok(split) => Some(split),
        Err(_) => None,
    }
}

} // verus!
