//! The grammar of the markup, as functions from the text to what is read
//! from it.
//!
//! ```text
//! sp              =  { " " | TAB | CR | LF }
//! attribute_value =  '"' { any but '"' } '"'  |  "'" { any but "'" } "'"
//! attribute       =  name "=" attribute_value      (name: any but " " and "=", one or more)
//! attribute_hash  =  sp { attribute sp }           (then ">", "/>" or the end of the text)
//! element_start   =  "<" sp tag                    (tag: letters and digits, one or more)
//! single_element  =  element_start attribute_hash "/>"
//! double_element  =  element_start attribute_hash ">" element_list { any but ">" } ">"
//! element         =  sp ( double_element | single_element ) sp
//! element_list    =  { element }
//! ```
//!
//! Each rule is a function of the text in front of it. It gives what is left
//! of the text together with what was read, or the failure. Alternatives are
//! tried in order and repetitions take all they can, so a text is read in one
//! way only.
//!
//! The grammar is lenient by design. The closing tag of an element is
//! whatever stands before the next `>`: its name is not compared with the
//! opening tag, and text between the tags is passed over with it. Values are
//! taken as they are, without escapes.

use vstd::prelude::*;
use crate::ast::ElementView;
use crate::attributes::map_of;
use crate::classes::{
    after_run, is_tail_of, lemma_after_run_is_tail, lemma_run_len_bound, lemma_skip_is_tail,
    lemma_tail_of_tail, lemma_tail_whole, run, CharClass,
};

verus! {

/// The named rules of the grammar. A failure carries the innermost of them
/// that could not go on.
#[derive(Debug, Clone, Copy, PartialEq, Eq)]
pub enum Rule {
    /// The attributes of a tag: a value without quotes or without its closing
    /// quote, a name without `=`, or a list that does not run up to the end
    /// of the tag.
    AttributeHash,
    /// The beginning of a tag: no `<`, or no tag name behind it.
    ElementStart,
    /// A tag that should close itself and has no `/>`.
    SingleElement,
    /// An opening tag without `>`, or an element without the `>` of its
    /// closing tag.
    DoubleElement,
    /// One element in either form. The rule only chooses between the two
    /// forms, so a failure inside it is named after one of these.
    Element,
    /// A list of elements. The rule only repeats `Element`, so a failure
    /// inside it is named after an inner rule too.
    ElementList,
}

impl Rule {
    /// The name of the rule, as it is written in messages.
    pub fn label(self) -> (name: &'static str)
        ensures
            name@ == match self {
                Rule::AttributeHash => "attribute_hash"@,
                Rule::ElementStart => "element_start"@,
                Rule::SingleElement => "single_element"@,
                Rule::DoubleElement => "double_element"@,
                Rule::Element => "element"@,
                Rule::ElementList => "element_list"@,
            },
    {
        match self {
            Rule::AttributeHash => "attribute_hash",
            Rule::ElementStart => "element_start",
            Rule::SingleElement => "single_element",
            Rule::DoubleElement => "double_element",
            Rule::Element => "element",
            Rule::ElementList => "element_list",
        }
    }
}

/// A failure to read: the innermost named rule that could not go on, the
/// text in front of which it stood, and whether the failure is final.
///
/// A failure that is not `committed` says that the rule does not apply here:
/// an alternative may be tried, and a repetition ends in front of it. A
/// `committed` failure arises inside an element that has begun, in its
/// attributes or behind the `>` of its opening tag: no alternative is tried,
/// and the whole text fails with it.
pub struct Failure {
    pub rule: Rule,
    pub remaining: Seq<char>,
    pub committed: bool,
}

/// What a rule gives: what is left of the text and what was read, or the
/// failure.
pub type Outcome<T> = Result<(Seq<char>, T), Failure>;

/// Whether `s` begins with `/>`.
pub open spec fn at_slash_close(s: Seq<char>) -> bool {
    s.len() >= 2 && s[0] == '/' && s[1] == '>'
}

/// Whether `s` begins with `>`.
pub open spec fn at_close(s: Seq<char>) -> bool {
    s.len() >= 1 && s[0] == '>'
}

/// The text behind its leading whitespace.
pub open spec fn sp(s: Seq<char>) -> Seq<char> {
    after_run(s, CharClass::Whitespace)
}

/// A value: a quote, the characters up to the next quote of the same kind,
/// and that quote. The value is what stands between the two, as it is.
pub open spec fn attribute_value(s: Seq<char>) -> Outcome<Seq<char>> {
    if s.len() > 0 && (s[0] == '"' || s[0] == '\'') {
        let inside = s.drop_first();
        let behind = after_run(inside, CharClass::Except(s[0]));
        if behind.len() > 0 {
            Ok((behind.drop_first(), run(inside, CharClass::Except(s[0]))))
        } else {
            Err(Failure { rule: Rule::AttributeHash, remaining: inside, committed: false })
        }
    } else {
        Err(Failure { rule: Rule::AttributeHash, remaining: s, committed: false })
    }
}

/// An attribute: a name, `=`, and a value.
pub open spec fn attribute(s: Seq<char>) -> Outcome<(Seq<char>, Seq<char>)> {
    let name = run(s, CharClass::Name);
    let behind = after_run(s, CharClass::Name);
    if name.len() == 0 {
        Err(Failure { rule: Rule::AttributeHash, remaining: s, committed: false })
    } else if behind.len() > 0 && behind[0] == '=' {
        match attribute_value(behind.drop_first()) {
            Ok((rest, value)) => Ok((rest, (name, value))),
            Err(failure) => Err(failure),
        }
    } else {
        Err(Failure { rule: Rule::AttributeHash, remaining: behind, committed: false })
    }
}

/// The attributes that stand at the front of `s`, each with the whitespace
/// behind it, as many as there are.
pub open spec fn attribute_list(s: Seq<char>) -> (Seq<char>, Seq<(Seq<char>, Seq<char>)>)
    decreases s.len(),
    via attribute_list_decreases
{
    match attribute(s) {
        Ok((rest, pair)) => {
            let (end, more) = attribute_list(sp(rest));
            (end, seq![pair] + more)
        },
        Err(_) => (s, Seq::empty()),
    }
}

#[via_fn]
proof fn attribute_list_decreases(s: Seq<char>) {
    lemma_attribute_shrinks(s);
    if let Ok((rest, _)) = attribute(s) {
        lemma_sp_shrinks(rest);
    }
}

/// The attributes of a tag: whitespace, and attributes with whitespace
/// behind each. The list has to run up to the end of the tag: where
/// something else than `>`, `/>` or the end of the text follows it, the list
/// is malformed and the failure is committed. A name that occurs twice has
/// the value of its last occurrence.
pub open spec fn attribute_hash(s: Seq<char>) -> Outcome<Map<Seq<char>, Seq<char>>> {
    let (rest, pairs) = attribute_list(sp(s));
    if rest.len() == 0 || at_close(rest) || at_slash_close(rest) {
        Ok((rest, map_of(pairs)))
    } else {
        Err(Failure { rule: Rule::AttributeHash, remaining: rest, committed: true })
    }
}

/// The head of a tag: `<`, whitespace, and a tag name of letters and digits.
pub open spec fn element_start(s: Seq<char>) -> Outcome<Seq<char>> {
    if s.len() > 0 && s[0] == '<' {
        let inside = sp(s.drop_first());
        let tag = run(inside, CharClass::Alphanumeric);
        if tag.len() > 0 {
            Ok((after_run(inside, CharClass::Alphanumeric), tag))
        } else {
            Err(Failure { rule: Rule::ElementStart, remaining: inside, committed: false })
        }
    } else {
        Err(Failure { rule: Rule::ElementStart, remaining: s, committed: false })
    }
}

/// An element that is one tag: the head, the attributes and `/>`.
pub open spec fn single_element(s: Seq<char>) -> Outcome<ElementView> {
    match element_start(s) {
        Err(failure) => Err(failure),
        Ok((behind_tag, tag)) => match attribute_hash(behind_tag) {
            Err(failure) => Err(failure),
            Ok((rest, attributes)) => {
                if at_slash_close(rest) {
                    Ok((rest.skip(2), ElementView { tag, attributes, children: Seq::empty() }))
                } else {
                    Err(Failure { rule: Rule::SingleElement, remaining: rest, committed: false })
                }
            },
        },
    }
}

/// An element with a closing tag: the head, the attributes, `>`, the
/// elements inside, and the closing tag, which is whatever stands before the
/// next `>`: its name is not held against the tag. Behind the `>` of the
/// opening tag every failure is committed.
pub open spec fn double_element(s: Seq<char>) -> Outcome<ElementView>
    decreases s.len(), 0nat,
    via double_element_decreases
{
    match element_start(s) {
        Err(failure) => Err(failure),
        Ok((behind_tag, tag)) => match attribute_hash(behind_tag) {
            Err(failure) => Err(failure),
            Ok((rest, attributes)) => {
                if at_close(rest) {
                    match element_list(rest.drop_first()) {
                        Err(failure) => Err(failure),
                        Ok((closing, children)) => {
                            let end = after_run(closing, CharClass::Except('>'));
                            if end.len() > 0 {
                                Ok((end.drop_first(), ElementView { tag, attributes, children }))
                            } else {
                                Err(
                                    Failure {
                                        rule: Rule::DoubleElement,
                                        remaining: closing,
                                        committed: true,
                                    },
                                )
                            }
                        },
                    }
                } else {
                    Err(Failure { rule: Rule::DoubleElement, remaining: rest, committed: false })
                }
            },
        },
    }
}

#[via_fn]
proof fn double_element_decreases(s: Seq<char>) {
    lemma_element_start_shrinks(s);
    if let Ok((behind_tag, _)) = element_start(s) {
        lemma_attribute_hash_shrinks(behind_tag);
    }
}

/// An element in either form, with the whitespace around it. The form with
/// a closing tag is tried first, and the self-closing one where the first
/// fails without being committed.
pub open spec fn element(s: Seq<char>) -> Outcome<ElementView>
    decreases s.len(), 1nat,
    via element_decreases
{
    match double_element(sp(s)) {
        Ok((rest, tree)) => Ok((sp(rest), tree)),
        Err(failure) => {
            if failure.committed {
                Err(failure)
            } else {
                match single_element(sp(s)) {
                    Ok((rest, tree)) => Ok((sp(rest), tree)),
                    Err(failure) => Err(failure),
                }
            }
        },
    }
}

#[via_fn]
proof fn element_decreases(s: Seq<char>) {
    lemma_sp_shrinks(s);
}

/// Elements one behind the other, as many as there are. The list ends in
/// front of what begins no element; a failure that is committed fails the
/// list.
pub open spec fn element_list(s: Seq<char>) -> Outcome<Seq<ElementView>>
    decreases s.len(), 2nat,
{
    match element(s) {
        Ok((rest, tree)) => {
            // An element takes at least its `<`: the test is there for the
            // recursion to be well founded.
            if rest.len() < s.len() {
                match element_list(rest) {
                    Ok((end, more)) => Ok((end, seq![tree] + more)),
                    Err(failure) => Err(failure),
                }
            } else {
                Ok((rest, seq![tree]))
            }
        },
        Err(failure) => {
            if failure.committed {
                Err(failure)
            } else {
                Ok((s, Seq::empty()))
            }
        },
    }
}

/// The whole text is read as one element; what follows it is left over.
pub open spec fn parse(s: Seq<char>) -> Outcome<ElementView> {
    element(s)
}

/// Skipping whitespace makes the text no longer.
pub proof fn lemma_sp_shrinks(s: Seq<char>)
    ensures
        sp(s).len() <= s.len(),
{
    lemma_run_len_bound(s, CharClass::Whitespace);
}

/// A value takes its two quotes at least.
pub proof fn lemma_attribute_value_shrinks(s: Seq<char>)
    ensures
        attribute_value(s) matches Ok((rest, _)) ==> rest.len() + 2 <= s.len(),
{
    if s.len() > 0 {
        lemma_run_len_bound(s.drop_first(), CharClass::Except(s[0]));
    }
}

/// An attribute takes a name, `=` and two quotes at least.
pub proof fn lemma_attribute_shrinks(s: Seq<char>)
    ensures
        attribute(s) matches Ok((rest, _)) ==> rest.len() + 4 <= s.len(),
{
    lemma_run_len_bound(s, CharClass::Name);
    let behind = after_run(s, CharClass::Name);
    if behind.len() > 0 {
        lemma_attribute_value_shrinks(behind.drop_first());
    }
}

/// What is left behind the attributes is no longer than the text.
pub proof fn lemma_attribute_list_shrinks(s: Seq<char>)
    ensures
        attribute_list(s).0.len() <= s.len(),
    decreases s.len(),
{
    lemma_attribute_shrinks(s);
    if let Ok((rest, _)) = attribute(s) {
        lemma_sp_shrinks(rest);
        lemma_attribute_list_shrinks(sp(rest));
    }
}

/// What is left behind an attribute list is no longer than the text.
pub proof fn lemma_attribute_hash_shrinks(s: Seq<char>)
    ensures
        attribute_hash(s) matches Ok((rest, _)) ==> rest.len() <= s.len(),
{
    lemma_sp_shrinks(s);
    lemma_attribute_list_shrinks(sp(s));
}

/// The head of a tag takes `<` and one character of the name at least.
pub proof fn lemma_element_start_shrinks(s: Seq<char>)
    ensures
        element_start(s) matches Ok((rest, _)) ==> rest.len() + 2 <= s.len(),
{
    if s.len() > 0 {
        lemma_sp_shrinks(s.drop_first());
        lemma_run_len_bound(sp(s.drop_first()), CharClass::Alphanumeric);
    }
}

/// A self-closing element takes the four characters of the shortest tag at
/// least.
pub proof fn lemma_single_element_shrinks(s: Seq<char>)
    ensures
        single_element(s) matches Ok((rest, _)) ==> rest.len() + 4 <= s.len(),
{
    lemma_element_start_shrinks(s);
    if let Ok((behind_tag, _)) = element_start(s) {
        lemma_attribute_hash_shrinks(behind_tag);
    }
}

/// An element with a closing tag takes four characters at least.
pub proof fn lemma_double_element_shrinks(s: Seq<char>)
    ensures
        double_element(s) matches Ok((rest, _)) ==> rest.len() + 4 <= s.len(),
    decreases s.len(), 0nat,
{
    lemma_element_start_shrinks(s);
    if let Ok((behind_tag, _)) = element_start(s) {
        lemma_attribute_hash_shrinks(behind_tag);
        if let Ok((rest, _)) = attribute_hash(behind_tag) {
            if at_close(rest) {
                lemma_element_list_shrinks(rest.drop_first());
                if let Ok((closing, _)) = element_list(rest.drop_first()) {
                    lemma_run_len_bound(closing, CharClass::Except('>'));
                }
            }
        }
    }
}

/// An element takes at least the four characters of the shortest tag.
pub proof fn lemma_element_shrinks(s: Seq<char>)
    ensures
        element(s) matches Ok((rest, _)) ==> rest.len() + 4 <= s.len(),
    decreases s.len(), 1nat,
{
    lemma_sp_shrinks(s);
    lemma_double_element_shrinks(sp(s));
    lemma_single_element_shrinks(sp(s));
    if let Ok((rest, _)) = double_element(sp(s)) {
        lemma_sp_shrinks(rest);
    }
    if let Ok((rest, _)) = single_element(sp(s)) {
        lemma_sp_shrinks(rest);
    }
}

/// What is left behind a list of elements is no longer than the text.
pub proof fn lemma_element_list_shrinks(s: Seq<char>)
    ensures
        element_list(s) matches Ok((rest, _)) ==> rest.len() <= s.len(),
    decreases s.len(), 2nat,
{
    lemma_element_shrinks(s);
    if let Ok((rest, _)) = element(s) {
        lemma_element_list_shrinks(rest);
    }
}

/// The outcome of a list with the elements of `front` put before it.
pub open spec fn with_front<T>(front: Seq<T>, outcome: Outcome<Seq<T>>) -> Outcome<Seq<T>> {
    match outcome {
        Ok((rest, more)) => Ok((rest, front + more)),
        Err(failure) => Err(failure),
    }
}

/// The test in `element_list` never fails: a list that begins with an
/// element is that element in front of the list that stands behind it.
pub proof fn lemma_element_list_unfolds(s: Seq<char>)
    ensures
        element(s) matches Ok((rest, tree)) ==> element_list(s) == with_front(
            seq![tree],
            element_list(rest),
        ),
        element(s) matches Err(failure) ==> element_list(s) == (if failure.committed {
            Err::<(Seq<char>, Seq<ElementView>), _>(failure)
        } else {
            Ok((s, Seq::empty()))
        }),
{
    lemma_element_shrinks(s);
}

/// A self-closing element that was read has a tag that is not empty.
pub proof fn lemma_single_element_well_formed(s: Seq<char>)
    ensures
        single_element(s) matches Ok((_, tree)) ==> tree.well_formed(),
{
}

/// An element with a closing tag that was read is a tree in which no tag is
/// empty.
pub proof fn lemma_double_element_well_formed(s: Seq<char>)
    ensures
        double_element(s) matches Ok((_, tree)) ==> tree.well_formed(),
    decreases s.len(), 0nat,
{
    lemma_element_start_shrinks(s);
    if let Ok((behind_tag, _)) = element_start(s) {
        lemma_attribute_hash_shrinks(behind_tag);
        if let Ok((rest, _)) = attribute_hash(behind_tag) {
            if at_close(rest) {
                lemma_element_list_well_formed(rest.drop_first());
            }
        }
    }
}

/// What is read as an element is a tree in which no tag is empty.
pub proof fn lemma_element_well_formed(s: Seq<char>)
    ensures
        element(s) matches Ok((_, tree)) ==> tree.well_formed(),
    decreases s.len(), 1nat,
{
    lemma_sp_shrinks(s);
    lemma_double_element_well_formed(sp(s));
    lemma_single_element_well_formed(sp(s));
}

/// The elements of a list that was read are trees in which no tag is empty.
pub proof fn lemma_element_list_well_formed(s: Seq<char>)
    ensures
        element_list(s) matches Ok((_, list)) ==> forall|i: int|
            0 <= i < list.len() ==> (#[trigger] list[i]).well_formed(),
    decreases s.len(), 2nat,
{
    lemma_element_well_formed(s);
    if let Ok((rest, tree)) = element(s) {
        if rest.len() < s.len() {
            lemma_element_list_well_formed(rest);
        }
    }
}

/// Whether an outcome stays within the text: what is left, or the text in
/// front of which the rule failed, is an end of the text.
pub open spec fn within<T>(outcome: Outcome<T>, s: Seq<char>) -> bool {
    match outcome {
        Ok((rest, _)) => is_tail_of(rest, s),
        Err(failure) => is_tail_of(failure.remaining, s),
    }
}

/// An outcome within an end of the text is within the text.
pub proof fn lemma_within_tail<T>(outcome: Outcome<T>, tail: Seq<char>, s: Seq<char>)
    requires
        within(outcome, tail),
        is_tail_of(tail, s),
    ensures
        within(outcome, s),
{
    match outcome {
        Ok((rest, _)) => lemma_tail_of_tail(rest, tail, s),
        Err(failure) => lemma_tail_of_tail(failure.remaining, tail, s),
    }
}

/// A value is read within the text.
pub proof fn lemma_attribute_value_within(s: Seq<char>)
    ensures
        within(attribute_value(s), s),
{
    if s.len() > 0 {
        let inside = s.drop_first();
        let behind = after_run(inside, CharClass::Except(s[0]));
        lemma_skip_is_tail(s, 1);
        lemma_after_run_is_tail(inside, CharClass::Except(s[0]));
        lemma_tail_of_tail(behind, inside, s);
        if behind.len() > 0 {
            lemma_skip_is_tail(behind, 1);
            lemma_tail_of_tail(behind.drop_first(), behind, s);
        }
    }
    lemma_tail_whole(s);
}

/// An attribute is read within the text.
pub proof fn lemma_attribute_within(s: Seq<char>)
    ensures
        within(attribute(s), s),
{
    let behind = after_run(s, CharClass::Name);
    lemma_after_run_is_tail(s, CharClass::Name);
    lemma_tail_whole(s);
    if behind.len() > 0 {
        lemma_skip_is_tail(behind, 1);
        lemma_tail_of_tail(behind.drop_first(), behind, s);
        lemma_attribute_value_within(behind.drop_first());
        lemma_within_tail(attribute_value(behind.drop_first()), behind.drop_first(), s);
    }
}

/// What is left behind the attributes is an end of the text.
pub proof fn lemma_attribute_list_within(s: Seq<char>)
    ensures
        is_tail_of(attribute_list(s).0, s),
    decreases s.len(),
{
    lemma_attribute_shrinks(s);
    lemma_attribute_within(s);
    lemma_tail_whole(s);
    if let Ok((rest, _)) = attribute(s) {
        lemma_sp_shrinks(rest);
        lemma_after_run_is_tail(rest, CharClass::Whitespace);
        lemma_tail_of_tail(sp(rest), rest, s);
        lemma_attribute_list_within(sp(rest));
        lemma_tail_of_tail(attribute_list(sp(rest)).0, sp(rest), s);
    }
}

/// An attribute list is read within the text.
pub proof fn lemma_attribute_hash_within(s: Seq<char>)
    ensures
        within(attribute_hash(s), s),
{
    lemma_after_run_is_tail(s, CharClass::Whitespace);
    lemma_attribute_list_within(sp(s));
    lemma_tail_of_tail(attribute_list(sp(s)).0, sp(s), s);
}

/// The head of a tag is read within the text.
pub proof fn lemma_element_start_within(s: Seq<char>)
    ensures
        within(element_start(s), s),
{
    lemma_tail_whole(s);
    if s.len() > 0 {
        let inside = sp(s.drop_first());
        lemma_skip_is_tail(s, 1);
        lemma_after_run_is_tail(s.drop_first(), CharClass::Whitespace);
        lemma_tail_of_tail(inside, s.drop_first(), s);
        lemma_after_run_is_tail(inside, CharClass::Alphanumeric);
        lemma_tail_of_tail(after_run(inside, CharClass::Alphanumeric), inside, s);
    }
}

/// A self-closing element is read within the text.
pub proof fn lemma_single_element_within(s: Seq<char>)
    ensures
        within(single_element(s), s),
{
    lemma_element_start_within(s);
    if let Ok((behind_tag, _)) = element_start(s) {
        lemma_attribute_hash_within(behind_tag);
        lemma_within_tail(attribute_hash(behind_tag), behind_tag, s);
        if let Ok((rest, _)) = attribute_hash(behind_tag) {
            if at_slash_close(rest) {
                lemma_skip_is_tail(rest, 2);
                lemma_tail_of_tail(rest.skip(2), rest, s);
            }
        }
    }
}

/// An element with a closing tag is read within the text.
pub proof fn lemma_double_element_within(s: Seq<char>)
    ensures
        within(double_element(s), s),
    decreases s.len(), 0nat,
{
    lemma_element_start_within(s);
    lemma_element_start_shrinks(s);
    if let Ok((behind_tag, _)) = element_start(s) {
        lemma_attribute_hash_within(behind_tag);
        lemma_attribute_hash_shrinks(behind_tag);
        lemma_within_tail(attribute_hash(behind_tag), behind_tag, s);
        if let Ok((rest, _)) = attribute_hash(behind_tag) {
            if at_close(rest) {
                let inside = rest.drop_first();
                lemma_skip_is_tail(rest, 1);
                lemma_tail_of_tail(inside, rest, s);
                lemma_element_list_within(inside);
                lemma_within_tail(element_list(inside), inside, s);
                if let Ok((closing, _)) = element_list(inside) {
                    let end = after_run(closing, CharClass::Except('>'));
                    lemma_after_run_is_tail(closing, CharClass::Except('>'));
                    lemma_tail_of_tail(end, closing, s);
                    if end.len() > 0 {
                        lemma_skip_is_tail(end, 1);
                        lemma_tail_of_tail(end.drop_first(), end, s);
                    }
                }
            }
        }
    }
}

/// What is left behind an element, and the text in front of which reading
/// it failed, are ends of the text.
pub proof fn lemma_element_within(s: Seq<char>)
    ensures
        within(element(s), s),
    decreases s.len(), 1nat,
{
    let start = sp(s);
    lemma_sp_shrinks(s);
    lemma_after_run_is_tail(s, CharClass::Whitespace);
    lemma_double_element_within(start);
    lemma_single_element_within(start);
    lemma_within_tail(double_element(start), start, s);
    lemma_within_tail(single_element(start), start, s);
    if let Ok((rest, _)) = double_element(start) {
        lemma_after_run_is_tail(rest, CharClass::Whitespace);
        lemma_tail_of_tail(sp(rest), rest, s);
    }
    if let Ok((rest, _)) = single_element(start) {
        lemma_after_run_is_tail(rest, CharClass::Whitespace);
        lemma_tail_of_tail(sp(rest), rest, s);
    }
}

/// A list of elements is read within the text.
pub proof fn lemma_element_list_within(s: Seq<char>)
    ensures
        within(element_list(s), s),
    decreases s.len(), 2nat,
{
    lemma_element_within(s);
    lemma_tail_whole(s);
    if let Ok((rest, _)) = element(s) {
        if rest.len() < s.len() {
            lemma_element_list_within(rest);
            lemma_within_tail(element_list(rest), rest, s);
        }
    }
}

} // verus!
