//! What holds of the parser and the serializer on every input.

use vstd::prelude::*;
use crate::ast::{lemma_views_of, Element, ElementView};
use crate::attributes::{ascending, lemma_ascending_of_sorted, strictly_ascending};
use crate::classes::{
    blank, is_whitespace, lemma_run_splits, lemma_run_through, lemma_split_is_run, CharClass,
};
use crate::grammar;
use crate::grammar::Failure;
use crate::order::{lemma_lex_asymmetric, lex_lt};
use crate::stringify::{render, render_attribute, render_attributes, render_named};

verus! {

/// The attributes are written in ascending order of their names: whatever
/// list holds the names of a mapping, each once and each before the names
/// behind it, the attributes are written in the order of that list. The
/// text depends on the mapping alone, not on how it was filled.
pub proof fn law_attributes_in_name_order(
    attributes: Map<Seq<char>, Seq<char>>,
    names: Seq<Seq<char>>,
)
    requires
        strictly_ascending(names),
        names.to_set() == attributes.dom(),
    ensures
        render_attributes(attributes) == render_named(names, attributes),
{
    lemma_ascending_of_sorted(names);
}

/// Two attributes are written with the lesser name first, in whichever
/// order they were put into the mapping.
pub proof fn law_two_attributes_in_name_order(
    first: Seq<char>,
    first_value: Seq<char>,
    second: Seq<char>,
    second_value: Seq<char>,
)
    requires
        lex_lt(first, second),
    ensures
        map![first => first_value, second => second_value]
            == map![second => second_value, first => first_value],
        render_attributes(map![second => second_value, first => first_value]) == render_attribute(
            first,
            first_value,
        ) + render_attribute(second, second_value),
{
    lemma_lex_asymmetric(first, second);
    let one = map![first => first_value, second => second_value];
    let other = map![second => second_value, first => first_value];
    assert(one =~= other);
    let names = seq![first, second];
    assert(names.to_set() =~= other.dom()) by {
        assert(names[0] == first && names[1] == second);
    }
    law_attributes_in_name_order(other, names);
    assert(names.drop_last() =~= seq![first]);
    assert(seq![first].drop_last() =~= Seq::<Seq<char>>::empty());
    assert(render_named(seq![first], other) =~= render_attribute(first, first_value)) by {
        assert(render_named(Seq::<Seq<char>>::empty(), other) =~= Seq::<char>::empty());
    }
}

/// An element without children is written as one self-closing tag: `<`, the
/// tag, the attributes and `/>`, with nothing inside.
pub proof fn law_childless_is_self_closing(
    element: ElementView,
    depth: nat,
    tab: Seq<char>,
    line: Seq<char>,
)
    requires
        element.children.len() == 0,
    ensures
        render(element, 0, Seq::empty(), Seq::empty()) == seq!['<'] + element.tag
            + render_attributes(element.attributes) + seq!['/', '>'],
        render(element, depth, tab, line) == crate::stringify::indent(tab, depth) + render(
            element,
            0,
            Seq::empty(),
            Seq::empty(),
        ) + line,
{
    let compact = seq!['<'] + element.tag + render_attributes(element.attributes) + seq!['/', '>'];
    assert(render(element, 0, Seq::empty(), Seq::empty()) =~= compact);
    assert(render(element, depth, tab, line) =~= crate::stringify::indent(tab, depth) + compact
        + line);
}

/// Skipping whitespace twice skips no more than skipping it once.
pub proof fn law_skipping_whitespace_is_idempotent(text: Seq<char>)
    ensures
        grammar::sp(grammar::sp(text)) == grammar::sp(text),
{
    lemma_run_splits(text, CharClass::Whitespace);
    let skipped = grammar::sp(text);
    lemma_split_is_run(skipped, Seq::empty(), skipped, CharClass::Whitespace);
}

/// Whitespace in front of the text changes nothing of what is read.
pub proof fn law_leading_whitespace(space: Seq<char>, text: Seq<char>)
    requires
        blank(space),
    ensures
        grammar::parse(space + text) == grammar::parse(text),
{
    lemma_run_through(space, text, CharClass::Whitespace);
}

/// The whitespace behind the element is read with it: what is left of the
/// text does not begin with whitespace.
pub proof fn law_trailing_whitespace(text: Seq<char>)
    ensures
        grammar::parse(text) matches Ok((rest, _)) ==> rest.len() == 0 || !is_whitespace(rest[0]),
{
    if let Ok((rest, _)) = grammar::double_element(grammar::sp(text)) {
        lemma_run_splits(rest, CharClass::Whitespace);
    }
    if let Ok((rest, _)) = grammar::single_element(grammar::sp(text)) {
        lemma_run_splits(rest, CharClass::Whitespace);
    }
}

/// A value is read alike between two `"` and between two `'`: it is what
/// stands between the quotes, without them. The value may hold anything but
/// the quote that it stands between.
pub proof fn law_quote_kinds(quote: char, value: Seq<char>, rest: Seq<char>)
    requires
        quote == '"' || quote == '\'',
        forall|i: int| 0 <= i < value.len() ==> #[trigger] value[i] != quote,
    ensures
        grammar::attribute_value(seq![quote] + value + seq![quote] + rest) == Ok::<_, Failure>(
            (rest, value),
        ),
{
    let text = seq![quote] + value + seq![quote] + rest;
    let inside = text.drop_first();
    let behind = seq![quote] + rest;
    assert(inside =~= value + behind);
    lemma_split_is_run(inside, value, behind, CharClass::Except(quote));
    assert(behind.drop_first() =~= rest);
}

/// What is read is a tree in which no tag is empty.
pub proof fn law_parsed_tree_is_well_formed(text: Seq<char>)
    ensures
        grammar::parse(text) matches Ok((_, tree)) ==> tree.well_formed(),
{
    grammar::lemma_element_well_formed(text);
}

/// The elements of a list are read in the order of the text: the list that
/// begins with an element is that element, then the list behind it.
pub proof fn law_elements_in_text_order(text: Seq<char>)
    ensures
        grammar::element(text) matches Ok((rest, tree)) ==> grammar::element_list(text)
            == grammar::with_front(seq![tree], grammar::element_list(rest)),
{
    grammar::lemma_element_list_unfolds(text);
}

/// What is left of the text is an end of the text, and so is the text in
/// front of which reading failed: the place of a failure is the length of
/// the text less the length of what the failure holds.
pub proof fn law_outcome_within_text(text: Seq<char>)
    ensures
        grammar::within(grammar::parse(text), text),
        grammar::within(grammar::element_list(text), text),
        grammar::within(grammar::attribute_hash(text), text),
{
    grammar::lemma_element_within(text);
    grammar::lemma_element_list_within(text);
    grammar::lemma_attribute_hash_within(text);
}

/// Every element of a tree has finitely many attributes, so that the order
/// in which they are written is defined.
pub proof fn law_attributes_are_finite(element: Element)
    ensures
        element@.finite(),
    decreases element,
{
    element.attributes.lemma_finite();
    lemma_views_of(element.children@);
    assert forall|i: int| 0 <= i < element@.children.len() implies (
    #[trigger] element@.children[i]).finite() by {
        law_attributes_are_finite(element.children@[i]);
    }
}

} // verus!
