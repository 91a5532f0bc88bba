//! Reading markup into a tree: one function for each rule of the grammar.
//!
//! Every function takes the text in front of it and gives what is left of
//! the text together with what it read, or the failure. The contract of each
//! says that this is what the rule of the same name in [`crate::grammar`]
//! gives on that text.

use vstd::prelude::*;
use crate::ast::{views_of, Element};
use crate::attributes::{map_of, Attributes};
use crate::classes::{after_run, lemma_run_splits, lemma_split_is_run, run, CharClass};
use crate::grammar;
use crate::grammar::{Failure, Rule};
use crate::tokens::{alphanumeric1, is_not, multispace0, one_of, tag, take_until};

verus! {

/// A failure to read, with the text in front of which the rule stood as a
/// slice of the input.
#[derive(Debug, PartialEq, Eq)]
pub struct ParseFailure<'a> {
    /// The innermost named rule that could not go on.
    pub rule: Rule,
    /// The text in front of which it stood.
    pub remaining: &'a str,
    /// Whether the failure is final: see [`Failure`].
    pub committed: bool,
}

impl<'a> View for ParseFailure<'a> {
    type V = Failure;

    open spec fn view(&self) -> Failure {
        Failure { rule: self.rule, remaining: self.remaining@, committed: self.committed }
    }
}

/// A pattern of one character stands at the front of a text exactly where
/// the text begins with that character.
proof fn lemma_prefix_of_one(pattern: Seq<char>, c: char, text: Seq<char>)
    requires
        pattern.len() == 1,
        pattern[0] == c,
    ensures
        pattern.is_prefix_of(text) <==> text.len() > 0 && text[0] == c,
{
    if text.len() > 0 && text[0] == c {
        assert(pattern =~= text.subrange(0, 1));
    }
    if pattern.is_prefix_of(text) {
        assert(text.subrange(0, 1)[0] == c);
    }
}

/// Skips whitespace: spaces, tabs, carriage returns and line feeds.
pub fn sp<'a>(i: &'a str) -> (rest: &'a str)
    ensures
        rest@ == grammar::sp(i@),
{
    match multispace0(i) {
        Some((rest, spaces)) => {
            proof {
                lemma_split_is_run(i@, spaces@, rest@, CharClass::Whitespace);
            }
            rest
        },
        // `multispace0` takes a run that may be empty, so it does not fail.
        None => i,
    }
}

/// Reads a text between two `"` or between two `'`.
pub fn attribute_value<'a>(input: &'a str) -> (r: Result<(&'a str, &'a str), ParseFailure<'a>>)
    ensures
        match r {
            Ok((rest, value)) => grammar::attribute_value(input@) == Ok::<_, Failure>(
                (rest@, value@),
            ),
            Err(failure) => grammar::attribute_value(input@) == Err::<(Seq<char>, Seq<char>), _>(
                failure@,
            ),
        },
{
    let mark = "\"'";
    proof {
        reveal_strlit("\"'");
        reveal_strlit("\"");
        reveal_strlit("'");
        assert(mark@ =~= seq!['"', '\'']);
        assert(mark@[0] == '"' && mark@[1] == '\'');
    }
    match one_of(input, mark) {
        None => Err(ParseFailure { rule: Rule::AttributeHash, remaining: input, committed: false }),
        Some((inside, quote)) => {
            let stop = if quote == '"' {
                "\""
            } else {
                "'"
            };
            let ghost class = CharClass::Except(quote);
            assert(stop@ =~= seq![quote]);
            match take_until(inside, stop) {
                None => {
                    proof {
                        lemma_run_splits(inside@, class);
                        let behind = after_run(inside@, class);
                        if behind.len() > 0 {
                            let at = run(inside@, class).len() as int;
                            assert(inside@.skip(at) =~= behind);
                            lemma_prefix_of_one(stop@, quote, inside@.skip(at));
                        }
                    }
                    Err(
                        ParseFailure {
                            rule: Rule::AttributeHash,
                            remaining: inside,
                            committed: false,
                        },
                    )
                },
                Some((behind, value)) => {
                    proof {
                        lemma_prefix_of_one(stop@, quote, behind@);
                        assert forall|i: int| 0 <= i < value@.len() implies class.holds(
                            #[trigger] value@[i],
                        ) by {
                            lemma_prefix_of_one(stop@, quote, inside@.skip(i));
                        }
                        lemma_split_is_run(inside@, value@, behind@, class);
                    }
                    match tag(behind, stop) {
                        Some(rest) => {
                            assert(rest@ =~= behind@.drop_first());
                            Ok((rest, value))
                        },
                        // The quote stands where `take_until` stopped.
                        None => Err(
                            ParseFailure {
                                rule: Rule::AttributeHash,
                                remaining: inside,
                                committed: false,
                            },
                        ),
                    }
                },
            }
        },
    }
}

/// Reads a name, `=` and a value: `width="100"` gives `("width", "100")`.
pub fn attribute<'a>(input: &'a str) -> (r: Result<
    (&'a str, (&'a str, &'a str)),
    ParseFailure<'a>,
>)
    ensures
        match r {
            Ok((rest, pair)) => grammar::attribute(input@) == Ok::<_, Failure>(
                (rest@, (pair.0@, pair.1@)),
            ),
            Err(failure) => grammar::attribute(input@) == Err::<
                (Seq<char>, (Seq<char>, Seq<char>)),
                _,
            >(failure@),
        },
{
    let excluded = " =";
    proof {
        reveal_strlit(" =");
        reveal_strlit("=");
        assert(excluded@[0] == ' ' && excluded@[1] == '=');
        assert forall|c: char| excluded@.contains(c) <==> !CharClass::Name.holds(c) by {}
        assert("="@ =~= seq!['=']);
    }
    match is_not(input, excluded) {
        None => {
            Err(ParseFailure { rule: Rule::AttributeHash, remaining: input, committed: false })
        },
        Some((behind, name)) => {
            proof {
                lemma_split_is_run(input@, name@, behind@, CharClass::Name);
                lemma_prefix_of_one("="@, '=', behind@);
            }
            match tag(behind, "=") {
                None => Err(
                    ParseFailure { rule: Rule::AttributeHash, remaining: behind, committed: false },
                ),
                Some(after_sign) => {
                    assert(after_sign@ =~= behind@.drop_first());
                    match attribute_value(after_sign) {
                        Ok((rest, value)) => Ok((rest, (name, value))),
                        Err(failure) => Err(failure),
                    }
                },
            }
        },
    }
}

/// Reads the attributes of a tag into a mapping: `width="100" height="200"`
/// gives `width` the value `100` and `height` the value `200`. What follows
/// the list has to be the end of the tag or of the text.
pub fn attribute_hash<'a>(input: &'a str) -> (r: Result<
    (&'a str, Attributes<'a>),
    ParseFailure<'a>,
>)
    ensures
        match r {
            Ok((rest, attributes)) => grammar::attribute_hash(input@) == Ok::<_, Failure>(
                (rest@, attributes@),
            ),
            Err(failure) => grammar::attribute_hash(input@) == Err::<
                (Seq<char>, Map<Seq<char>, Seq<char>>),
                _,
            >(failure@),
        },
{
    let start = sp(input);
    let mut rest = start;
    let mut attributes = Attributes::new();
    let ghost mut read: Seq<(Seq<char>, Seq<char>)> = Seq::empty();
    proof {
        assert(read + grammar::attribute_list(rest@).1 =~= grammar::attribute_list(rest@).1);
    }
    loop
        invariant
            attributes@ == map_of(read),
            grammar::attribute_list(start@).0 == grammar::attribute_list(rest@).0,
            grammar::attribute_list(start@).1 == read + grammar::attribute_list(rest@).1,
        ensures
            attributes@ == map_of(grammar::attribute_list(start@).1),
            rest@ == grammar::attribute_list(start@).0,
        decreases rest@.len(),
    {
        match attribute(rest) {
            Ok((behind, (name, value))) => {
                proof {
                    grammar::lemma_attribute_shrinks(rest@);
                    grammar::lemma_sp_shrinks(behind@);
                    let next = grammar::attribute_list(grammar::sp(behind@));
                    assert(read.push((name@, value@)).drop_last() =~= read);
                    assert(read + (seq![(name@, value@)] + next.1) =~= read.push((name@, value@))
                        + next.1);
                    read = read.push((name@, value@));
                }
                attributes.insert(name.to_owned(), value);
                rest = sp(behind);
            },
            Err(_) => {
                proof {
                    assert(read + Seq::<(Seq<char>, Seq<char>)>::empty() =~= read);
                }
                break ;
            },
        }
    }
    proof {
        reveal_strlit(">");
        reveal_strlit("/>");
        lemma_prefix_of_one(">"@, '>', rest@);
        if "/>"@.is_prefix_of(rest@) {
            assert(rest@.subrange(0, 2)[0] == '/' && rest@.subrange(0, 2)[1] == '>');
        }
        if grammar::at_slash_close(rest@) {
            assert("/>"@ =~= rest@.subrange(0, 2));
        }
    }
    if rest.is_empty() || tag(rest, ">").is_some() || tag(rest, "/>").is_some() {
        Ok((rest, attributes))
    } else {
        Err(ParseFailure { rule: Rule::AttributeHash, remaining: rest, committed: true })
    }
}

/// Reads the beginning of a tag: `<svg` gives `svg`.
pub fn element_start<'a>(input: &'a str) -> (r: Result<(&'a str, &'a str), ParseFailure<'a>>)
    ensures
        match r {
            Ok((rest, name)) => grammar::element_start(input@) == Ok::<_, Failure>(
                (rest@, name@),
            ),
            Err(failure) => grammar::element_start(input@) == Err::<(Seq<char>, Seq<char>), _>(
                failure@,
            ),
        },
{
    proof {
        reveal_strlit("<");
        lemma_prefix_of_one("<"@, '<', input@);
    }
    match tag(input, "<") {
        None => Err(ParseFailure { rule: Rule::ElementStart, remaining: input, committed: false }),
        Some(behind) => {
            assert(behind@ =~= input@.drop_first());
            let inside = sp(behind);
            match alphanumeric1(inside) {
                Some((rest, name)) => {
                    proof {
                        lemma_split_is_run(inside@, name@, rest@, CharClass::Alphanumeric);
                    }
                    Ok((rest, name))
                },
                None => Err(
                    ParseFailure { rule: Rule::ElementStart, remaining: inside, committed: false },
                ),
            }
        },
    }
}

/// Reads an element that is one tag: `<rect width="100"/>`.
pub fn single_element<'a>(input: &'a str) -> (r: Result<(&'a str, Element<'a>), ParseFailure<'a>>)
    ensures
        match r {
            Ok((rest, tree)) => {
                &&& grammar::single_element(input@) == Ok::<_, Failure>((rest@, tree@))
                &&& tree@.well_formed()
            },
            Err(failure) => grammar::single_element(input@) == Err::<
                (Seq<char>, crate::ast::ElementView),
                _,
            >(failure@),
        },
{
    let (behind_tag, ele_type) = match element_start(input) {
        Ok(head) => head,
        Err(failure) => {
            return Err(failure);
        },
    };
    let (rest, attributes) = match attribute_hash(behind_tag) {
        Ok(list) => list,
        Err(failure) => {
            return Err(failure);
        },
    };
    proof {
        reveal_strlit("/>");
        if "/>"@.is_prefix_of(rest@) {
            assert(rest@.subrange(0, 2)[0] == '/' && rest@.subrange(0, 2)[1] == '>');
        }
        if grammar::at_slash_close(rest@) {
            assert("/>"@ =~= rest@.subrange(0, 2));
        }
    }
    match tag(rest, "/>") {
        Some(end) => {
            assert(end@ =~= rest@.skip(2));
            proof {
                grammar::lemma_single_element_well_formed(input@);
            }
            Ok((end, Element::new((ele_type, attributes))))
        },
        None => Err(ParseFailure { rule: Rule::SingleElement, remaining: rest, committed: false }),
    }
}

/// Reads an element with an opening and a closing tag and the elements
/// between them: `<g><rect width="100"/></g>`.
pub fn double_element<'a>(input: &'a str) -> (r: Result<(&'a str, Element<'a>), ParseFailure<'a>>)
    ensures
        match r {
            Ok((rest, tree)) => {
                &&& grammar::double_element(input@) == Ok::<_, Failure>((rest@, tree@))
                &&& tree@.well_formed()
            },
            Err(failure) => grammar::double_element(input@) == Err::<
                (Seq<char>, crate::ast::ElementView),
                _,
            >(failure@),
        },
    decreases input@.len(), 0nat,
{
    let (behind_tag, ele_type) = match element_start(input) {
        Ok(head) => head,
        Err(failure) => {
            return Err(failure);
        },
    };
    let (rest, attributes) = match attribute_hash(behind_tag) {
        Ok(list) => list,
        Err(failure) => {
            return Err(failure);
        },
    };
    proof {
        grammar::lemma_double_element_well_formed(input@);
        reveal_strlit(">");
        lemma_prefix_of_one(">"@, '>', rest@);
        grammar::lemma_element_start_shrinks(input@);
        grammar::lemma_attribute_hash_shrinks(behind_tag@);
    }
    let inside = match tag(rest, ">") {
        Some(inside) => inside,
        None => {
            return Err(
                ParseFailure { rule: Rule::DoubleElement, remaining: rest, committed: false },
            );
        },
    };
    assert(inside@ =~= rest@.drop_first());
    let (closing, children) = match element_list(inside) {
        Ok(list) => list,
        Err(failure) => {
            return Err(failure);
        },
    };
    let ghost class = CharClass::Except('>');
    match take_until(closing, ">") {
        None => {
            proof {
                lemma_run_splits(closing@, class);
                let end = after_run(closing@, class);
                if end.len() > 0 {
                    let at = run(closing@, class).len() as int;
                    assert(closing@.skip(at) =~= end);
                    lemma_prefix_of_one(">"@, '>', closing@.skip(at));
                }
            }
            Err(ParseFailure { rule: Rule::DoubleElement, remaining: closing, committed: true })
        },
        Some((end, skipped)) => {
            proof {
                lemma_prefix_of_one(">"@, '>', end@);
                assert forall|i: int| 0 <= i < skipped@.len() implies class.holds(
                    #[trigger] skipped@[i],
                ) by {
                    lemma_prefix_of_one(">"@, '>', closing@.skip(i));
                }
                lemma_split_is_run(closing@, skipped@, end@, class);
            }
            match tag(end, ">") {
                Some(after) => {
                    assert(after@ =~= end@.drop_first());
                    Ok((after, Element::new_width_children((ele_type, attributes, children))))
                },
                // The `>` stands where `take_until` stopped.
                None => Err(
                    ParseFailure { rule: Rule::DoubleElement, remaining: closing, committed: true },
                ),
            }
        },
    }
}

/// Reads one element, in either form, with the whitespace around it.
pub fn element<'a>(input: &'a str) -> (r: Result<(&'a str, Element<'a>), ParseFailure<'a>>)
    ensures
        match r {
            Ok((rest, tree)) => {
                &&& grammar::element(input@) == Ok::<_, Failure>((rest@, tree@))
                &&& tree@.well_formed()
            },
            Err(failure) => grammar::element(input@) == Err::<
                (Seq<char>, crate::ast::ElementView),
                _,
            >(failure@),
        },
    decreases input@.len(), 1nat,
{
    let start = sp(input);
    proof {
        grammar::lemma_sp_shrinks(input@);
        grammar::lemma_element_well_formed(input@);
    }
    match double_element(start) {
        Ok((rest, tree)) => Ok((sp(rest), tree)),
        Err(failure) => {
            if failure.committed {
                Err(failure)
            } else {
                match single_element(start) {
                    Ok((rest, tree)) => Ok((sp(rest), tree)),
                    Err(failure) => Err(failure),
                }
            }
        },
    }
}

/// Reads elements one behind the other, as many as there are.
pub fn element_list<'a>(input: &'a str) -> (r: Result<
    (&'a str, Vec<Element<'a>>),
    ParseFailure<'a>,
>)
    ensures
        match r {
            Ok((rest, list)) => grammar::element_list(input@) == Ok::<_, Failure>(
                (rest@, views_of(list@)),
            ),
            Err(failure) => grammar::element_list(input@) == Err::<
                (Seq<char>, Seq<crate::ast::ElementView>),
                _,
            >(failure@),
        },
    decreases input@.len(), 2nat,
{
    let mut rest = input;
    let mut list: Vec<Element<'a>> = Vec::new();
    proof {
        assert(grammar::with_front(views_of(list@), grammar::element_list(rest@))
            =~= grammar::element_list(rest@)) by {
            if let Ok((end, more)) = grammar::element_list(rest@) {
                assert(views_of(list@) + more =~= more);
            }
        }
    }
    loop
        invariant
            rest@.len() <= input@.len(),
            grammar::element_list(input@) == grammar::with_front(
                views_of(list@),
                grammar::element_list(rest@),
            ),
        decreases rest@.len(),
    {
        match element(rest) {
            Ok((behind, tree)) => {
                proof {
                    grammar::lemma_element_shrinks(rest@);
                    let before = views_of(list@);
                    assert(list@.push(tree).drop_last() =~= list@);
                    if let Ok((end, more)) = grammar::element_list(behind@) {
                        assert(before + (seq![tree@] + more) =~= before.push(tree@) + more);
                    }
                }
                list.push(tree);
                rest = behind;
            },
            Err(failure) => {
                if failure.committed {
                    return Err(failure);
                } else {
                    proof {
                        assert(views_of(list@) + Seq::<crate::ast::ElementView>::empty()
                            =~= views_of(list@));
                    }
                    return Ok((rest, list));
                }
            },
        }
    }
}

/// Reads the markup into a tree. The text is read as one element with the
/// whitespace around it; what follows that element is given back unread.
pub fn parse<'a>(input: &'a str) -> (r: Result<(&'a str, Element<'a>), ParseFailure<'a>>)
    ensures
        match r {
            Ok((rest, tree)) => {
                &&& grammar::parse(input@) == Ok::<_, Failure>((rest@, tree@))
                &&& tree@.well_formed()
            },
            Err(failure) => grammar::parse(input@) == Err::<
                (Seq<char>, crate::ast::ElementView),
                _,
            >(failure@),
        },
{
    element(input)
}

} // verus!
