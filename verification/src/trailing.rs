//! Whitespace behind the text: it changes nothing of what is read.

use vstd::prelude::*;
use crate::ast::ElementView;
use crate::classes::{
    after_run, blank, lemma_run_appended, lemma_run_splits, lemma_run_through, lemma_split_is_run,
    run, CharClass,
};
use crate::grammar::{
    at_close, at_slash_close, attribute, attribute_hash, attribute_list, attribute_value,
    double_element, element, element_list, element_start, lemma_attribute_hash_shrinks,
    lemma_attribute_shrinks, lemma_element_list_unfolds, lemma_element_shrinks,
    lemma_element_start_shrinks, lemma_sp_shrinks, parse, single_element, sp, Failure, Outcome,
};

verus! {

/// What is left of a text when `more` is put behind the text: nothing where
/// nothing was left, for the whitespace is skipped with the rest.
spec fn tail_plus(rest: Seq<char>, more: Seq<char>) -> Seq<char> {
    if rest.len() == 0 {
        Seq::empty()
    } else {
        rest + more
    }
}

/// Whitespace is made of whitespace all through.
proof fn lemma_blank_runs(space: Seq<char>)
    requires
        blank(space),
    ensures
        after_run(space, CharClass::Whitespace).len() == 0,
        after_run(space, CharClass::Except('"')).len() == 0,
        after_run(space, CharClass::Except('\'')).len() == 0,
        after_run(space, CharClass::Except('>')).len() == 0,
        after_run(space, CharClass::Alphanumeric) == space,
        run(space, CharClass::Alphanumeric).len() == 0,
        after_run(space, CharClass::Name).len() > 0 ==> after_run(space, CharClass::Name)[0] == ' ',
{
    let none = Seq::<char>::empty();
    assert(space + none =~= space);
    lemma_run_through(space, none, CharClass::Whitespace);
    lemma_run_through(space, none, CharClass::Except('"'));
    lemma_run_through(space, none, CharClass::Except('\''));
    lemma_run_through(space, none, CharClass::Except('>'));
    lemma_split_is_run(space, none, space, CharClass::Alphanumeric);
    lemma_run_splits(space, CharClass::Name);
    if after_run(space, CharClass::Name).len() > 0 {
        let at = run(space, CharClass::Name).len() as int;
        assert(after_run(space, CharClass::Name)[0] == space[at]);
    }
}

/// Skipping whitespace in front of a text with whitespace behind it.
proof fn lemma_sp_appended(s: Seq<char>, space: Seq<char>)
    requires
        blank(space),
    ensures
        sp(s + space) == tail_plus(sp(s), space),
{
    lemma_run_appended(s, space, CharClass::Whitespace);
    lemma_blank_runs(space);
}

/// A value is read alike with whitespace behind the text.
proof fn lemma_attribute_value_appended(s: Seq<char>, space: Seq<char>)
    requires
        blank(space),
    ensures
        match attribute_value(s) {
            Ok((rest, value)) => attribute_value(s + space) == Ok::<_, Failure>(
                (rest + space, value),
            ),
            Err(_) => attribute_value(s + space) is Err,
        },
{
    lemma_blank_runs(space);
    if s.len() == 0 {
        assert(s + space =~= space);
    } else {
        let inside = s.drop_first();
        let class = CharClass::Except(s[0]);
        assert((s + space).drop_first() =~= inside + space);
        lemma_run_appended(inside, space, class);
        let behind = after_run(inside, class);
        if behind.len() > 0 {
            assert((behind + space).drop_first() =~= behind.drop_first() + space);
        }
    }
}

/// An attribute is read alike with whitespace behind the text.
proof fn lemma_attribute_appended(s: Seq<char>, space: Seq<char>)
    requires
        blank(space),
    ensures
        match attribute(s) {
            Ok((rest, pair)) => attribute(s + space) == Ok::<_, Failure>((rest + space, pair)),
            Err(_) => attribute(s + space) is Err,
        },
{
    lemma_blank_runs(space);
    lemma_run_appended(s, space, CharClass::Name);
    let behind = after_run(s, CharClass::Name);
    if behind.len() > 0 {
        assert((behind + space).drop_first() =~= behind.drop_first() + space);
        lemma_attribute_value_appended(behind.drop_first(), space);
    }
}

/// The same attributes are read with whitespace behind the text.
proof fn lemma_attribute_list_appended(s: Seq<char>, space: Seq<char>)
    requires
        blank(space),
    ensures
        attribute_list(sp(s + space)) == (
            tail_plus(attribute_list(sp(s)).0, space),
            attribute_list(sp(s)).1,
        ),
    decreases s.len(),
{
    let start = sp(s);
    lemma_sp_appended(s, space);
    lemma_sp_shrinks(s);
    if start.len() > 0 {
        lemma_attribute_appended(start, space);
        lemma_attribute_shrinks(start);
        if let Ok((rest, _)) = attribute(start) {
            lemma_attribute_list_appended(rest, space);
        }
    }
}

/// The same attribute list is read with whitespace behind the text.
proof fn lemma_attribute_hash_appended(s: Seq<char>, space: Seq<char>)
    requires
        blank(space),
    ensures
        match attribute_hash(s) {
            Ok((rest, attributes)) => attribute_hash(s + space) == Ok::<_, Failure>(
                (tail_plus(rest, space), attributes),
            ),
            Err(failure) => attribute_hash(s + space) matches Err(other) && other.rule
                == failure.rule && other.committed == failure.committed,
        },
{
    lemma_attribute_list_appended(s, space);
    let rest = attribute_list(sp(s)).0;
    if rest.len() > 0 {
        assert((rest + space)[0] == rest[0]);
        if rest.len() > 1 {
            assert((rest + space)[1] == rest[1]);
        } else if space.len() > 0 {
            assert((rest + space)[1] == space[0]);
        }
    }
}

/// The same head is read with whitespace behind the text.
proof fn lemma_element_start_appended(s: Seq<char>, space: Seq<char>)
    requires
        blank(space),
    ensures
        match element_start(s) {
            Ok((rest, tag)) => element_start(s + space) == Ok::<_, Failure>((rest + space, tag)),
            Err(failure) => element_start(s + space) matches Err(other) && other.rule
                == failure.rule && other.committed == failure.committed,
        },
{
    let none = Seq::<char>::empty();
    lemma_blank_runs(space);
    if s.len() == 0 {
        assert(s + space =~= space);
    } else {
        assert((s + space)[0] == s[0]);
        assert((s + space).drop_first() =~= s.drop_first() + space);
        lemma_sp_appended(s.drop_first(), space);
        let inside = sp(s.drop_first());
        if inside.len() > 0 {
            lemma_run_appended(inside, space, CharClass::Alphanumeric);
            if after_run(inside, CharClass::Alphanumeric).len() == 0 {
                assert(run(space, CharClass::Alphanumeric) =~= none);
                assert(inside + none =~= inside);
                assert(after_run(inside, CharClass::Alphanumeric) =~= none);
                assert(none + space =~= space);
                lemma_run_splits(inside, CharClass::Alphanumeric);
                assert(run(inside, CharClass::Alphanumeric) =~= inside);
            }
        } else {
            lemma_run_splits(none, CharClass::Alphanumeric);
            assert(inside =~= none);
        }
    }
}

/// The same self-closing element is read with whitespace behind the text.
proof fn lemma_single_element_appended(s: Seq<char>, space: Seq<char>)
    requires
        blank(space),
    ensures
        match single_element(s) {
            Ok((rest, tree)) => single_element(s + space) == Ok::<_, Failure>(
                (rest + space, tree),
            ),
            Err(failure) => single_element(s + space) matches Err(other) && other.rule
                == failure.rule && other.committed == failure.committed,
        },
{
    lemma_element_start_appended(s, space);
    if let Ok((behind_tag, _)) = element_start(s) {
        lemma_attribute_hash_appended(behind_tag, space);
        if let Ok((rest, _)) = attribute_hash(behind_tag) {
            lemma_ends_appended(rest, space);
            if at_slash_close(rest) {
                assert((rest + space).skip(2) =~= rest.skip(2) + space);
            }
        }
    }
}

/// Whitespace behind a text does not make or unmake the end of a tag at
/// its front.
proof fn lemma_ends_appended(rest: Seq<char>, space: Seq<char>)
    requires
        blank(space),
    ensures
        at_close(tail_plus(rest, space)) == at_close(rest),
        at_slash_close(tail_plus(rest, space)) == at_slash_close(rest),
{
    if rest.len() > 0 {
        assert((rest + space)[0] == rest[0]);
        if rest.len() > 1 {
            assert((rest + space)[1] == rest[1]);
        } else if space.len() > 0 {
            assert((rest + space)[1] == space[0]);
        }
    }
}

/// How the outcome of a list stands to its outcome with whitespace behind
/// the text: the same elements, and the same text left with the whitespace
/// behind it, or nothing left of either.
spec fn list_appended(
    before: Outcome<Seq<ElementView>>,
    after: Outcome<Seq<ElementView>>,
    space: Seq<char>,
) -> bool {
    match before {
        Ok((closing, elements)) => {
            &&& after matches Ok((other_closing, other_elements))
            &&& other_elements == elements
            &&& (other_closing == closing + space || (closing.len() == 0 && other_closing.len()
                == 0))
        },
        Err(failure) => after matches Err(other) && other.rule == failure.rule && other.committed
            == failure.committed,
    }
}

/// The same element with a closing tag is read with whitespace behind the
/// text.
proof fn lemma_double_element_appended(s: Seq<char>, space: Seq<char>)
    requires
        blank(space),
    ensures
        match double_element(s) {
            Ok((rest, tree)) => double_element(s + space) == Ok::<_, Failure>(
                (rest + space, tree),
            ),
            Err(failure) => double_element(s + space) matches Err(other) && other.rule
                == failure.rule && other.committed == failure.committed,
        },
    decreases s.len(), 0nat,
{
    lemma_element_start_appended(s, space);
    lemma_element_start_shrinks(s);
    if let Ok((behind_tag, _)) = element_start(s) {
        lemma_attribute_hash_appended(behind_tag, space);
        lemma_attribute_hash_shrinks(behind_tag);
        if let Ok((rest, _)) = attribute_hash(behind_tag) {
            lemma_ends_appended(rest, space);
            if at_close(rest) {
                let inside = rest.drop_first();
                assert((rest + space).drop_first() =~= inside + space);
                lemma_element_list_appended(inside, space);
                if let Ok((closing, _)) = element_list(inside) {
                    let class = CharClass::Except('>');
                    lemma_blank_runs(space);
                    lemma_run_appended(closing, space, class);
                    lemma_run_splits(Seq::<char>::empty(), class);
                    let end = after_run(closing, class);
                    if end.len() > 0 {
                        assert((end + space).drop_first() =~= end.drop_first() + space);
                    }
                }
            }
        }
    }
}

/// The same element is read with whitespace behind the text.
proof fn lemma_element_appended(s: Seq<char>, space: Seq<char>)
    requires
        blank(space),
    ensures
        match element(s) {
            Ok((rest, tree)) => element(s + space) == Ok::<_, Failure>(
                (tail_plus(rest, space), tree),
            ),
            Err(failure) => element(s + space) matches Err(other) && other.rule == failure.rule
                && other.committed == failure.committed,
        },
    decreases s.len(), 1nat,
{
    let start = sp(s);
    lemma_sp_appended(s, space);
    lemma_sp_shrinks(s);
    if start.len() > 0 {
        lemma_double_element_appended(start, space);
        lemma_single_element_appended(start, space);
        if let Ok((rest, _)) = double_element(start) {
            lemma_sp_appended(rest, space);
        }
        if let Ok((rest, _)) = single_element(start) {
            lemma_sp_appended(rest, space);
        }
    }
}

/// The same list of elements is read with whitespace behind the text.
proof fn lemma_element_list_appended(s: Seq<char>, space: Seq<char>)
    requires
        blank(space),
    ensures
        list_appended(element_list(s), element_list(s + space), space),
    decreases s.len(), 2nat,
{
    lemma_element_appended(s, space);
    lemma_element_list_unfolds(s);
    lemma_element_list_unfolds(s + space);
    lemma_element_shrinks(s);
    match element(s) {
        Ok((rest, tree)) => {
            if rest.len() > 0 {
                lemma_element_list_appended(rest, space);
                if let Ok((closing, more)) = element_list(rest) {
                    assert(element_list(s) == Ok::<_, Failure>((closing, seq![tree] + more)));
                }
            } else {
                let none = Seq::<char>::empty();
                assert(rest =~= none);
                lemma_nothing_is_no_element();
                lemma_element_list_unfolds(none);
                assert(element_list(none) == Ok::<_, Failure>((none, Seq::<ElementView>::empty())));
            }
        },
        Err(_) => {},
    }
}

/// No element is read from an empty text, and the failure is not committed.
proof fn lemma_nothing_is_no_element()
    ensures
        element(Seq::empty()) matches Err(failure) && !failure.committed,
{
    let none = Seq::<char>::empty();
    lemma_run_splits(none, CharClass::Whitespace);
    assert(sp(none) =~= none);
}

/// Whitespace behind the text changes nothing of what is read: the same
/// tree is read, and the whitespace is skipped with what was left; a text
/// that fails, fails as it did.
pub proof fn law_whitespace_behind(text: Seq<char>, space: Seq<char>)
    requires
        blank(space),
    ensures
        match parse(text) {
            Ok((rest, tree)) => parse(text + space) == Ok::<_, Failure>(
                (sp(rest + space), tree),
            ),
            Err(failure) => parse(text + space) matches Err(other) && other.rule == failure.rule
                && other.committed == failure.committed,
        },
{
    lemma_element_appended(text, space);
    if let Ok((rest, _)) = parse(text) {
        crate::laws::law_trailing_whitespace(text);
        lemma_split_is_run(rest, Seq::empty(), rest, CharClass::Whitespace);
        lemma_sp_appended(rest, space);
    }
}

} // verus!
