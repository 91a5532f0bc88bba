//! Reading back what was written: a tree whose names need no escaping is
//! read from its own text as it was.

use vstd::prelude::*;
use crate::ast::ElementView;
use crate::attributes::{ascending, lemma_ascending, map_of};
use crate::classes::{
    after_run, blank, is_alphanumeric, is_name_char, is_whitespace, lemma_run_splits,
    lemma_run_through, lemma_split_is_run, run, CharClass,
};
use crate::grammar;
use crate::grammar::Failure;
use crate::laws::{law_quote_kinds, law_skipping_whitespace_is_idempotent};
use crate::stringify::{
    indent, render, render_all, render_attribute, render_attributes, render_named,
};

verus! {

/// A tag that is read back as it is: letters and digits, at least one.
pub open spec fn plain_tag(tag: Seq<char>) -> bool {
    &&& tag.len() > 0
    &&& forall|i: int| 0 <= i < tag.len() ==> is_alphanumeric(#[trigger] tag[i])
}

/// A name that is read back as it is: it holds no space and no `=`, and it
/// does not begin with whitespace.
pub open spec fn plain_name(name: Seq<char>) -> bool {
    &&& name.len() > 0
    &&& !is_whitespace(name[0])
    &&& forall|i: int| 0 <= i < name.len() ==> is_name_char(#[trigger] name[i])
}

/// A value that is read back as it is: it holds no `"`.
pub open spec fn plain_value(value: Seq<char>) -> bool {
    forall|i: int| 0 <= i < value.len() ==> #[trigger] value[i] != '"'
}

/// Attributes that are read back as they are.
pub open spec fn plain_attributes(attributes: Map<Seq<char>, Seq<char>>) -> bool {
    &&& attributes.dom().finite()
    &&& forall|name: Seq<char>| #[trigger]
        attributes.dom().contains(name) ==> plain_name(name) && plain_value(attributes[name])
}

/// A tree that is read back as it is: every tag, name and value of it is.
pub open spec fn plain(element: ElementView) -> bool
    decreases element,
{
    &&& plain_tag(element.tag)
    &&& plain_attributes(element.attributes)
    &&& forall|i: int| 0 <= i < element.children.len() ==> plain(#[trigger] element.children[i])
}

/// Whether no `=` stands in front of the first space of a text: no attribute
/// begins there.
spec fn quiet(s: Seq<char>) -> bool {
    let behind = after_run(s, CharClass::Name);
    behind.len() == 0 || behind[0] == ' '
}

/// Whether a text holds no `=`.
spec fn no_equals(s: Seq<char>) -> bool {
    forall|i: int| 0 <= i < s.len() ==> #[trigger] s[i] != '='
}

/// A text without `=` in front of a quiet text makes a quiet text.
proof fn lemma_quiet_behind(front: Seq<char>, back: Seq<char>)
    requires
        no_equals(front),
        quiet(back),
    ensures
        quiet(front + back),
{
    let class = CharClass::Name;
    lemma_run_splits(front, class);
    let head = run(front, class);
    let tail = after_run(front, class);
    if tail.len() > 0 {
        assert(front + back =~= head + (tail + back));
        assert(tail[0] == front[head.len() as int]);
        lemma_split_is_run(front + back, head, tail + back, class);
    } else {
        assert(front =~= head);
        lemma_run_through(front, back, class);
    }
}

/// A text that begins with a space is quiet.
proof fn lemma_quiet_at_space(back: Seq<char>)
    ensures
        quiet(seq![' '] + back),
{
    let s = seq![' '] + back;
    lemma_split_is_run(s, Seq::empty(), s, CharClass::Name);
}

/// The empty text is quiet.
proof fn lemma_quiet_empty()
    ensures
        quiet(Seq::empty()),
{
    lemma_run_splits(Seq::empty(), CharClass::Name);
}

/// No attribute is read from a quiet text.
proof fn lemma_no_attribute(s: Seq<char>)
    requires
        quiet(s),
    ensures
        grammar::attribute(s) is Err,
        grammar::attribute_list(s) == (s, Seq::<(Seq<char>, Seq<char>)>::empty()),
{
}

/// A written attribute, without its space, is read back.
proof fn lemma_attribute_reads(name: Seq<char>, value: Seq<char>, rest: Seq<char>)
    requires
        plain_name(name),
        plain_value(value),
    ensures
        grammar::attribute(name + seq!['=', '"'] + value + seq!['"'] + rest) == Ok::<_, Failure>(
            (rest, (name, value)),
        ),
{
    let class = CharClass::Name;
    let text = name + seq!['=', '"'] + value + seq!['"'] + rest;
    let behind = seq!['=', '"'] + value + seq!['"'] + rest;
    assert(text =~= name + behind);
    lemma_split_is_run(text, name, behind, class);
    assert(behind.drop_first() =~= seq!['"'] + value + seq!['"'] + rest);
    law_quote_kinds('"', value, rest);
}

/// The written attributes begin with the first of them.
proof fn lemma_render_named_front(names: Seq<Seq<char>>, attributes: Map<Seq<char>, Seq<char>>)
    requires
        names.len() > 0,
    ensures
        render_named(names, attributes) == render_attribute(names[0], attributes[names[0]])
            + render_named(names.drop_first(), attributes),
    decreases names.len(),
{
    let first = render_attribute(names[0], attributes[names[0]]);
    let last = render_attribute(names.last(), attributes[names.last()]);
    if names.len() == 1 {
        assert(names.drop_last() =~= Seq::<Seq<char>>::empty());
        assert(names.drop_first() =~= Seq::<Seq<char>>::empty());
        assert(render_named(names.drop_last(), attributes) =~= Seq::<char>::empty());
        assert(render_named(names.drop_first(), attributes) =~= Seq::<char>::empty());
        assert(render_named(names, attributes) =~= first);
        assert(first + render_named(names.drop_first(), attributes) =~= first);
    } else {
        lemma_render_named_front(names.drop_last(), attributes);
        assert(names.drop_last().drop_first() =~= names.drop_first().drop_last());
        assert(names.drop_last()[0] == names[0]);
        assert(names.drop_first().last() == names.last());
        let middle = render_named(names.drop_first().drop_last(), attributes);
        assert(render_named(names.drop_first(), attributes) == middle + last);
        assert(render_named(names, attributes) == (first + middle) + last);
        assert((first + middle) + last =~= first + (middle + last));
    }
}

/// The names of a list, each with the value that `attributes` gives it.
spec fn named_pairs(names: Seq<Seq<char>>, attributes: Map<Seq<char>, Seq<char>>) -> Seq<
    (Seq<char>, Seq<char>),
> {
    Seq::new(names.len(), |i: int| (names[i], attributes[names[i]]))
}

/// A text that does not begin with whitespace has none to skip.
proof fn lemma_sp_at_text(s: Seq<char>)
    requires
        s.len() > 0 ==> !is_whitespace(s[0]),
    ensures
        grammar::sp(s) == s,
{
    lemma_split_is_run(s, Seq::empty(), s, CharClass::Whitespace);
}

/// Written attributes are read back, one for one, in front of a text that
/// begins no attribute.
proof fn lemma_attribute_list_reads(
    names: Seq<Seq<char>>,
    attributes: Map<Seq<char>, Seq<char>>,
    rest: Seq<char>,
)
    requires
        forall|i: int|
            0 <= i < names.len() ==> plain_name(#[trigger] names[i]) && plain_value(
                attributes[names[i]],
            ),
        rest.len() > 0,
        !is_whitespace(rest[0]),
        quiet(rest),
    ensures
        grammar::attribute_list(grammar::sp(render_named(names, attributes) + rest)) == (
            rest,
            named_pairs(names, attributes),
        ),
    decreases names.len(),
{
    if names.len() == 0 {
        assert(render_named(names, attributes) + rest =~= rest);
        lemma_sp_at_text(rest);
        lemma_no_attribute(rest);
        assert(named_pairs(names, attributes) =~= Seq::empty());
    } else {
        let name = names[0];
        let value = attributes[name];
        let tail = names.drop_first();
        let behind = render_named(tail, attributes) + rest;
        let body = name + seq!['=', '"'] + value + seq!['"'] + behind;
        lemma_render_named_front(names, attributes);
        let text = render_named(names, attributes) + rest;
        assert(text =~= seq![' '] + body);
        assert(body[0] == name[0]);
        lemma_split_is_run(text, seq![' '], body, CharClass::Whitespace);
        lemma_attribute_reads(name, value, behind);
        assert forall|i: int| 0 <= i < tail.len() implies plain_name(#[trigger] tail[i])
            && plain_value(attributes[tail[i]]) by {
            assert(tail[i] == names[i + 1]);
        }
        lemma_attribute_list_reads(tail, attributes, rest);
        assert(seq![(name, value)] + named_pairs(tail, attributes) =~= named_pairs(
            names,
            attributes,
        ));
    }
}

/// The pairs of a list of names stand for the mapping they were taken from,
/// as far as the names go.
proof fn lemma_map_of_named(names: Seq<Seq<char>>, attributes: Map<Seq<char>, Seq<char>>)
    requires
        forall|i: int| 0 <= i < names.len() ==> attributes.dom().contains(#[trigger] names[i]),
    ensures
        map_of(named_pairs(names, attributes)) == attributes.restrict(names.to_set()),
    decreases names.len(),
{
    let pairs = named_pairs(names, attributes);
    if names.len() == 0 {
        assert(map_of(pairs) =~= attributes.restrict(names.to_set()));
    } else {
        let front = names.drop_last();
        assert(pairs.drop_last() =~= named_pairs(front, attributes));
        assert forall|i: int| 0 <= i < front.len() implies attributes.dom().contains(
            #[trigger] front[i],
        ) by {
            assert(front[i] == names[i]);
        }
        lemma_map_of_named(front, attributes);
        assert(names.to_set() =~= front.to_set().insert(names.last())) by {
            assert forall|k: Seq<char>| names.to_set().contains(k) implies front.to_set().insert(
                names.last(),
            ).contains(k) by {
                let j = choose|j: int| 0 <= j < names.len() && names[j] == k;
                if j < names.len() - 1 {
                    assert(front[j] == k);
                }
            }
            assert forall|k: Seq<char>| front.to_set().insert(names.last()).contains(
                k,
            ) implies names.to_set().contains(k) by {
                if k == names.last() {
                    assert(names[names.len() - 1] == k);
                } else {
                    let j = choose|j: int| 0 <= j < front.len() && front[j] == k;
                    assert(names[j] == k);
                }
            }
        }
        assert(map_of(pairs) =~= attributes.restrict(names.to_set()));
    }
}

/// Written attributes are read back as the mapping they were written from,
/// in front of the end of a tag.
proof fn lemma_attribute_hash_reads(attributes: Map<Seq<char>, Seq<char>>, rest: Seq<char>)
    requires
        plain_attributes(attributes),
        grammar::at_close(rest) || grammar::at_slash_close(rest),
        quiet(rest),
    ensures
        grammar::attribute_hash(render_attributes(attributes) + rest) == Ok::<_, Failure>(
            (rest, attributes),
        ),
{
    let names = ascending(attributes.dom());
    lemma_ascending(attributes.dom());
    assert forall|i: int| 0 <= i < names.len() implies attributes.dom().contains(
        #[trigger] names[i],
    ) by {
        assert(names.to_set().contains(names[i]));
    }
    lemma_attribute_list_reads(names, attributes, rest);
    lemma_map_of_named(names, attributes);
    assert(attributes.restrict(attributes.dom()) =~= attributes);
}

/// The head of a written tag is read back in front of what is no letter
/// and no digit.
proof fn lemma_element_start_reads(tag: Seq<char>, rest: Seq<char>)
    requires
        plain_tag(tag),
        rest.len() > 0 ==> !is_alphanumeric(rest[0]),
    ensures
        grammar::element_start(seq!['<'] + tag + rest) == Ok::<_, Failure>((rest, tag)),
{
    let text = seq!['<'] + tag + rest;
    assert(text.drop_first() =~= tag + rest);
    assert((tag + rest)[0] == tag[0]);
    lemma_sp_at_text(tag + rest);
    lemma_split_is_run(tag + rest, tag, rest, CharClass::Alphanumeric);
}

/// A text with a space at `at` and no `=` in front of it is quiet.
proof fn lemma_quiet_up_to_space(s: Seq<char>, at: int)
    requires
        0 <= at < s.len(),
        s[at] == ' ',
        forall|i: int| 0 <= i < at ==> #[trigger] s[i] != '=',
    ensures
        quiet(s),
{
    let front = s.take(at);
    let back = s.skip(at + 1);
    assert(s =~= front + (seq![' '] + back));
    lemma_quiet_at_space(back);
    lemma_quiet_behind(front, seq![' '] + back);
}

/// A margin of whitespace is whitespace.
proof fn lemma_indent_is_blank(tab: Seq<char>, depth: nat)
    requires
        blank(tab),
    ensures
        blank(indent(tab, depth)),
    decreases depth,
{
    if depth > 0 {
        lemma_indent_is_blank(tab, (depth - 1) as nat);
    }
}

/// Written attributes are nothing, or they begin with a space.
proof fn lemma_render_attributes_front(attributes: Map<Seq<char>, Seq<char>>)
    requires
        attributes.dom().finite(),
    ensures
        render_attributes(attributes).len() > 0 ==> render_attributes(attributes)[0] == ' ',
{
    let names = ascending(attributes.dom());
    if names.len() > 0 {
        lemma_render_named_front(names, attributes);
    }
}

/// The text of an element begins no attribute, in front of a text that
/// begins none.
proof fn lemma_render_quiet(
    element: ElementView,
    depth: nat,
    tab: Seq<char>,
    line: Seq<char>,
    rest: Seq<char>,
)
    requires
        plain(element),
        blank(tab),
        blank(line),
        quiet(rest),
    ensures
        quiet(render(element, depth, tab, line) + rest),
    decreases element,
{
    let margin = indent(tab, depth);
    let written = render_attributes(element.attributes);
    let whole = render(element, depth, tab, line) + rest;
    let head = margin + seq!['<'] + element.tag;
    lemma_indent_is_blank(tab, depth);
    lemma_render_attributes_front(element.attributes);
    assert(no_equals(head));
    if written.len() > 0 {
        assert(whole.take(head.len() as int) =~= head);
        assert(whole[head.len() as int] == written[0]);
        assert forall|i: int| 0 <= i < head.len() implies #[trigger] whole[i] != '=' by {
            assert(whole[i] == head[i]);
        }
        lemma_quiet_up_to_space(whole, head.len() as int);
    } else if element.children.len() == 0 {
        let front = head + seq!['/', '>'] + line;
        assert(whole =~= front + rest);
        assert(no_equals(front));
        lemma_quiet_behind(front, rest);
    } else {
        let front = head + seq!['>'] + line;
        let closing = margin + seq!['<', '/'] + element.tag + seq!['>'] + line;
        let inside = render_all(element.children, depth + 1, tab, line);
        assert(no_equals(closing));
        lemma_quiet_behind(closing, rest);
        lemma_render_all_quiet(element.children, depth + 1, tab, line, closing + rest);
        assert(no_equals(front));
        lemma_quiet_behind(front, inside + (closing + rest));
        assert(whole =~= front + (inside + (closing + rest)));
    }
}

/// The text of a list of elements begins no attribute, in front of a text
/// that begins none.
proof fn lemma_render_all_quiet(
    elements: Seq<ElementView>,
    depth: nat,
    tab: Seq<char>,
    line: Seq<char>,
    rest: Seq<char>,
)
    requires
        forall|i: int| 0 <= i < elements.len() ==> plain(#[trigger] elements[i]),
        blank(tab),
        blank(line),
        quiet(rest),
    ensures
        quiet(render_all(elements, depth, tab, line) + rest),
    decreases elements,
{
    if elements.len() == 0 {
        assert(render_all(elements, depth, tab, line) + rest =~= rest);
    } else {
        let front = elements.drop_last();
        let last = render(elements.last(), depth, tab, line);
        lemma_render_quiet(elements.last(), depth, tab, line, rest);
        assert forall|i: int| 0 <= i < front.len() implies plain(#[trigger] front[i]) by {
            assert(front[i] == elements[i]);
        }
        lemma_render_all_quiet(front, depth, tab, line, last + rest);
        assert(render_all(elements, depth, tab, line) + rest =~= render_all(
            front,
            depth,
            tab,
            line,
        ) + (last + rest));
    }
}

/// The text of a list of elements begins with the text of the first.
proof fn lemma_render_all_front(
    elements: Seq<ElementView>,
    depth: nat,
    tab: Seq<char>,
    line: Seq<char>,
)
    requires
        elements.len() > 0,
    ensures
        render_all(elements, depth, tab, line) == render(elements[0], depth, tab, line)
            + render_all(elements.drop_first(), depth, tab, line),
    decreases elements.len(),
{
    let first = render(elements[0], depth, tab, line);
    let last = render(elements.last(), depth, tab, line);
    if elements.len() == 1 {
        assert(elements.drop_last() =~= Seq::<ElementView>::empty());
        assert(elements.drop_first() =~= Seq::<ElementView>::empty());
        assert(render_all(elements.drop_last(), depth, tab, line) =~= Seq::<char>::empty());
        assert(render_all(elements.drop_first(), depth, tab, line) =~= Seq::<char>::empty());
        assert(render_all(elements, depth, tab, line) =~= first);
        assert(first + render_all(elements.drop_first(), depth, tab, line) =~= first);
    } else {
        lemma_render_all_front(elements.drop_last(), depth, tab, line);
        assert(elements.drop_last().drop_first() =~= elements.drop_first().drop_last());
        assert(elements.drop_last()[0] == elements[0]);
        assert(elements.drop_first().last() == elements.last());
        let middle = render_all(elements.drop_first().drop_last(), depth, tab, line);
        assert(render_all(elements.drop_first(), depth, tab, line) == middle + last);
        assert(render_all(elements, depth, tab, line) == (first + middle) + last);
        assert((first + middle) + last =~= first + (middle + last));
    }
}

/// An element is read from what stands behind the leading whitespace.
proof fn lemma_element_behind_whitespace(a: Seq<char>, b: Seq<char>)
    requires
        grammar::sp(a) == grammar::sp(b),
    ensures
        grammar::element(a) == grammar::element(b),
{
}

/// No element begins at a closing tag.
proof fn lemma_no_element_at_closing(margin: Seq<char>, rest: Seq<char>)
    requires
        blank(margin),
    ensures
        grammar::sp(margin + seq!['<', '/'] + rest) == seq!['<', '/'] + rest,
        grammar::element(margin + seq!['<', '/'] + rest) matches Err(failure)
            && !failure.committed,
{
    let text = seq!['<', '/'] + rest;
    assert(margin + seq!['<', '/'] + rest =~= margin + text);
    lemma_run_through(margin, text, CharClass::Whitespace);
    lemma_sp_at_text(text);
    let inside = text.drop_first();
    assert(inside[0] == '/');
    lemma_sp_at_text(inside);
    lemma_split_is_run(inside, Seq::empty(), inside, CharClass::Alphanumeric);
    assert(grammar::element_start(text) is Err);
}

/// What stands behind the attributes of a written element and the text
/// that follows it: the end of its tag, and for an element with children
/// these and its closing tag.
spec fn behind_attributes(
    element: ElementView,
    depth: nat,
    tab: Seq<char>,
    line: Seq<char>,
    rest: Seq<char>,
) -> Seq<char> {
    if element.children.len() == 0 {
        seq!['/', '>'] + (line + rest)
    } else {
        seq!['>'] + (line + (render_all(element.children, depth + 1, tab, line) + closing_tag(
            element,
            depth,
            tab,
            line,
            rest,
        )))
    }
}

/// The closing tag of a written element, from its margin on, and the text
/// that follows it.
spec fn closing_tag(
    element: ElementView,
    depth: nat,
    tab: Seq<char>,
    line: Seq<char>,
    rest: Seq<char>,
) -> Seq<char> {
    indent(tab, depth) + (seq!['<', '/'] + (element.tag + (seq!['>'] + (line + rest))))
}

/// Putting texts together does not depend on where one begins.
proof fn lemma_regroup(a: Seq<char>, b: Seq<char>, c: Seq<char>)
    ensures
        (a + b) + c == a + (b + c),
{
    assert((a + b) + c =~= a + (b + c));
}

/// The text of an element, part by part.
proof fn lemma_render_parts(
    element: ElementView,
    depth: nat,
    tab: Seq<char>,
    line: Seq<char>,
    rest: Seq<char>,
)
    ensures
        render(element, depth, tab, line) + rest == indent(tab, depth) + (seq!['<'] + element.tag
            + (render_attributes(element.attributes) + behind_attributes(
            element,
            depth,
            tab,
            line,
            rest,
        ))),
{
    let margin = indent(tab, depth);
    let open = seq!['<'];
    let tag = element.tag;
    let written = render_attributes(element.attributes);
    let behind = behind_attributes(element, depth, tab, line, rest);
    if element.children.len() == 0 {
        let slash = seq!['/', '>'];
        lemma_regroup(margin + open + tag + written + slash, line, rest);
        lemma_regroup(margin + open + tag + written, slash, line + rest);
    } else {
        let close = seq!['>'];
        let inside = render_all(element.children, depth + 1, tab, line);
        let name = seq!['<', '/'];
        let front = margin + open + tag + written;
        lemma_regroup(front + close + line + inside + margin + name + tag + close, line, rest);
        lemma_regroup(front + close + line + inside + margin + name + tag, close, line + rest);
        lemma_regroup(front + close + line + inside + margin + name, tag, close + (line + rest));
        lemma_regroup(
            front + close + line + inside + margin,
            name,
            tag + (close + (line + rest)),
        );
        let closing = closing_tag(element, depth, tab, line, rest);
        lemma_regroup(front + close + line + inside, margin, name + (tag + (close + (line + rest))));
        lemma_regroup(front + close + line, inside, closing);
        lemma_regroup(front + close, line, inside + closing);
        lemma_regroup(front, close, line + (inside + closing));
    }
    lemma_regroup(margin + open + tag, written, behind);
    lemma_regroup(margin + open, tag, written + behind);
    lemma_regroup(margin, open, tag + (written + behind));
    lemma_regroup(open, tag, written + behind);
}

/// What stands behind the attributes of a written element begins no
/// attribute.
proof fn lemma_behind_attributes_quiet(
    element: ElementView,
    depth: nat,
    tab: Seq<char>,
    line: Seq<char>,
    rest: Seq<char>,
)
    requires
        plain(element),
        blank(tab),
        blank(line),
        quiet(rest),
    ensures
        quiet(behind_attributes(element, depth, tab, line, rest)),
        quiet(closing_tag(element, depth, tab, line, rest)),
{
    let margin = indent(tab, depth);
    lemma_indent_is_blank(tab, depth);
    let closing = closing_tag(element, depth, tab, line, rest);
    let closing_front = margin + seq!['<', '/'] + element.tag + seq!['>'] + line;
    assert(closing =~= closing_front + rest);
    assert(no_equals(closing_front));
    lemma_quiet_behind(closing_front, rest);
    if element.children.len() == 0 {
        let front = seq!['/', '>'] + line;
        assert(behind_attributes(element, depth, tab, line, rest) =~= front + rest);
        assert(no_equals(front));
        lemma_quiet_behind(front, rest);
    } else {
        let inside = render_all(element.children, depth + 1, tab, line);
        let front = seq!['>'] + line;
        lemma_render_all_quiet(element.children, depth + 1, tab, line, closing);
        assert(behind_attributes(element, depth, tab, line, rest) =~= front + (inside + closing));
        assert(no_equals(front));
        lemma_quiet_behind(front, inside + closing);
    }
}

/// The head and the attributes of a written element are read back.
proof fn lemma_head_reads(
    element: ElementView,
    depth: nat,
    tab: Seq<char>,
    line: Seq<char>,
    rest: Seq<char>,
) -> (start: Seq<char>)
    requires
        plain(element),
        blank(tab),
        blank(line),
        quiet(rest),
    ensures
        grammar::sp(render(element, depth, tab, line) + rest) == start,
        grammar::element_start(start) == Ok::<_, Failure>(
            (
                render_attributes(element.attributes) + behind_attributes(
                    element,
                    depth,
                    tab,
                    line,
                    rest,
                ),
                element.tag,
            ),
        ),
        grammar::attribute_hash(
            render_attributes(element.attributes) + behind_attributes(
                element,
                depth,
                tab,
                line,
                rest,
            ),
        ) == Ok::<_, Failure>(
            (behind_attributes(element, depth, tab, line, rest), element.attributes),
        ),
{
    let margin = indent(tab, depth);
    let written = render_attributes(element.attributes);
    let behind = behind_attributes(element, depth, tab, line, rest);
    let start = seq!['<'] + element.tag + (written + behind);
    lemma_render_parts(element, depth, tab, line, rest);
    lemma_indent_is_blank(tab, depth);
    lemma_run_through(margin, start, CharClass::Whitespace);
    lemma_sp_at_text(start);
    lemma_render_attributes_front(element.attributes);
    assert((written + behind)[0] == (if written.len() > 0 {
        ' '
    } else {
        behind[0]
    }));
    lemma_element_start_reads(element.tag, written + behind);
    lemma_behind_attributes_quiet(element, depth, tab, line, rest);
    lemma_attribute_hash_reads(element.attributes, behind);
    start
}

/// A written element without children is read back.
proof fn lemma_childless_reads(
    element: ElementView,
    depth: nat,
    tab: Seq<char>,
    line: Seq<char>,
    rest: Seq<char>,
)
    requires
        plain(element),
        element.children.len() == 0,
        blank(tab),
        blank(line),
        quiet(rest),
    ensures
        grammar::element(render(element, depth, tab, line) + rest) == Ok::<_, Failure>(
            (grammar::sp(rest), element),
        ),
{
    let start = lemma_head_reads(element, depth, tab, line, rest);
    let behind = behind_attributes(element, depth, tab, line, rest);
    assert(behind.skip(2) =~= line + rest);
    assert(element.children =~= Seq::empty());
    assert(grammar::double_element(start) is Err);
    assert(grammar::single_element(start) == Ok::<_, Failure>((line + rest, element)));
    lemma_run_through(line, rest, CharClass::Whitespace);
}

/// A written element with children is read back, where its children are.
proof fn lemma_parent_reads(
    element: ElementView,
    depth: nat,
    tab: Seq<char>,
    line: Seq<char>,
    rest: Seq<char>,
)
    requires
        plain(element),
        element.children.len() > 0,
        blank(tab),
        blank(line),
        quiet(rest),
        grammar::element_list(
            line + (render_all(element.children, depth + 1, tab, line) + closing_tag(
                element,
                depth,
                tab,
                line,
                rest,
            )),
        ) == Ok::<_, Failure>(
            (grammar::sp(closing_tag(element, depth, tab, line, rest)), element.children),
        ),
    ensures
        grammar::element(render(element, depth, tab, line) + rest) == Ok::<_, Failure>(
            (grammar::sp(rest), element),
        ),
{
    let start = lemma_head_reads(element, depth, tab, line, rest);
    let behind = behind_attributes(element, depth, tab, line, rest);
    let closing = closing_tag(element, depth, tab, line, rest);
    let body = line + (render_all(element.children, depth + 1, tab, line) + closing);
    assert(behind.drop_first() =~= body);
    let name = seq!['<', '/'] + element.tag;
    let end = seq!['>'] + (line + rest);
    lemma_indent_is_blank(tab, depth);
    assert(closing =~= indent(tab, depth) + (name + end));
    assert((name + end)[0] == '<');
    lemma_run_through(indent(tab, depth), name + end, CharClass::Whitespace);
    lemma_sp_at_text(name + end);
    lemma_split_is_run(name + end, name, end, CharClass::Except('>'));
    assert(end.drop_first() =~= line + rest);
    assert(grammar::double_element(start) == Ok::<_, Failure>((line + rest, element)));
    lemma_run_through(line, rest, CharClass::Whitespace);
}

/// A written element is read back, whatever quiet text follows it, up to
/// the whitespace behind it.
proof fn lemma_element_reads(
    element: ElementView,
    depth: nat,
    tab: Seq<char>,
    line: Seq<char>,
    rest: Seq<char>,
)
    requires
        plain(element),
        blank(tab),
        blank(line),
        quiet(rest),
    ensures
        grammar::element(render(element, depth, tab, line) + rest) == Ok::<_, Failure>(
            (grammar::sp(rest), element),
        ),
    decreases element,
{
    if element.children.len() == 0 {
        lemma_childless_reads(element, depth, tab, line, rest);
    } else {
        let closing = closing_tag(element, depth, tab, line, rest);
        let inside = render_all(element.children, depth + 1, tab, line);
        lemma_behind_attributes_quiet(element, depth, tab, line, rest);
        lemma_indent_is_blank(tab, depth);
        assert(closing =~= indent(tab, depth) + seq!['<', '/'] + (element.tag + (seq!['>'] + (line
            + rest))));
        lemma_no_element_at_closing(indent(tab, depth), element.tag + (seq!['>'] + (line + rest)));
        lemma_run_through(line, inside + closing, CharClass::Whitespace);
        lemma_element_list_reads(
            line + (inside + closing),
            element.children,
            depth + 1,
            tab,
            line,
            closing,
        );
        lemma_parent_reads(element, depth, tab, line, rest);
    }
}

/// A written list of elements is read back in front of a text that begins
/// no element and no attribute.
proof fn lemma_element_list_reads(
    text: Seq<char>,
    elements: Seq<ElementView>,
    depth: nat,
    tab: Seq<char>,
    line: Seq<char>,
    rest: Seq<char>,
)
    requires
        elements.len() > 0,
        forall|i: int| 0 <= i < elements.len() ==> plain(#[trigger] elements[i]),
        blank(tab),
        blank(line),
        quiet(rest),
        grammar::element(rest) matches Err(failure) && !failure.committed,
        grammar::sp(text) == grammar::sp(render_all(elements, depth, tab, line) + rest),
    ensures
        grammar::element_list(text) == Ok::<_, Failure>((grammar::sp(rest), elements)),
    decreases elements,
{
    let first = elements[0];
    let tail = elements.drop_first();
    let behind = render_all(tail, depth, tab, line) + rest;
    let whole = render_all(elements, depth, tab, line) + rest;
    lemma_render_all_front(elements, depth, tab, line);
    assert(whole =~= render(first, depth, tab, line) + behind);
    assert forall|i: int| 0 <= i < tail.len() implies plain(#[trigger] tail[i]) by {
        assert(tail[i] == elements[i + 1]);
    }
    lemma_render_all_quiet(tail, depth, tab, line, rest);
    lemma_element_reads(first, depth, tab, line, behind);
    lemma_element_behind_whitespace(text, whole);
    grammar::lemma_element_list_unfolds(text);
    law_skipping_whitespace_is_idempotent(behind);
    if tail.len() == 0 {
        assert(behind =~= rest);
        lemma_element_behind_whitespace(grammar::sp(rest), rest);
        grammar::lemma_element_list_unfolds(grammar::sp(rest));
        assert(seq![first] + Seq::<ElementView>::empty() =~= elements);
    } else {
        lemma_element_list_reads(grammar::sp(behind), tail, depth, tab, line, rest);
        assert(seq![first] + tail =~= elements);
    }
}

/// A tree whose tags, names and values need no escaping is read from its
/// own text as it was, with nothing left over: compact, or indented by any
/// whitespace.
pub proof fn law_round_trip(element: ElementView, depth: nat, tab: Seq<char>, line: Seq<char>)
    requires
        plain(element),
        blank(tab),
        blank(line),
    ensures
        grammar::parse(render(element, depth, tab, line)) == Ok::<_, Failure>(
            (Seq::<char>::empty(), element),
        ),
{
    let text = render(element, depth, tab, line);
    lemma_quiet_empty();
    lemma_element_reads(element, depth, tab, line, Seq::empty());
    assert(text + Seq::<char>::empty() =~= text);
    lemma_sp_at_text(Seq::empty());
}

} // verus!
