//! Writing a tree back as markup, compact or indented.

use vstd::prelude::*;
use vstd::string::StringExecFns;
use crate::ast::{lemma_views_of, Element, ElementView};
use crate::attributes::{ascending, lemma_ascending, Attributes};

verus! {

/// One attribute as it is written: a space, the name, `="`, the value, `"`.
pub open spec fn render_attribute(name: Seq<char>, value: Seq<char>) -> Seq<char> {
    seq![' '] + name + seq!['=', '"'] + value + seq!['"']
}

/// The attributes of `names`, written one behind the other in the order of
/// the list, each with the value that `attributes` gives it.
pub open spec fn render_named(
    names: Seq<Seq<char>>,
    attributes: Map<Seq<char>, Seq<char>>,
) -> Seq<char>
    decreases names.len(),
{
    if names.len() == 0 {
        Seq::empty()
    } else {
        let last = names.last();
        render_named(names.drop_last(), attributes) + render_attribute(last, attributes[last])
    }
}

/// The attributes as they are written: in ascending order of their names,
/// whatever the order in which they were given.
pub open spec fn render_attributes(attributes: Map<Seq<char>, Seq<char>>) -> Seq<char> {
    render_named(ascending(attributes.dom()), attributes)
}

/// `tab` written `depth` times.
pub open spec fn indent(tab: Seq<char>, depth: nat) -> Seq<char>
    decreases depth,
{
    if depth == 0 {
        Seq::empty()
    } else {
        indent(tab, (depth - 1) as nat) + tab
    }
}

/// An element as it is written at `depth`, with `tab` as the indent of one
/// level and `line` behind every tag. An element without children is one
/// self-closing tag; another is its opening tag, its children one level
/// deeper, and its closing tag.
pub open spec fn render(
    element: ElementView,
    depth: nat,
    tab: Seq<char>,
    line: Seq<char>,
) -> Seq<char>
    decreases element,
{
    let margin = indent(tab, depth);
    let opening = margin + seq!['<'] + element.tag + render_attributes(element.attributes);
    if element.children.len() == 0 {
        opening + seq!['/', '>'] + line
    } else {
        let inside = render_all(element.children, depth + 1, tab, line);
        opening + seq!['>'] + line + inside + margin + seq!['<', '/'] + element.tag + seq!['>']
            + line
    }
}

/// The elements of a list as they are written at `depth`, one behind the
/// other.
pub open spec fn render_all(
    elements: Seq<ElementView>,
    depth: nat,
    tab: Seq<char>,
    line: Seq<char>,
) -> Seq<char>
    decreases elements,
{
    if elements.len() == 0 {
        Seq::empty()
    } else {
        let last = render(elements.last(), depth, tab, line);
        render_all(elements.drop_last(), depth, tab, line) + last
    }
}

/// Writes the attributes, in ascending order of their names.
pub fn stringify_attrubutes_hash(attribute_hash: &Attributes) -> (r: String)
    ensures
        r@ == render_attributes(attribute_hash@),
{
    let count = attribute_hash.len();
    let ghost names = ascending(attribute_hash@.dom());
    proof {
        lemma_ascending(attribute_hash@.dom());
        assert(names.take(0) =~= Seq::empty());
    }
    let mut text = String::new();
    let mut i: usize = 0;
    while i < count
        invariant
            0 <= i <= count,
            attribute_hash@.dom().finite(),
            count == attribute_hash@.dom().len(),
            count == names.len(),
            names == ascending(attribute_hash@.dom()),
            text@ == render_named(names.take(i as int), attribute_hash@),
        decreases count - i,
    {
        if let Some(entry) = attribute_hash.nth(i) {
            let ghost before = text@;
            text.append(" ");
            text.append(entry.name.as_str());
            text.append("=\"");
            text.append(entry.value);
            text.append("\"");
            proof {
                reveal_strlit(" ");
                reveal_strlit("=\"");
                reveal_strlit("\"");
                assert(" "@ =~= seq![' ']);
                assert("=\""@ =~= seq!['=', '"']);
                assert("\""@ =~= seq!['"']);
                let shown = names.take(i + 1);
                assert(shown.drop_last() =~= names.take(i as int));
                assert(shown.last() == entry.name@);
                assert(text@ =~= before + render_attribute(entry.name@, entry.value@));
            }
        }
        i = i + 1;
    }
    proof {
        assert(names.take(count as int) =~= names);
    }
    text
}

/// Writes `ele` and what is below it, with the margin of depth `z`: see
/// [`render`]. `marks` holds the indent of one level and what ends a line.
pub fn trasverse(ele: &Element, z: usize, marks: (&str, &str)) -> (r: String)
    ensures
        r@ == render(ele@, z as nat, marks.0@, marks.1@),
{
    let (tab_mark, line_mark) = marks;
    let mut margin = String::new();
    let mut level: usize = 0;
    while level < z
        invariant
            0 <= level <= z,
            margin@ == indent(tab_mark@, level as nat),
        decreases z - level,
    {
        margin.append(tab_mark);
        level = level + 1;
    }
    trasverse_within(ele, margin.as_str(), Ghost(z as nat), tab_mark, line_mark)
}

/// Writes `ele` and what is below it behind the margin of its depth.
fn trasverse_within(
    ele: &Element,
    margin: &str,
    Ghost(depth): Ghost<nat>,
    tab_mark: &str,
    line_mark: &str,
) -> (r: String)
    requires
        margin@ == indent(tab_mark@, depth),
    ensures
        r@ == render(ele@, depth, tab_mark@, line_mark@),
    decreases ele,
{
    proof {
        reveal_strlit("<");
        reveal_strlit(">");
        reveal_strlit("/>");
        reveal_strlit("</");
        assert("<"@ =~= seq!['<']);
        assert(">"@ =~= seq!['>']);
        assert("/>"@ =~= seq!['/', '>']);
        assert("</"@ =~= seq!['<', '/']);
        lemma_views_of(ele.children@);
    }
    let attrs_str = stringify_attrubutes_hash(&ele.attributes);
    let mut content = String::new();
    content.append(margin);
    content.append("<");
    content.append(ele.ele_type);
    content.append(attrs_str.as_str());
    if ele.children.len() == 0 {
        content.append("/>");
        content.append(line_mark);
    } else {
        content.append(">");
        content.append(line_mark);
        let mut inner = String::new();
        inner.append(margin);
        inner.append(tab_mark);
        let ghost opening = content@;
        let ghost below = ele@.children;
        proof {
            assert(below.take(0) =~= Seq::empty());
        }
        let mut i: usize = 0;
        while i < ele.children.len()
            invariant
                0 <= i <= ele.children.len(),
                below == ele@.children,
                below.len() == ele.children.len(),
                forall|j: int| 0 <= j < below.len() ==> #[trigger] below[j] == ele.children@[j]@,
                inner@ == indent(tab_mark@, depth + 1),
                content@ == opening + render_all(
                    below.take(i as int),
                    depth + 1,
                    tab_mark@,
                    line_mark@,
                ),
            decreases ele.children.len() - i,
        {
            let child = trasverse_within(
                &ele.children[i],
                inner.as_str(),
                Ghost(depth + 1),
                tab_mark,
                line_mark,
            );
            proof {
                assert(below.take(i + 1).drop_last() =~= below.take(i as int));
            }
            content.append(child.as_str());
            i = i + 1;
        }
        proof {
            assert(below.take(below.len() as int) =~= below);
        }
        content.append(margin);
        content.append("</");
        content.append(ele.ele_type);
        content.append(">");
        content.append(line_mark);
    }
    content
}

/// Writes the tree in compact form: no space between the tags, the
/// attributes of each tag in ascending order of their names.
pub fn stringify(ele: &Element) -> (r: String)
    ensures
        r@ == render(ele@, 0, Seq::empty(), Seq::empty()),
{
    proof {
        reveal_strlit("");
        assert(""@ =~= Seq::<char>::empty());
    }
    trasverse(ele, 0, ("", ""))
}

/// Writes the tree one tag to a line: two spaces of indent for each level,
/// and a carriage return and a line feed behind every tag.
pub fn stringify_pretty(ele: &Element) -> (r: String)
    ensures
        r@ == render(ele@, 0, seq![' ', ' '], seq!['\r', '\n']),
{
    proof {
        reveal_strlit("  ");
        reveal_strlit("\r\n");
        assert("  "@ =~= seq![' ', ' ']);
        assert("\r\n"@ =~= seq!['\r', '\n']);
    }
    trasverse(ele, 0, ("  ", "\r\n"))
}

} // verus!
