//! The element tree.

use vstd::prelude::*;
use crate::attributes::Attributes;

verus! {

/// What an element is, as a mathematical value: its tag, the mapping of its
/// attributes and the elements below it, in order.
pub struct ElementView {
    pub tag: Seq<char>,
    pub attributes: Map<Seq<char>, Seq<char>>,
    pub children: Seq<ElementView>,
}

/// One tag of the markup with what stands inside it.
///
/// The tag and the attribute values borrow from the text they were taken
/// from, so a tree lives no longer than that text. An element owns its
/// children: a tree has no cycle and no element is shared.
#[derive(Debug)]
pub struct Element<'a> {
    /// The tag name.
    pub ele_type: &'a str,
    /// The attributes, each name once.
    pub attributes: Attributes<'a>,
    /// The elements inside this one, in the order of the text.
    pub children: Vec<Element<'a>>,
}

impl<'a> View for Element<'a> {
    type V = ElementView;

    open spec fn view(&self) -> ElementView
        decreases self,
    {
        ElementView {
            tag: self.ele_type@,
            attributes: self.attributes@,
            children: views_of(self.children@),
        }
    }
}

/// The views of a list of elements, in the order of the list.
pub open spec fn views_of(elements: Seq<Element>) -> Seq<ElementView>
    decreases elements,
{
    if elements.len() == 0 {
        Seq::empty()
    } else {
        views_of(elements.drop_last()).push(elements.last()@)
    }
}

/// `views_of` goes through the list place by place.
pub proof fn lemma_views_of(elements: Seq<Element>)
    ensures
        views_of(elements).len() == elements.len(),
        forall|i: int| 0 <= i < elements.len() ==> #[trigger] views_of(elements)[i] == elements[i]@,
    decreases elements.len(),
{
    if elements.len() > 0 {
        lemma_views_of(elements.drop_last());
        assert(views_of(elements) == views_of(elements.drop_last()).push(elements.last()@));
    } else {
        assert(views_of(elements) == Seq::<ElementView>::empty());
    }
}

impl ElementView {
    /// The invariant of a tree: no element of it has an empty tag.
    pub open spec fn well_formed(self) -> bool
        decreases self,
    {
        &&& self.tag.len() > 0
        &&& forall|i: int|
            0 <= i < self.children.len() ==> (#[trigger] self.children[i]).well_formed()
    }

    /// Whether every element of the tree has finitely many attributes.
    pub open spec fn finite(self) -> bool
        decreases self,
    {
        &&& self.attributes.dom().finite()
        &&& forall|i: int| 0 <= i < self.children.len() ==> (#[trigger] self.children[i]).finite()
    }
}

/// Whether no element of the trees of a list has an empty tag.
pub open spec fn all_well_formed(elements: Seq<ElementView>) -> bool {
    forall|i: int| 0 <= i < elements.len() ==> (#[trigger] elements[i]).well_formed()
}

impl<'a> Element<'a> {
    /// An element without children, from its tag and its attributes.
    pub fn new(parts: (&'a str, Attributes<'a>)) -> (r: Element<'a>)
        ensures
            r@ == (ElementView {
                tag: parts.0@,
                attributes: parts.1@,
                children: Seq::empty(),
            }),
            r@.well_formed() <==> parts.0@.len() > 0,
    {
        let (ele_type, attributes) = parts;
        Element { ele_type, attributes, children: Vec::new() }
    }

    /// An element from its tag, its attributes and its children, which keep
    /// their order.
    pub fn new_width_children(
        parts: (&'a str, Attributes<'a>, Vec<Element<'a>>),
    ) -> (r: Element<'a>)
        ensures
            r@ == (ElementView {
                tag: parts.0@,
                attributes: parts.1@,
                children: views_of(parts.2@),
            }),
            r@.well_formed() <==> parts.0@.len() > 0 && all_well_formed(views_of(parts.2@)),
    {
        let (ele_type, attributes, children) = parts;
        let r = Element { ele_type, attributes, children };
        proof {
            let below = views_of(parts.2@);
            assert(r@.children == below);
            if all_well_formed(below) && parts.0@.len() > 0 {
                assert forall|i: int| 0 <= i < r@.children.len() implies (
                #[trigger] r@.children[i]).well_formed() by {
                    assert(below[i].well_formed());
                }
            }
            if r@.well_formed() {
                assert forall|i: int| 0 <= i < below.len() implies (
                #[trigger] below[i]).well_formed() by {
                    assert(r@.children[i].well_formed());
                }
            }
        }
        r
    }

    /// Puts `new_item` behind the children that are there.
    pub fn add_child(&mut self, new_item: Element<'a>)
        ensures
            final(self)@ == (ElementView {
                children: old(self)@.children.push(new_item@),
                ..old(self)@
            }),
            old(self)@.well_formed() && new_item@.well_formed() ==> final(self)@.well_formed(),
    {
        self.children.push(new_item);
        proof {
            assert(self.children@.drop_last() =~= old(self).children@);
        }
    }

    /// Puts `new_items`, in their order, behind the children that are there.
    pub fn add_children(&mut self, new_items: Vec<Element<'a>>)
        ensures
            final(self)@ == (ElementView {
                children: old(self)@.children + views_of(new_items@),
                ..old(self)@
            }),
            old(self)@.well_formed() && all_well_formed(views_of(new_items@))
                ==> final(self)@.well_formed(),
    {
        let mut new_items = new_items;
        let ghost added = new_items@;
        self.children.append(&mut new_items);
        proof {
            lemma_views_of_concat(old(self).children@, added);
        }
    }
}

/// The views of two lists put together are their views put together.
pub proof fn lemma_views_of_concat(front: Seq<Element>, back: Seq<Element>)
    ensures
        views_of(front + back) == views_of(front) + views_of(back),
{
    lemma_views_of(front);
    lemma_views_of(back);
    lemma_views_of(front + back);
    assert(views_of(front + back) =~= views_of(front) + views_of(back));
}

} // verus!
