//! A plain, owned model of a parsed XML document and the read-only queries
//! that the converter makes on it.
use vstd::prelude::*;

verus! {

broadcast use vstd::std_specs::vec::group_vec_axioms;

/// One attribute of an element, by local name (namespace prefixes removed).
#[derive(Debug, PartialEq)]
pub struct XmlAttribute {
    pub name: String,
    pub value: String,
}

/// An element: its local name, its attributes and its children in document order.
#[derive(Debug, PartialEq)]
pub struct XmlElement {
    pub name: String,
    pub attributes: Vec<XmlAttribute>,
    pub children: Vec<XmlNode>,
}

/// A child of an element: another element, a text node, or anything else
/// (a comment or a processing instruction).
#[derive(Debug, PartialEq)]
pub enum XmlNode {
    Element(XmlElement),
    Text(String),
    Other,
}

/// A whole document: the nodes directly under its root.
#[derive(Debug, PartialEq)]
pub struct XmlDocument {
    pub children: Vec<XmlNode>,
}

pub open spec fn is_element_named(n: XmlNode, name: Seq<char>) -> bool {
    n is Element && n->Element_0.name@ == name
}

/// Index of the first element named `name` among `cs[i..]`.
pub open spec fn find_named(cs: Seq<XmlNode>, name: Seq<char>, i: int) -> Option<int>
    decreases cs.len() - i,
{
    if i < 0 || i >= cs.len() {
        None
    } else if is_element_named(cs[i], name) {
        Some(i)
    } else {
        find_named(cs, name, i + 1)
    }
}

/// Index of the first element, whatever its name, among `cs[i..]`.
pub open spec fn find_element(cs: Seq<XmlNode>, i: int) -> Option<int>
    decreases cs.len() - i,
{
    if i < 0 || i >= cs.len() {
        None
    } else if cs[i] is Element {
        Some(i)
    } else {
        find_element(cs, i + 1)
    }
}

/// Index of the first attribute named `name` among `attrs[i..]`.
pub open spec fn find_attribute(attrs: Seq<XmlAttribute>, name: Seq<char>, i: int) -> Option<int>
    decreases attrs.len() - i,
{
    if i < 0 || i >= attrs.len() {
        None
    } else if attrs[i].name@ == name {
        Some(i)
    } else {
        find_attribute(attrs, name, i + 1)
    }
}

/// The value of the first attribute of `el` named `name`.
pub open spec fn attribute_value(el: XmlElement, name: Seq<char>) -> Option<Seq<char>> {
    match find_attribute(el.attributes@, name, 0) {
        Some(i) => Some(el.attributes@[i].value@),
        None => None,
    }
}

/// The first child element of `el`, whatever its name.
pub open spec fn first_child_element(el: XmlElement) -> Option<XmlElement> {
    match find_element(el.children@, 0) {
        Some(i) => Some(el.children@[i]->Element_0),
        None => None,
    }
}

/// The block that follows `el` in its chain: the first `block` child of the
/// first `next` child of `el`.
pub open spec fn next_block(el: XmlElement) -> Option<XmlElement> {
    match find_named(el.children@, "next"@, 0) {
        Some(i) => {
            let n = el.children@[i]->Element_0;
            match find_named(n.children@, "block"@, 0) {
                Some(j) => Some(n.children@[j]->Element_0),
                None => None,
            }
        },
        None => None,
    }
}

/// The chain of blocks that starts at `el` and follows `next` links.
pub open spec fn chain(el: XmlElement) -> Seq<XmlElement>
    decreases el,
    via chain_decreases
{
    match next_block(el) {
        Some(n) => seq![el] + chain(n),
        None => seq![el],
    }
}

#[via_fn]
proof fn chain_decreases(el: XmlElement) {
    lemma_next_block_smaller(el);
}

pub proof fn lemma_find_named(cs: Seq<XmlNode>, name: Seq<char>, i: int)
    ensures
        find_named(cs, name, i) matches Some(k) ==> i <= k < cs.len() && is_element_named(cs[k], name),
        0 <= i && find_named(cs, name, i) is None ==> forall|k: int| i <= k < cs.len() ==> !is_element_named(#[trigger] cs[k], name),
    decreases cs.len() - i,
{
    if 0 <= i < cs.len() && !is_element_named(cs[i], name) {
        lemma_find_named(cs, name, i + 1);
    }
}

pub proof fn lemma_find_element(cs: Seq<XmlNode>, i: int)
    ensures
        find_element(cs, i) matches Some(k) ==> i <= k < cs.len() && cs[k] is Element,
    decreases cs.len() - i,
{
    if 0 <= i < cs.len() && !(cs[i] is Element) {
        lemma_find_element(cs, i + 1);
    }
}

pub proof fn lemma_find_attribute(attrs: Seq<XmlAttribute>, name: Seq<char>, i: int)
    ensures
        find_attribute(attrs, name, i) matches Some(k) ==> i <= k < attrs.len() && attrs[k].name@ == name,
    decreases attrs.len() - i,
{
    if 0 <= i < attrs.len() && attrs[i].name@ != name {
        lemma_find_attribute(attrs, name, i + 1);
    }
}

pub proof fn lemma_child_smaller(el: XmlElement, k: int)
    requires
        0 <= k < el.children@.len(),
        el.children@[k] is Element,
    ensures
        decreases_to!(el => el.children@[k]->Element_0),
{
    assert(decreases_to!(el => el.children));
    assert(decreases_to!(el.children => el.children@[k]));
    assert(decreases_to!(el.children@[k] => el.children@[k]->Element_0));
}

pub proof fn lemma_first_child_smaller(el: XmlElement)
    ensures
        first_child_element(el) matches Some(c) ==> decreases_to!(el => c),
{
    lemma_find_element(el.children@, 0);
    if let Some(k) = find_element(el.children@, 0) {
        lemma_child_smaller(el, k);
    }
}

pub proof fn lemma_next_block_smaller(el: XmlElement)
    ensures
        next_block(el) matches Some(n) ==> decreases_to!(el => n),
{
    lemma_find_named(el.children@, "next"@, 0);
    if let Some(i) = find_named(el.children@, "next"@, 0) {
        let nx = el.children@[i]->Element_0;
        lemma_child_smaller(el, i);
        lemma_find_named(nx.children@, "block"@, 0);
        if let Some(j) = find_named(nx.children@, "block"@, 0) {
            lemma_child_smaller(nx, j);
        }
    }
}

/// Whether `s` holds exactly the characters of `tag`.
pub fn name_is(s: &String, tag: &str) -> (r: bool)
    ensures
        r == (s@ == tag@),
{
    let t: String = tag.to_owned();
    *s == t
}

/// Index of the first child element of `el` named `tag`, from index `from` on.
pub fn find_child_named(el: &XmlElement, tag: &str, from: usize) -> (r: Option<usize>)
    ensures
        r matches Some(k) ==> find_named(el.children@, tag@, from as int) == Some(k as int),
        r is None ==> find_named(el.children@, tag@, from as int) is None,
{
    let mut i: usize = from;
    while i < el.children.len()
        invariant
            from <= i,
            find_named(el.children@, tag@, from as int) == find_named(el.children@, tag@, i as int),
        decreases el.children.len() - i,
    {
        if let XmlNode::Element(c) = &el.children[i] {
            if name_is(&c.name, tag) {
                return Some(i);
            }
        }
        i = i + 1;
    }
    None
}

/// The value of the first attribute of `element` named `attribute_name`.
pub fn get_attribute(element: &XmlElement, attribute_name: &str) -> (r: Option<String>)
    ensures
        r matches Some(v) ==> attribute_value(*element, attribute_name@) == Some(v@),
        r is None ==> attribute_value(*element, attribute_name@) is None,
{
    let mut i: usize = 0;
    while i < element.attributes.len()
        invariant
            find_attribute(element.attributes@, attribute_name@, 0) == find_attribute(
                element.attributes@,
                attribute_name@,
                i as int,
            ),
        decreases element.attributes.len() - i,
    {
        let a = &element.attributes[i];
        if name_is(&a.name, attribute_name) {
            return Some(a.value.clone());
        }
        i = i + 1;
    }
    None
}

/// The first child element of `element`, whatever its name.
pub fn get_first_child_element(element: &XmlElement) -> (r: Option<&XmlElement>)
    ensures
        r matches Some(c) ==> first_child_element(*element) == Some(*c),
        r is None ==> first_child_element(*element) is None,
{
    let mut i: usize = 0;
    while i < element.children.len()
        invariant
            find_element(element.children@, 0) == find_element(element.children@, i as int),
        decreases element.children.len() - i,
    {
        if let XmlNode::Element(c) = &element.children[i] {
            return Some(c);
        }
        i = i + 1;
    }
    None
}

/// The block that follows `block_el` in its chain: the first `block` child of
/// its first `next` child. Later `next` children are not looked at.
pub fn get_next_block_element(block_el: &XmlElement) -> (r: Option<&XmlElement>)
    ensures
        r matches Some(n) ==> next_block(*block_el) == Some(*n),
        r is None ==> next_block(*block_el) is None,
{
    proof {
        lemma_find_named(block_el.children@, "next"@, 0);
    }
    match find_child_named(block_el, "next", 0) {
        Some(i) => {
            if let XmlNode::Element(next_el) = &block_el.children[i] {
                proof {
                    lemma_find_named(next_el.children@, "block"@, 0);
                }
                match find_child_named(next_el, "block", 0) {
                    Some(j) => {
                        if let XmlNode::Element(b) = &next_el.children[j] {
                            Some(b)
                        } else {
                            None
                        }
                    },
                    None => None,
                }
            } else {
                None
            }
        },
        None => None,
    }
}

} // verus!
