//! The tree of a parsed markup document: elements with a name, attributes
//! and ordered children.

use vstd::prelude::*;
use vstd::slice::slice_subrange;
use vstd::string::*;

verus! {

/// One attribute of an element.
#[derive(Clone, Debug, PartialEq, Eq)]
pub struct Attribute {
    pub name: String,
    pub value: String,
}

/// One child of an element.
#[derive(Debug, PartialEq, Eq)]
pub enum XmlNode {
    Element(Element),
    Comment(String),
    CData(String),
    Text(String),
    ProcessingInstruction(String, Option<String>),
}

/// An element of the document.
#[derive(Debug, PartialEq, Eq)]
pub struct Element {
    pub name: String,
    pub attributes: Vec<Attribute>,
    pub children: Vec<XmlNode>,
}

/// `node` is an element called `name`.
pub open spec fn is_element_named(node: XmlNode, name: Seq<char>) -> bool {
    node is Element && node->Element_0.name@ == name
}

/// The first element among `children` that is called `name`.
pub open spec fn first_child_named(children: Seq<XmlNode>, name: Seq<char>) -> Option<Element>
    decreases children.len(),
{
    if children.len() == 0 {
        None
    } else if is_element_named(children[0], name) {
        Some(children[0]->Element_0)
    } else {
        first_child_named(children.drop_first(), name)
    }
}

/// The characters that a child contributes to the text of its parent: those
/// of a text or character-data node, none of any other node.
pub open spec fn text_piece(node: XmlNode) -> Seq<char> {
    match node {
        XmlNode::Text(s) => s@,
        XmlNode::CData(s) => s@,
        _ => Seq::<char>::empty(),
    }
}

/// `node` is a text or character-data node.
pub open spec fn is_text_node(node: XmlNode) -> bool {
    node is Text || node is CData
}

/// The text pieces of all `children`, joined in order.
pub open spec fn joined_text(children: Seq<XmlNode>) -> Seq<char>
    decreases children.len(),
{
    if children.len() == 0 {
        Seq::<char>::empty()
    } else {
        joined_text(children.drop_last()) + text_piece(children.last())
    }
}

/// Some child is a text or character-data node.
pub open spec fn has_text(children: Seq<XmlNode>) -> bool {
    exists|i: int| 0 <= i < children.len() && is_text_node(#[trigger] children[i])
}

/// The inner text of an element with these children: the text and
/// character-data nodes joined, or `None` where there is no such node.
pub open spec fn text_of(children: Seq<XmlNode>) -> Option<Seq<char>> {
    if has_text(children) {
        Some(joined_text(children))
    } else {
        None
    }
}

/// The value of the first attribute called `name`.
pub open spec fn first_attribute(attributes: Seq<Attribute>, name: Seq<char>) -> Option<
    Seq<char>,
>
    decreases attributes.len(),
{
    if attributes.len() == 0 {
        None
    } else if attributes[0].name@ == name {
        Some(attributes[0].value@)
    } else {
        first_attribute(attributes.drop_first(), name)
    }
}

/// The byte that ends a line.
pub const NEWLINE: u8 = 10;

/// The length of the first line of `bytes`, its newline included; the
/// length of `bytes` where there is no newline.
pub open spec fn first_line_len(bytes: Seq<u8>) -> int
    decreases bytes.len(),
{
    if bytes.len() == 0 {
        0
    } else if bytes[0] == NEWLINE {
        1
    } else {
        1 + first_line_len(bytes.drop_first())
    }
}

/// Drops the first line of a file, which holds the declaration that stands
/// before the document proper.
pub fn strip_prolog(contents: &[u8]) -> (body: &[u8])
    ensures
        0 <= first_line_len(contents@) <= contents@.len(),
        body@ == contents@.skip(first_line_len(contents@)),
{
    let mut i: usize = 0;
    proof {
        assert(contents@.skip(0) == contents@);
    }
    while i < contents.len() && contents[i] != NEWLINE
        invariant
            i <= contents.len(),
            first_line_len(contents@) == i + first_line_len(contents@.skip(i as int)),
        decreases contents.len() - i,
    {
        proof {
            assert(contents@.skip(i as int).drop_first() == contents@.skip(i + 1));
        }
        i += 1;
    }
    if i < contents.len() {
        i += 1;
    }
    slice_subrange(contents, i, contents.len())
}

impl Element {
    /// The first child element called `name`.
    pub open spec fn child(&self, name: Seq<char>) -> Option<Element> {
        first_child_named(self.children@, name)
    }

    /// The inner text of the element.
    pub open spec fn text(&self) -> Option<Seq<char>> {
        text_of(self.children@)
    }

    /// An element without attributes and children.
    pub fn new(name: &str) -> (element: Element)
        ensures
            element.name@ == name@,
            element.attributes@.len() == 0,
            element.children@.len() == 0,
    {
        Element { name: String::from_str(name), attributes: Vec::new(), children: Vec::new() }
    }

    /// Finds the first child element called `name`.
    pub fn get_child(&self, name: &str) -> (child: Option<&Element>)
        ensures
            match child {
                Some(element) => self.child(name@) == Some(*element),
                None => self.child(name@).is_none(),
            },
    {
        let wanted: String = String::from_str(name);
        let mut i: usize = 0;
        proof {
            assert(self.children@.skip(0) == self.children@);
        }
        while i < self.children.len()
            invariant
                i <= self.children.len(),
                wanted@ == name@,
                first_child_named(self.children@, name@) == first_child_named(
                    self.children@.skip(i as int),
                    name@,
                ),
            decreases self.children.len() - i,
        {
            proof {
                assert(self.children@.skip(i as int).drop_first() == self.children@.skip(i + 1));
            }
            match &self.children[i] {
                XmlNode::Element(element) => {
                    if element.name == wanted {
                        return Some(element);
                    }
                },
                _ => {},
            }
            i += 1;
        }
        None
    }

    /// Collects the inner text of the element: all its text and
    /// character-data children, joined in order.
    pub fn get_text(&self) -> (text: Option<String>)
        ensures
            match text {
                Some(t) => self.text() == Some(t@),
                None => self.text().is_none(),
            },
    {
        let mut joined: String = String::new();
        let mut found: bool = false;
        let mut i: usize = 0;
        proof {
            assert(self.children@.take(0) == Seq::<XmlNode>::empty());
        }
        while i < self.children.len()
            invariant
                i <= self.children.len(),
                joined@ == joined_text(self.children@.take(i as int)),
                found == has_text(self.children@.take(i as int)),
            decreases self.children.len() - i,
        {
            let ghost before = self.children@.take(i as int);
            let ghost after = self.children@.take(i + 1);
            proof {
                assert(after.drop_last() == before);
                assert(after.last() == self.children@[i as int]);
                if has_text(before) {
                    let k = choose|k: int| 0 <= k < before.len() && is_text_node(#[trigger] before[k]);
                    assert(is_text_node(after[k]));
                }
                if has_text(after) && !is_text_node(after.last()) {
                    let k = choose|k: int| 0 <= k < after.len() && is_text_node(#[trigger] after[k]);
                    assert(is_text_node(before[k]));
                }
            }
            match &self.children[i] {
                XmlNode::Text(s) => {
                    joined.append(s.as_str());
                    found = true;
                },
                XmlNode::CData(s) => {
                    joined.append(s.as_str());
                    found = true;
                },
                _ => {},
            }
            i += 1;
        }
        proof {
            assert(self.children@.take(i as int) == self.children@);
        }
        if found {
            Some(joined)
        } else {
            None
        }
    }

    /// Finds the value of the first attribute called `name`.
    pub fn attribute(&self, name: &str) -> (value: Option<&String>)
        ensures
            match value {
                Some(v) => first_attribute(self.attributes@, name@) == Some(v@),
                None => first_attribute(self.attributes@, name@).is_none(),
            },
    {
        let wanted: String = String::from_str(name);
        let mut i: usize = 0;
        proof {
            assert(self.attributes@.skip(0) == self.attributes@);
        }
        while i < self.attributes.len()
            invariant
                i <= self.attributes.len(),
                wanted@ == name@,
                first_attribute(self.attributes@, name@) == first_attribute(
                    self.attributes@.skip(i as int),
                    name@,
                ),
            decreases self.attributes.len() - i,
        {
            proof {
                assert(self.attributes@.skip(i as int).drop_first() == self.attributes@.skip(
                    i + 1,
                ));
            }
            if self.attributes[i].name == wanted {
                return Some(&self.attributes[i].value);
            }
            i += 1;
        }
        None
    }
}

} // verus!
