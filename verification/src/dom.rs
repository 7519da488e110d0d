//! Document tree: text and element nodes, and the attribute map of an
//! element. The tree is built bottom-up by the markup parser and never
//! changed afterwards.

use vstd::prelude::*;
use crate::chars::{split_tokens, split_ws_tokens, str_eq};

verus! {

/// An attribute mapping from name to value. A later write to the same
/// name replaces the earlier one.
#[derive(Debug)]
pub struct AttrMap {
    entries: Vec<(String, String)>,
}

/// The mapping held by a sequence of name/value pairs, later pairs
/// overriding earlier ones.
pub open spec fn string_map_of(entries: Seq<(String, String)>) -> Map<Seq<char>, Seq<char>>
    decreases entries.len(),
{
    if entries.len() == 0 {
        Map::empty()
    } else {
        string_map_of(entries.drop_last()).insert(entries.last().0@, entries.last().1@)
    }
}

impl View for AttrMap {
    type V = Map<Seq<char>, Seq<char>>;

    closed spec fn view(&self) -> Map<Seq<char>, Seq<char>> {
        string_map_of(self.entries@)
    }
}

impl AttrMap {
    /// An empty attribute map.
    pub fn new() -> (r: Self)
        ensures
            r@ == Map::<Seq<char>, Seq<char>>::empty(),
    {
        AttrMap { entries: Vec::new() }
    }

    /// Binds `name` to `value`, replacing any earlier binding of `name`.
    pub fn insert(&mut self, name: String, value: String)
        ensures
            final(self)@ == old(self)@.insert(name@, value@),
    {
        proof {
            assert(old(self).entries@.push((name, value)).drop_last() =~= old(self).entries@);
        }
        self.entries.push((name, value));
    }

    /// The value bound to `name`, if any.
    pub fn get(&self, name: &str) -> (r: Option<&String>)
        ensures
            match r {
                Some(v) => self@.contains_key(name@) && v@ == self@[name@],
                None => !self@.contains_key(name@),
            },
    {
        let mut i: usize = self.entries.len();
        proof {
            assert(self.entries@.subrange(0, self.entries@.len() as int) =~= self.entries@);
        }
        while i > 0
            invariant
                i <= self.entries@.len(),
                self@.contains_key(name@) == string_map_of(
                    self.entries@.subrange(0, i as int),
                ).contains_key(name@),
                self@.contains_key(name@) ==> self@[name@] == string_map_of(
                    self.entries@.subrange(0, i as int),
                )[name@],
            decreases i,
        {
            proof {
                let pre = self.entries@.subrange(0, i as int);
                assert(pre.drop_last() =~= self.entries@.subrange(0, i - 1));
                assert(pre.last() == self.entries@[i - 1]);
            }
            let e = &self.entries[i - 1];
            if str_eq(e.0.as_str(), name) {
                return Some(&e.1);
            }
            i -= 1;
        }
        proof {
            assert(self.entries@.subrange(0, 0) =~= Seq::<(String, String)>::empty());
        }
        None
    }
}

/// The data of an element node: its tag name and its attributes.
#[derive(Debug)]
pub struct ElementData {
    pub tag_name: String,
    pub attributes: AttrMap,
}

/// The two node kinds of the document tree.
#[derive(Debug)]
pub enum NodeType {
    Text(String),
    Element(ElementData),
}

/// A document tree node: its ordered children and its kind.
#[derive(Debug)]
pub struct Node {
    pub children: Vec<Node>,
    pub node_type: NodeType,
}

/// The class names of an element: the whitespace-separated tokens of
/// its `class` attribute value; an absent attribute yields no classes.
pub open spec fn elem_class_seq(ed: ElementData) -> Seq<Seq<char>> {
    if ed.attributes@.contains_key("class"@) {
        split_tokens(ed.attributes@["class"@])
    } else {
        Seq::empty()
    }
}

impl ElementData {
    /// The element's `id` attribute value, if present.
    pub fn id(&self) -> (r: Option<&String>)
        ensures
            match r {
                Some(v) => self.attributes@.contains_key("id"@) && v@ == self.attributes@["id"@],
                None => !self.attributes@.contains_key("id"@),
            },
    {
        self.attributes.get("id")
    }

    /// The element's class names: the whitespace-separated tokens of its
    /// `class` attribute value, in order, with no empty tokens.
    pub fn classes(&self) -> (r: Vec<String>)
        ensures
            r@.len() == elem_class_seq(*self).len(),
            forall|k: int| 0 <= k < r@.len() ==> r@[k]@ == elem_class_seq(*self)[k],
    {
        match self.attributes.get("class") {
            Some(classlist) => split_ws_tokens(classlist.as_str()),
            None => Vec::new(),
        }
    }
}

/// A text node holding `data`, with no children.
pub fn text(data: String) -> (r: Node)
    ensures
        r.children@.len() == 0,
        r.node_type == NodeType::Text(data),
{
    Node { children: Vec::new(), node_type: NodeType::Text(data) }
}

/// An element node with the given tag name, attributes and children.
pub fn elem(name: String, attrs: AttrMap, children: Vec<Node>) -> (r: Node)
    ensures
        r.children == children,
        r.node_type == (NodeType::Element(ElementData { tag_name: name, attributes: attrs })),
{
    Node { children, node_type: NodeType::Element(ElementData { tag_name: name, attributes: attrs }) }
}

} // verus!
