//! Stylesheet data model: values, declarations, selectors, rules, and the
//! specificity triple that orders competing selectors.

use vstd::prelude::*;

verus! {

/// The unit of a length value.
#[derive(Clone, Copy, Debug, PartialEq, Eq, Structural)]
pub enum Unit {
    Px,
}

/// An RGBA color with four 8-bit channels.
#[derive(Clone, Copy, Debug, PartialEq, Eq, Structural)]
pub struct Color {
    pub r: u8,
    pub g: u8,
    pub b: u8,
    pub a: u8,
}

/// A property value: a keyword, a whole-number length with a unit, or a
/// color.
#[derive(Debug)]
pub enum Value {
    Keyword(String),
    Length(u64, Unit),
    ColorValue(Color),
}

/// Mathematical image of a `Value`: the keyword string becomes its
/// character sequence, the other variants carry plain data already.
pub enum ValueV {
    Keyword(Seq<char>),
    Length(u64, Unit),
    ColorValue(Color),
}

impl View for Value {
    type V = ValueV;

    open spec fn view(&self) -> ValueV {
        match self {
            Value::Keyword(s) => ValueV::Keyword(s@),
            Value::Length(n, u) => ValueV::Length(*n, *u),
            Value::ColorValue(c) => ValueV::ColorValue(*c),
        }
    }
}

impl Clone for Value {
    fn clone(&self) -> (r: Self)
        ensures
            r@ == self@,
    {
        match self {
            Value::Keyword(s) => Value::Keyword(s.clone()),
            Value::Length(n, u) => Value::Length(*n, *u),
            Value::ColorValue(c) => Value::ColorValue(*c),
        }
    }
}

/// One `name: value` pair of a rule body.
#[derive(Debug)]
pub struct Declaration {
    pub name: String,
    pub value: Value,
}

impl Clone for Declaration {
    fn clone(&self) -> (r: Self)
        ensures
            r.name@ == self.name@,
            r.value@ == self.value@,
    {
        Declaration { name: self.name.clone(), value: self.value.clone() }
    }
}

/// A simple selector: an optional tag-name constraint, an optional id
/// constraint, and a set of required class names.
#[derive(Debug)]
pub struct SimpleSelector {
    pub tag_name: Option<String>,
    pub id: Option<String>,
    pub class: Vec<String>,
}

/// A selector; the only supported variant is the simple selector.
#[derive(Debug)]
pub enum Selector {
    Simple(SimpleSelector),
}

/// The priority triple (id-count, class-count, tag-count), compared
/// lexicographically: the id count dominates, then the class count, then
/// the tag count.
pub type Specificity = (usize, usize, usize);

/// The specificity of a selector: one point in the first slot if an id
/// constraint is present, one point per required class in the second, one
/// point in the third if a tag-name constraint is present.
pub open spec fn spec_specificity(s: Selector) -> Specificity {
    match s {
        Selector::Simple(ss) => (
            if ss.id is Some {
                1usize
            } else {
                0usize
            },
            ss.class@.len() as usize,
            if ss.tag_name is Some {
                1usize
            } else {
                0usize
            },
        ),
    }
}

/// Strict lexicographic order on specificity triples.
pub open spec fn spec_lt(a: Specificity, b: Specificity) -> bool {
    a.0 < b.0 || (a.0 == b.0 && (a.1 < b.1 || (a.1 == b.1 && a.2 < b.2)))
}

/// Non-strict lexicographic order on specificity triples.
pub open spec fn spec_le(a: Specificity, b: Specificity) -> bool {
    spec_lt(a, b) || a == b
}

impl Selector {
    /// The (id, class, tag) specificity triple of this selector.
    pub fn specificity(&self) -> (r: Specificity)
        ensures
            r == spec_specificity(*self),
    {
        let Selector::Simple(simple) = self;
        let a: usize = if simple.id.is_some() {
            1
        } else {
            0
        };
        let b: usize = simple.class.len();
        let c: usize = if simple.tag_name.is_some() {
            1
        } else {
            0
        };
        (a, b, c)
    }
}

/// Decides the strict lexicographic order on specificity triples.
pub fn specificity_lt(a: &Specificity, b: &Specificity) -> (r: bool)
    ensures
        r == spec_lt(*a, *b),
{
    a.0 < b.0 || (a.0 == b.0 && (a.1 < b.1 || (a.1 == b.1 && a.2 < b.2)))
}

/// A rule: any one matching selector makes the rule eligible, and then all
/// of its declarations apply together, in source order.
#[derive(Debug)]
pub struct Rule {
    pub selectors: Vec<Selector>,
    pub declarations: Vec<Declaration>,
}

/// An ordered sequence of rules; the order is the source-position tiebreak
/// of the cascade.
#[derive(Debug)]
pub struct Stylesheet {
    pub rules: Vec<Rule>,
}

} // verus!
