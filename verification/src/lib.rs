//! Core of a toy document-rendering pipeline: a markup parser that builds a
//! document tree, a stylesheet parser that builds an ordered list of rules,
//! and a selector-matching and specificity-resolution engine that cascades
//! declarations onto each element of the tree.

pub mod chars;
pub mod css;
pub mod cssparse;
pub mod dom;
pub mod error;
pub mod markup;
pub mod style;
