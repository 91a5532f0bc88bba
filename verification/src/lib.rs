//! A small parser and serializer for a well-formed subset of SVG/XML markup.
//!
//! [`parse`] reads text into a tree of [`Element`]s, and [`stringify`] and
//! [`stringify_pretty`] write a tree back as compact or indented markup.
//! Every executable function carries a contract over the mathematical model
//! of the text (`Seq<char>`) and of the tree ([`ast::ElementView`]): the
//! parser against the rules of [`grammar`], the serializer against
//! [`stringify::render`]. What holds of the two on every input is proved in
//! [`laws`], [`trailing`] and [`roundtrip`].
//!
//! The characters of the text are told apart by `nom`, through the functions
//! of [`tokens`]; everything above them is verified.

pub mod classes;
pub mod order;
pub mod attributes;
pub mod ast;
pub mod grammar;
pub mod tokens;
pub mod parse;
pub mod stringify;
pub mod laws;
pub mod roundtrip;
pub mod trailing;

pub use crate::ast::Element;
pub use crate::attributes::{Attribute, Attributes};
pub use crate::grammar::Rule;
pub use crate::parse::{parse, ParseFailure};
pub use crate::stringify::{stringify, stringify_pretty};
