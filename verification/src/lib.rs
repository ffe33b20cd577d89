//! A pretty-printing core.
//!
//! A document is a tree of layout primitives: texts, lines, groups,
//! indentation. `render` lays a document out within a print width: a group
//! is written on one line if it fits and is broken into lines if not. The
//! builders in `function_parameters` and `object` make the documents of
//! parameter lists and of object-like containers; `number` gives numeric
//! literals their canonical form; `rule_docs` computes the texts of a lint
//! rule's page that follow from the rule's name.
//!
//! What the printer computes is defined in `layout`, as mathematics; the
//! modules `breaks`, `flat` and `unbreakable` prove what holds of it, the
//! modules `digits` and `stable` what holds of the canonical form of a
//! literal.

pub mod ast;
pub mod breaks;
pub mod context;
pub mod digits;
pub mod doc;
pub mod flat;
pub mod function_parameters;
pub mod layout;
pub mod number;
pub mod object;
pub mod options;
pub mod printer;
pub mod render;
pub mod rule_docs;
pub mod source;
pub mod stable;
pub mod unbreakable;
