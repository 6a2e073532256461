//! Rule semantics engine for interactively curating an ignore-rule file:
//! parsing ordered rules, applying them over a flat preorder snapshot of a
//! directory tree, keeping per-directory aggregates, toggling marks and
//! regenerating the rule file from the resulting tree.

pub mod aggregate;
pub mod engine;
pub mod generic;
pub mod laws;
pub mod model;
pub mod rules;
pub mod serializer;
pub mod text;
pub mod toggle;
pub mod tree;
pub mod untrack;
pub mod viewport;
