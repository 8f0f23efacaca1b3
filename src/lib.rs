//! Expands custom component tags in HTML-like documents into plain markup.
//!
//! The library works on its own document tree ([`tree::Node`]); contracts
//! speak of its ghost view ([`tree::Tree`]).
//!
//! - [`tree`]: nodes, attributes, deep copies and attribute lookup.
//! - [`text`]: character-level helpers on strings.
//! - [`expr`]: the expression language (`self.x`, `self.filepath`, `a||b`),
//!   `${...}` placeholders and whole-string pattern tests.
//! - [`instance`]: one instantiation of a component body: attribute
//!   expansion, then loops, conditionals and `self.*` elements.
//! - [`library`]: the set of components, one per tag name.
//! - [`engine`]: expansion to a fixed point, bounded by nesting depth.
//! - [`minify`]: comment removal and whitespace collapsing.
//! - [`site`]: per-document driver and the file-name rules of a site.

pub mod engine;
pub mod expr;
pub mod instance;
pub mod library;
pub mod minify;
pub mod site;
pub mod text;
pub mod tree;
