//! Bracket-construct engine of a wikitext parser.
//!
//! The engine turns markup into a tree of nodes while handling the three
//! nested bracketed constructs of the language: links `[[...]]`, templates
//! `{{...}}` and parameters `{{{...}}}`. Malformed markup never stops a
//! parse: it is recorded as a warning and its brackets become text.
//!
//! Every routine works on a shared [`state::State`] and is specified by a
//! transition on its mathematical model, [`state::StateModel`].
//!
//! - [`text`]: the text as bytes, blanks, boundaries of characters, slices.
//! - [`node`]: the nodes of the tree, the warnings, and their models.
//! - [`configuration`]: namespace names and link trail characters.
//! - [`state`]: the state of a parse and its primitives.
//! - [`link`] and [`template`]: the routines for the three constructs.
//! - [`parse`]: the parse of a whole text.
//! - [`progress`]: why every parse ends.
//! - [`spans`]: where the nodes of a parse lie.
pub mod configuration;
pub mod link;
pub mod node;
pub mod parse;
pub mod progress;
pub mod spans;
pub mod state;
pub mod template;
pub mod text;
