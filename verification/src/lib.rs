//! Position-indexed binding resolution and byte-exact rewriting of Nix sources.
//!
//! A request names a binding by the line and column at which it starts and gives
//! the literal value it should have. The library finds the binding in the syntax
//! tree, follows aliases and string interpolations down to the literal bindings
//! behind it, and rewrites exactly those bindings, leaving every other byte of
//! the file as it was.
//!
//! Text is handled as bytes throughout; it is UTF-8 by convention.
//!
//! The way of a request through the modules:
//!
//! - `request` puts the requests of a run in order and splits them by file;
//! - `parse` turns the text of a file into a `tree`, after `scan` has made
//!   sure that the tokenizer gets through the text;
//! - `locate` finds the node at the position of a request;
//! - `scope` finds the binding that the node stands for, and the bindings that
//!   names refer to;
//! - `resolve` follows the binding to the literals behind it, with `pattern`,
//!   `capture` and `escape` to take interpolations apart;
//! - `plan` orders the edits found and checks that they agree;
//! - `rewrite` writes the text anew;
//! - `update` does all of this for one file, and `diff` says what changed.

pub mod capture;
pub mod diff;
pub mod error;
pub mod escape;
pub mod locate;
pub mod parse;
pub mod pattern;
pub mod plan;
pub mod request;
pub mod resolve;
pub mod rewrite;
pub mod scan;
pub mod scope;
pub mod text;
pub mod tree;
pub mod update;
