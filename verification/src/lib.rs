//! Reads a build description in Makefile syntax and turns it into a
//! dependency graph.
//!
//! The text is first parsed into a [`types::Makefile`]: its variable
//! assignments and its rules, each in source order. The rules are then
//! turned into a directed acyclic graph whose nodes are the names of targets
//! and prerequisites and whose edges run from a target to each of its
//! prerequisites.
//!
//! Every parser states, over the characters of its input, exactly what it
//! returns; [`grammar`] holds the definitions those statements are made of,
//! and [`laws`] what follows from them for every text. [`graph`] states
//! which graph comes of which rules, over the chains of links that
//! [`reach`] defines.
//!
//! - [`types`]: variables, rules, and what a build description holds.
//! - [`error`]: the mismatch that a parser reports.
//! - [`grammar`]: the grammar, over sequences of characters.
//! - [`encoding`]: how runs of characters show in the bytes of a text.
//! - [`text`]: the recognisers that the parsers are put together from.
//! - [`parser`]: the parsers.
//! - [`laws`]: what is read back from what is written.
//! - [`reach`]: chains of links, and lists of links without a cycle.
//! - [`graph`]: the dependency graph and how it is built.
pub mod encoding;
pub mod error;
pub mod grammar;
pub mod graph;
pub mod laws;
pub mod parser;
pub mod reach;
pub mod text;
pub mod types;
