//! A pager filter for Kakoune: ANSI escapes and overstrikes are stripped from
//! text, and what they said about colours and attributes comes out as
//! range-specs over the text that is left.
//!
//! `filter` holds the filter and `model` what it does, as functions on states;
//! `laws` says what follows for every input, `sequences` what each kind of
//! character and sequence does, and `overstrikes` what becomes of characters that
//! are struck over.

pub mod args;
pub mod command;
pub mod coord;
pub mod decode;
pub mod face;
pub mod filter;
pub mod laws;
pub mod model;
pub mod overstrikes;
pub mod runs;
pub mod sequences;
pub mod sgr;
pub mod text;
