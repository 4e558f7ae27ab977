//! A small compiler and interpreter for an eight-instruction tape language.
//!
//! Source text is parsed into a tree of instructions ([`parse`]), the tree is
//! rewritten by optimization passes chosen by level ([`optimize`], [`merge`],
//! [`reduce`]), and the result is run against a ring of byte cells
//! ([`tape`]).
//!
//! Every function is specified against a mathematical model of programs
//! ([`ir`]) and of tapes and running ([`model`]).  That the passes keep the
//! meaning of a program is proved in [`merge`], [`equivalence`], [`travel`]
//! and [`optimize`].

pub mod ir;
pub mod model;
pub mod tape;
pub mod parse;
pub mod merge;
pub mod reduce;
pub mod equivalence;
pub mod travel;
pub mod optimize;
