//! Conversion between free-form lists of reference designators, as found on
//! schematics and bills of material ("R5, R1, (R2), R3"), and their compact
//! form with ranges and parenthesised groups ("R1~3,5").
//!
//! [`parser`] reads a free-form text and gives the designators that it
//! names; [`builder`] writes a list of designators as a compact text.  Both
//! rest on [`designator`], the value type of a reference designator.
//!
//! The parser works in steps: [`lexer`] turns the text into tokens of
//! [`token`], [`passes`] bring the tokens into their canonical form, and
//! [`materialize`] turns the canonical tokens into designators.
//!
//! Three modules hold no code that runs, only what is shown of the other
//! modules: [`chunks`] and [`ranges`] of the passes of the parser, and
//! [`round_trip`] of the parser and the builder together.

pub mod builder;
pub mod chunks;
pub mod designator;
pub mod lexer;
pub mod materialize;
pub mod order;
pub mod parser;
pub mod passes;
pub mod ranges;
pub mod round_trip;
pub mod text;
pub mod token;
