//! Verified solvers for four small text puzzles: calibration lines, colour
//! records, engine schematics and scratch cards.
//!
//! Every solver is a pure function from a block of text to one or two
//! numbers. Each module states its results over sequences of characters and
//! proves that the executable code computes them.

pub mod calibration;
pub mod cards;
pub mod grid;
pub mod parts;
pub mod record_parser;
pub mod record_text;
pub mod records;
pub mod scan;
pub mod schematic;
pub mod text;
