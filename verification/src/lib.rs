//! Verified core of `tr`: translating, squeezing and deleting characters.

pub mod args;
pub mod char_map;
pub mod class;
pub mod complement;
pub mod construct;
pub mod escape;
pub mod laws;
pub mod laws_of_parts;
pub mod laws_of_runs;
pub mod laws_of_writing;
pub mod numeral;
pub mod operand;
pub mod parse;
pub mod range;
pub mod scanner;
pub mod sort;
pub mod squeeze;
pub mod text;
pub mod translate;
pub mod tr;
pub mod warning;
