//! Column extraction for delimiter-separated text: a table model, a parser,
//! a column projector and a renderer, all verified.

pub mod text;
pub mod table;
pub mod laws;
pub mod options;
pub mod cut;
