//! A small turtle-graphics interpreter: a parser for a Logo-like command
//! language and a drawing cursor that executes the parsed commands.

pub mod point;
pub mod text;
pub mod turning_direction;
pub mod direction;
pub mod error;
pub mod chunks;
pub mod command;
pub mod cursor;
pub mod program;
