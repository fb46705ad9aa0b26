//! A small shell core: a quoting-aware tokenizer and a terminating alias
//! expander, with their behaviour stated as contracts and proved.

pub mod aliases;
pub mod expansion;
pub mod lexer;
pub mod shell;
pub mod utilities;
