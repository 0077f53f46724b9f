pub mod arith;
pub mod cbms;
pub mod compiler;
pub mod parse;
pub mod wbms;
pub mod script;
