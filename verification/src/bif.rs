//! The built-in functions: native primitives that bytecode calls through
//! the exports table.
pub mod binary;
pub mod dtrace;
pub mod load;
pub mod maps;
pub mod timer;
