//! Core runtime of a BEAM-compatible virtual machine: bitstrings, terms,
//! persistent maps, the module and exports registry, and the built-in
//! functions that work on them.
pub mod atom;
pub mod bif;
pub mod bitstring;
pub mod exception;
pub mod exports_table;
pub mod immix;
pub mod instr_ptr;
pub mod module;
pub mod process;
pub mod regex;
pub mod value;
pub mod vm;
