//! A typed intermediate language (MIR) and the instruction listing of its
//! stack machine, with verified contracts.
pub mod text;
pub mod code;
pub mod mir;
pub mod mir_print;
