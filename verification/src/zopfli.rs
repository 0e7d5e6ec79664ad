//! Constants and tables of the DEFLATE format.

pub mod symbols;
