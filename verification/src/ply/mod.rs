//! The PLY point format: its header, its vertex records, and the order in
//! which a set of files is read.

pub mod color;
pub mod fault;
pub mod header;
pub mod reader;
pub mod run;
pub mod scalar;
pub mod types;
pub mod vertex;
pub mod written;
