//! Verified core of a command line tool for RISC-V E-Trace files

pub mod text;
pub mod stack;
pub mod profile;
pub mod item;
pub mod csv;
pub mod pretty;
pub mod stat;
pub mod util;
pub mod reader;
pub mod symbols;
pub mod binary;
pub mod cli;
