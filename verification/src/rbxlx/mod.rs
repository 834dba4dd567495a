//! Reading Roblox place files in their XML form, and writing them back with the decompiled source
//! beside the bytecode.

pub mod boundary;
pub mod cdata;
pub mod document;

pub use cdata::build_decompiled_cdata;
