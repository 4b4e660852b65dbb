//! A small static linker for 64-bit ELF relocatable objects: a strict
//! decoder, a logical model of sections, symbols and relocations, a link
//! engine that merges object files, and an encoder.

pub mod bytes;
pub mod strtab;
pub mod parse;
pub mod relocation;
pub mod section;
pub mod symbol;
pub mod elf;
pub mod utils;
pub mod link;
pub mod write;
pub mod roundtrip;
pub mod program_header;
pub mod symbol_iter;
