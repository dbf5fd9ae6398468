//! Decoding of ELF file, program and section headers.

pub mod elf32;
pub mod elf64;
pub mod util;
