//! Process-memory inspection toolkit: `/proc/<pid>/maps` parsing, ELF header
//! decoding, compact address lists and chunked memory scanning.

pub mod text;
pub mod error;
pub mod utils;
pub mod maps;
pub mod procmaps;
pub mod maps_result;
pub mod maps_nostd;
pub mod emaps;
pub mod nostdmaps;
pub mod data;
pub mod elf;
pub mod mem;
pub mod region;
pub mod linux;
pub mod scan;
pub mod sdiff;
pub mod args;
pub mod ext;
pub mod windows;
pub mod macos;
pub mod scanner;
pub mod sdk;
pub mod pbar;
pub mod memscan;
pub mod command;
pub mod gui;
pub mod decode;
pub mod comm;
