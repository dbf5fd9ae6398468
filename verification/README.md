# lince

A process-memory toolkit for Linux: reading `/proc/<pid>/maps`, decoding
ELF headers, searching a process's writable memory for a value and narrowing
the hits down, and building the stub that makes a process load a library.

The library under `src/` is written in Verus; every function carries a
contract that Verus proves.

- `text`, `utils`, `command`, `comm`, `args`: strings, numerals, command lines
  and options.
- `maps`, `procmaps`, `maps_result`, `maps_nostd`, `emaps`, `nostdmaps`,
  `linux`, `region`: the readers of maps listings and the region views.
- `mem`, `scan`: chunked reading of memory and the chunk-by-chunk search.
- `scanner`: region selection, pattern search, narrowing passes, hit
  listings, symbol lookup and the loader stub.
- `sdiff`, `data`: sorted differences and compact address lists.
- `elf`: ELF32 and ELF64 headers.
- `pbar`, `gui`, `sdk`, `ext`, `windows`, `macos`, `memscan`, `decode`: the
  pieces behind the front ends.

`app/` holds the command-line and window front ends, which do the file,
terminal and process I/O and call the library for every decision; `tests/`
holds the tests.
