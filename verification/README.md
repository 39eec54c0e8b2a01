# atari_8bit_tools

Tools for building Atari 8-bit programs, written in Verus: the library in
`src/` is verified, the command line and file handling in `app/` is plain Rust
around it.

- `src/assembler/format.rs`: the assembler source formatter (`format_source`),
  with the line parser (`parse`) and brace counting (`braces`).
- `src/kick_assembler/`: reading what KickAssembler produces: the memory map it
  prints (`read_memory_map`), the symbol file (`Symbols::parse`, `Symbols::get`)
  and the program file (`Prg::from_file_bytes`).
- `src/xex/`: writing xex files (`XexFile`) from segments (`Segment`), with the
  proof that a written file reads back as its segments.
- `src/text.rs`: character and line helpers shared by the above.
- `tests/`: tests on concrete values.
- `app/`: the command line, process launching and file I/O.
