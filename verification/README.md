# rvet

A command line tool for inspecting and processing traces in the RISC-V
Efficient Trace (E-Trace) instruction tracing format: it displays
the payloads of a single HART, traces a single HART, converts a trace into
CSV, writes a profile in the callgrind format and gathers packet statistics.

The logic of the tool is a library verified with Verus:

* `src/reader.rs`: buffering of the trace file with look-ahead, decoding of
  packet headers (through the `riscv-etrace` crate), the decision what to do
  after an attempt to decode a packet, and the routing of payloads to a
  single source or to one worker per source,
* `src/stack.rs`: call stack reconstruction from retired instructions,
* `src/pretty.rs`, `src/csv.rs`, `src/text.rs`: rendering of tracing items as
  pretty text and as CSV lines,
* `src/stat.rs`: packet statistics,
* `src/profile.rs` and `src/profile/callgrind.rs`: profiles per call stack
  and their callgrind rendering,
* `src/binary.rs`, `src/symbols.rs`: code options and their messages,
  placement of binaries (reading the ELF file header through the `elf` crate
  and checking it with `riscv-etrace`), symbols from ELF symbol table entries
  (section addresses and names read through the `elf` crate) and symbol
  lookup.

`app/` holds the command line front end: argument parsing, file I/O, payload
decoding and tracing with the `riscv-etrace` crate, walking the entries of ELF
symbol tables, threads and table output.
