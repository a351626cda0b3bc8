# tachyon

The verified core of a local-first log and trace explorer, written in Verus.

- `src/` is the library. Its functions are proved against their contracts,
  apart from a few trusted wrappers named below. It holds the newline index
  over a memory-mapped file (`ingest`), the viewport (`viewport`), substring and regex matching (`matching`), the
  visible-first search with its one-pass substring scan (`search`,
  `span_scan`, `flags`), trace spans and the framing of a JSON or JSON-lines
  trace document (`trace`), the synthetic log generator (`synth`) and the
  decisions of the interactive workbench (`workbench`). The calls into
  `memchr`, `regex`, `rayon` and std that the proofs rest on are trusted
  wrappers (`external_body`), whose doc comments say what is assumed of
  them; nothing proves those claims.
- `app/` is the command-line program: argument parsing, memory mapping,
  JSON decoding of spans and printing.
- `tests/` runs the library on concrete inputs.

Verify with Verus on `src/lib.rs`; build the tests and the program with the
dependencies in `Cargo.toml`.
