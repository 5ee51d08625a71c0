# chiptool

A verified library for the register maps of chips, and a thin command line around
it.

- `src/ir.rs`, `src/name_map.rs`: the register map, and the ordered map by name
  that it is made of.
- `src/text.rs`, `src/seqs.rs`, `src/patterns.rs`: operations on text, sequences
  and regular expressions.
- `src/commands/compat.rs`, `compat_error.rs`, `nesting.rs`: how two blocks or
  fieldsets differ, in words too, and whether a comparison comes to an end.
- `src/commands/check_compat.rs`: which items are compared, and the report.
- `src/commands/mux.rs`, `generate.rs`: the code that selects the mode of a pad,
  and the steps of a generation.
- `src/transform/`: sanitizing the names of a register map.
- `src/**/*_laws.rs`: what holds of these functions together.
- `app/`: arguments, files, logging, printing and serialization.

Functions of `regex`, `inflections` and the standard library that the proofs rely
on are declared next to their use, each with what is assumed of it.
