# strict_writer

Strict encoding of structs, tuples, unions and enums, verified with Verus.

A `StrictWriter` counts the bytes that pass through it and turns down what would exceed its limit.
On top of it a `StructWriter` writes fields, each as its ordinal followed by the encoding of its
value, and a `UnionWriter` writes the ordinal of one of the variants that were defined for it.

- `src/sink.rs`: what a writer of bytes promises, and the writers to a vector, a counter, a sink
  and any writer that is lent
- `src/writer.rs`, `src/typed.rs`: `CountingWriter` and `StrictWriter`
- `src/ident.rs`, `src/field.rs`: names, fields, and sorted sets of fields
- `src/encode.rs`: values that can be encoded, and parents that lend their writer
- `src/structure.rs`, `src/variant.rs`: structs and tuples, unions and enums
- `src/laws.rs`: what holds of the writers as a whole
- `app/`: adapters from and to `std::io::Write`, and writers that test what their callers ask for
