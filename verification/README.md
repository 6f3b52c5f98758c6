# protox name checking

The table of names that a protobuf file defines and imports, with duplicate
detection and scoped name resolution, verified with Verus.

- `src/naming.rs`: qualified names (`scope.name`), absolute names, enclosing scopes.
- `src/span.rs`: location spans and their byte ranges in the source text.
- `src/descriptor.rs`: the parts of a file descriptor that name checking reads.
- `src/inversion_list.rs`: the extension ranges of a message.
- `src/names.rs`: `NameMap` (add, merge, get, iter, resolve) and duplicate-name errors.
- `src/pass.rs`: the definitions a file makes, in order, and the pass that records
  them (`NameMap::from_proto`).
- `src/parsed.rs`: already checked files, looked up by name.
- `src/check.rs`: the errors a check reports.
- `app/lib.rs`: `Display`, `std::error::Error` and `miette::Diagnostic` for the errors.
