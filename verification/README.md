# cddlc

The verified core of `cddlc`, a compiler from CDDL schemas to
serializers and deserializers.

- `src/` is the library, checked by Verus:
  - `loader` follows `@import` pragmas depth-first from an entry file,
    detects import cycles, loads every file once, and merges rules with
    dependencies first. The loader is a state machine that asks its caller
    to read files and to probe the locations where an import may be: the
    importing file's directory first, then each include directory.
  - `merge` combines the modules loaded from several entry files.
  - `args`, `generate` hold the command line, the option checks and the
    options handed to a code generator.
  - `validate` decodes JSON and CBOR data files and reports on each.
  - `report` and `text` build the lines the program prints.
- `app/` is the program around it: argument parsing, file access, the
  parser, the IR lowering and the code generators.
- `tests/` exercises the library on in-memory schema trees.
