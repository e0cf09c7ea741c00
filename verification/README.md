# cargo_minify

Removes unused code from the source files of cargo packages.

- `src/` is the library, verified with Verus. From what the compiler reports as
  unused it finds the items in a source file (`search`), cuts them out with the
  whitespace around them (`text`, `chunks`, `removal`), and proposes changes of
  files (`groups`, `cauterize`). `parse` reads a source file into the syntax tree
  of `syntax` by way of `syn`. `resolver`, `targets` and `names` decide which
  targets the user wants to minify. Paths are compared by their normal spelling
  (`paths`).
- `app/` reads and writes files and asks cargo for metadata.
- `tests/` runs the library.

Which items a source file holds is taken from `syn`, whether a glob pattern
matches a name from `glob-match`; what the library assumes of them is stated at
the functions that call them, in `parse`, `text`, `groups` and `resolver`.
