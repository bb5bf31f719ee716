# fgscsv

Fetches spreadsheets as CSV, checks every row against a small field DSL
(`int? -> count @identifier`, `string? @media(image)`, ...) and reports which records were
added, updated or deleted since the last run.

- `src/` is the library, verified with Verus: the DSL parser (`dsl`), reading cell values
  (`value`), processing rows into records, hashing them and comparing states, and reading the
  state file (`pipeline`, through `blake3` and `serde_json`), reading CSV text
  (`table`, through the `csv` crate), exporting a sheet by schema name (`export`), media paths
  (`media`), the command-line decisions and the gathering of sheet results by schema (`cli`), the configuration types (`config`), and the
  string-keyed map they share (`strmap`).
- `app/` is the program: argument parsing, the configuration file, HTTP fetches, the JSON text
  of records and the files a run reads and writes.
- `tests/` exercises the library.
