# neuxdb

An embedded table database with typed columns, an encrypted single-file
store, export and import in several formats, and three small command
languages over a directory of delimited table files. The library in `src/`
is written in Verus: every function carries a contract and is verified.

## Layout

- `types`, `table`, `data`, `log`, `database`: values, typed tables, row
  operations with their transaction log, and the in-memory database with
  its invariants (sorted, uniquely named tables; rows as wide as their
  schema).
- `crypto`: the integrity header (SHA-256) and passphrase encryption (age).
- `export`, `import`: CSV, PSV, JSON, HTML, Markdown and SQL dump output;
  CSV, PSV and JSON input, optionally encrypted.
- `storage`: the directory of tables as a map from names to contents, with
  values as they read back from their files, and the table files
  themselves (`|`-delimited with a header record) read and written.
- `syntax`, `parser`, `executor`: the SQL reader and its executor.
- `engine`: the whitespace-split and token readers with their services.
- `basic`: the line-command engine.
- `manager`: creating, dropping, listing and choosing databases.
- `text`, `config`, `error`: shared text handling, constants and errors.

Laws that span several functions are public proof functions whose names
begin with `law_`.

`app/` is the command-line program: it reads and writes the files, holds
the locks and runs the commands through the library. `tests/` exercises
the library on concrete values.
