# pg-importer

Reads PostgreSQL plain-text dumps (as `pg_dump` writes them), rewrites them
so that they import cleanly, and writes or runs the result.

```bash
pg-importer import -f pg_dump_file.sql -o output_dump_file.sql
pg-importer import -f dump.sql -o /tmp/out.sql --exclude-schema=geolite --exclude-extension=ip4r --exclude-tabledata=visits
pg-importer read -f dump.sql
```

The reader's line count wraps around at the end of the `usize` range; an
entry number that does not fit in a `u64` is reported as an error
(`ReadError::MalformedTocLine`).

## Layout

- `src/` — the library, verified with Verus:
  - `text.rs`: the string operations the reader needs (trimming, searching,
    replacing, splitting into pieces and lines, UTF-8 lengths) with their
    specifications and laws;
  - `dump_reader/statement.rs`: statements and their kinds;
  - `dump_reader/comment.rs`: table-of-contents comment blocks and the
    scanner of their `-- TOC` lines;
  - `dump_reader/reader.rs`: the line-by-line reader, specified as a state
    machine over the lines of the dump (`read_from`), with the laws that every
    statement holds the dump's text at its byte offsets, that its `line` is
    the number of lines read before it, and that a configuration drops
    exactly the statements it excludes;
  - `dump_reader/statements.rs`: moving table constraints into `ALTER TABLE`
    statements, and text replacement;
  - `import.rs`: the preparation of a dump for import, the text of the
    output dump, and what to do with each statement on a database;
  - `types.rs`: the command handlers' errors.
- `app/` — the command line (clap), file I/O and the database connection
  (postgres).
- `tests/` — tests of the library on concrete dumps.
