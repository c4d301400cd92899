# esql

A thin, composable SQL query builder for tokio-postgres and mysql_async, with
its logic verified by Verus.

- `src/` is the verified library: the SQL lexer (placeholders, `??`, quotes,
  comments, `$tag$` bodies, statement splitting), query fragments and how they
  compose, placeholder dialects, column lookup, migration filenames and
  checksums, and the plan that decides which migrations to apply.
- `app/` holds what talks to a database or the file system: the `Value` type,
  the async statement interface, the two drivers, and the migration runner,
  which performs the plan that the library computes.
- `tests/` exercises the library on concrete inputs.
