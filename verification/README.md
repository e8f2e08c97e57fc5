# pgrx_migrate

Planning, ordering and linting of SQL migration fragments for PostgreSQL extensions,
written in Rust and verified with Verus.

A fragment is an SQL file that waits for the next release of an extension. Its file name
gives its identifier (`101.add_index.sql` is `101`, `add_index.sql` is `add_index`), and
comments in it name its prerequisites (`-- depends-on: 101, other.sql`). The library

- reads identifiers and prerequisites, and sorts fragments so that each one comes after
  its prerequisites, with a fixed tiebreaker where they leave a choice (`fragment`,
  `collect`, `order`);
- tells which version an upgrade comes from and goes to, by the upgrade scripts that exist
  and by the version of the package (`semantic`, `version`, `info`);
- assembles fragments into an upgrade script, says in which order files are written and
  removed, and updates the default version in a control file (`assemble`, `control`);
- decides what becomes of fragments while an extension is installed or packaged
  (`unreleased`);
- checks fragments for circles, for dependencies that are not declared, and for changes to
  both released and unreleased objects (`lexer`, `statement`, `lint`, `changes`);
- lays out what is printed (`report`, `error`).

What each function returns is stated in its contract. The public proof functions whose
names begin with `law_` state what holds of several functions together.

Pattern searches and the order of semantic versions come from the crates `regex` and
`semver`. The functions in `pattern` and `semantic` that call them state what is relied on.

`app/` is the command-line program around the library: options, files, `git`, colours and
JSON.
