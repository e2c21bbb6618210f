# LiDB, verified

A small relational database: SQL text is tokenized, parsed into statements,
bound against the catalog, and run by pull-based executors over tables whose
rows live in slotted pages of a single database image.

- `src/` is the library, verified with Verus. Every public function states
  what it returns and what it changes over mathematical models: values and
  rows as sequences, the catalog as a sequence of tables, pages as byte
  sequences.
  - `sql/`: tokens, lexer, parser (a recursive-descent grammar with a
    specification of the language), binder (whose results are well typed
    against the table they read).
  - `storage/`: the encoding of rows and catalog entries, slotted pages, the pager, the
    database (catalog on page 1, one chain of data pages per table), and
    `properties.rs`, which proves what the storage promises: a stored row
    is read back, rewritten rows are read back, and a database survives
    being reopened from its image.
  - `executor.rs`: expression evaluation with SQL's three-valued logic, the
    executors (those of statements that change the database hold it and
    run on the first call of `next`), and running statements and batches, with proofs that
    failing statements change nothing, that comparisons are a strict total
    order that `<`/`>` and `<=`/`>=` read the same way, that well-typed
    expressions fail only on division by zero or overflow, and what a scan
    gives over any number of calls.
- `tests/` exercises the library on concrete values.
- `app/` is the command-line program: it keeps the database in a file
  through `FileDiskManager` and prints tables.
