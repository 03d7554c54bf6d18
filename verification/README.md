# rsimpledb

A small educational relational database engine, written in Verus:
the storage formats, indexes, catalogs and SQL front end carry contracts that
Verus proves.

## Layout

- `src/file`: blocks and pages, with the byte layout of integers and strings.
- `src/log`: the log page format (records appended from the end of a page).
- `src/buffer`: the buffer pool's bookkeeping: which buffer a pin takes, the
  pin counts, and the count of available buffers.
- `src/tx`: an in-memory model of a transaction's view of the files, on which
  the record and index code works.
- `src/record`: schemas, layouts and table scans over slotted pages.
- `src/index/btree`: B-tree leaf and directory pages, and the B-tree index.
  Its invariant keeps every leaf block reachable from the directory and every
  directory block but the root named from the level above.
- `src/index/hash`: the static hash index, and the pages of the extendable one.
- `src/metadata`: the table, view, statistics and index catalogs, and the
  metadata manager over them.
- `src/query`, `src/parse`: constants, expressions and predicates, and the SQL
  lexer and parser.
- `app/`: the program around the library: the file, log and buffer managers
  that do I/O, the floating-point cost estimate of a B-tree search, and a
  command that reads SQL statements and prints what they parse to.
- `tests/`: tests of the library on concrete values.

## Not included

Query planning is not part of this library: there are no plans, no generic
scans over them, and so no index select or join scans and no index update
planner. The extendable hash index has its directory and bucket pages and
can be opened, but has no search, insert or delete, since the depth of its
directory and the splitting of its buckets are not defined here. There is no
database object that wires the managers together.
