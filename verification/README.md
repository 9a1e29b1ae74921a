# fileorg

File organisation exercises as a verified library: fixed-width binary records (branches,
clients, hash-table records), seekable in-memory files, two hash tables kept in files
(one with a separate file of chained records, one with its chains inside the table file),
cutting a list of records into sorted buckets, replacement selection into sorted runs, and
n-way merging of record files with a tournament tree.

- `src/` is the library, verified with Verus: every public function carries a contract,
  and the laws that relate several functions are public proof functions.
- `app/` holds the five command-line programs (`fakegen`, `replacement-sort`,
  `hash-table`, `inner-link`, `nway-merge`) that read and write the files on disk and
  call the library.
- `tests/` runs the library on concrete files.
