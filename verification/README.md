# git_rs

A small Git object library, verified with Verus, and a command line around it.

- `src/` is the library. Every function in it is verified against its contract:
  - the object formats (`blob`, `tree`, `commit`, `tag`, `signature`, `time`, `object_id`,
    `object_type`) are parsers and writers on bytes, each with a law that reading back what was
    written gives the value again;
  - `object_db` frames loose objects (header, SHA-1 name, zlib) through `sha1` and `flate2`;
  - `index` reads and writes the index file and keeps its entries sorted by path;
  - `refs` checks reference names and reads `HEAD` and branch files;
  - `myers` and `diff3` compare lines; `diff` compares trees; `merge_base` searches for
    common ancestors; `merge` merges two commits path by path.
- `app/` is the command line: files, directories and printing.
- `tests/` exercise the library on concrete values.
