# memsnap

The verified core of a Windows process-memory snapshot analyzer: it takes
snapshots of a process's address space, stores them, reads bytes back and
scans them for byte patterns with wildcards.

- `src/` is the library, verified with Verus:
  - `text.rs`: characters, Unicode whitespace, trimming and splitting, and
    hexadecimal and decimal digits (formatting and `from_str_radix`-style parsing);
  - `pattern.rs`: user-entered addresses, pattern text (`AB ?? {4} CD`), and
    the pattern search over a region's bytes, with its soundness and
    completeness lemmas;
  - `regions.rs`: region type names, protection/state/type texts, region
    classification and each step of the walk over a process's address
    space, and stored rows to region records;
  - `snapshot.rs`: the bookkeeping of writing a snapshot's data file, the
    planning of reads from it, and scanning with a match cap;
  - `models.rs`: the records exchanged with the front end.
- `app/` is the desktop application around it: Tauri commands, the SQLite
  store, Windows process access, and serializable copies of the records.
  The front end also knows commands for a privilege check, comparing two
  snapshots, and a memory monitor (start, stop, status, logs), and a scan
  progress event; the application has no implementation of these, so they
  are not registered.
- `tests/` runs the library on concrete values.
