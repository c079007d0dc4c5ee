# glib_native

Containers and utilities, verified with Verus: growable arrays, linked lists,
queues, hash tables, balanced trees, keyed data lists, quarks, errors, log
messages and command-line options.

- `src/` is the library. Every function has a contract, but for those that only
  end a value. Laws that relate several functions are proof functions named
  `law_…`.
- `tests/` runs it.
- `app/` holds what belongs to a process: global tables, output streams, and
  the calls of destroy functions that containers list as due.

A pointer is an address that the containers only carry. Callbacks get their
data by value and return it. Objects that several owners share live in a
`RefHeap`, which counts the references to them.
