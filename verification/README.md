# fs_watcher

The decision logic of a file system watcher, verified with Verus.

- `src/` is the library. It decides which paths have to be watched, counts who needs them, turns
  what the system says into events below the paths that were asked for, and keeps the list of
  events that wait to be fetched. Paths are held as sequences of components.
- `app/` puts the library to work: it holds the locks, asks the system to watch and unwatch paths,
  and hands the events of the system to the library.
- `tests/` runs the library on concrete values, and holds its paths against those of the standard
  library.
