# ragfs multi-write core

A multi-write storage layer keeps one primary backend and any number of
backup backends in step: writes go to the primary and fan out to the
write-enabled backups, reads follow a fixed fallback chain, redirect
policies send selected files to chosen backups, and per-directory metadata
(`.redirect.json`, `.sync_log.json`) records where files live and how far
each backup has caught up.

- `src/` is the verified library (Verus): path helpers, the metadata
  transitions of every file-system operation, backend selection and read
  order, redirect and exclude policies, the route cache and its counters,
  the quorum rule of synchronous fanout, sync status and retry reports,
  replay planning, and the listing/tree/search views that hide metadata
  files and show redirected ones.
- `app/` is the asynchronous file system around it: the `FileSystem`
  trait, the task-local request context, JSON encoding of the metadata,
  locks, background tasks and the fanout itself.
- `tests/` exercises the library on concrete values.
