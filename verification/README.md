# zmaxion

The verified core of the zmaxion pipeline framework, written in Verus.

- `src/` holds the library, verified by Verus: in-memory and async topics
  (`topic`), the slot-indexed list (`vec_list`), the access bookkeeping and
  scheduling decisions of the parallel executor (`access`, `scheduler`,
  `worker`), plugin ordering (`plugin`), how pipe parameters get their topics
  (`param`), what the pipe attribute does with each parameter, which topic
  types an injected parameter may take and how a pipe is registered
  (`injection`, `text`),
  message pools and write batching (`flow`), and the data types that the
  rest of the framework passes around (`components`, `ecs`, `pipes`,
  `ergnomics`).
- `tests/` runs the library on concrete values.
- `app/` is the runtime around it: worker threads and locks (the executor
  checks its tables once with `is_valid`, and runs systems that need it alone
  only after every worker has paused), async waiting on topics, the syn types
  of the procedural macros turned into the library's plain values and back,
  and error types with `Display`.
