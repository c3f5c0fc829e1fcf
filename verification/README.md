# rnodejs

Node.js core concepts modelled from scratch and verified with Verus.

- `src/resolve.rs`, `src/path.rs`: CommonJS `require(path)` resolution
  (relative and absolute paths, `.js`/`.json` completion, a directory's
  `index`, `package.json` `main`, the `node_modules` search) over an abstract
  `FileSystem`, with the in-memory `MapFileSystem`. Every function is proved
  against a specification over character sequences; normalisation is proved
  idempotent and resolution is proved to answer only with existing files.
- `src/event_loop.rs`: the ordering model of the event loop (next-tick queue,
  microtask queue, timer phase) over a logical clock, with the firing order of
  timers specified as the unique order by due time and registration.
- `src/runtime.rs`, `src/rpoem_adapter.rs`: driving the model from a runtime.
- `src/fs.rs`: the metadata record of `fs.statSync` and the sorting of the
  entry names of `fs.readdirSync`.
- `app/`: the synchronous file I/O functions (`read_file`, `stat`, ...), which
  stay outside the verified library.
