# Kuntu

The rules of a local-first file search and storage engine, written in Rust and
proved with Verus: which paths may be shown, how a metadata index is kept up to
date and searched, and how a scanned disk becomes a snapshot.

## Layout

`src/` is the verified library.

- `text`, `path`, `order`, `sorted`: characters, paths as byte strings, orders
  with a stable sort, and sorted lists without repeats.
- `model`: search roots, configurations, queries and policy decisions.
- `policy`: root scoping, ignore rules and the denial of sensitive paths.
- `snapshot`, `nodes`: the envelope of a disk scan, the list of its nodes, and
  what holds of that list.
- `index`: the metadata index.
  - `open`, `error`: which database files are taken, recreated and refused.
  - `sql`, `rows`, `roots`, `terms`, `candidates`: statements, and what is
    stored and read.
  - `refresh`, `run`, `work`, `repair`: what a crawl changes, root by root, and
    the statements that change it.
  - `search`, `matching`, `store`: the stages of a search, what a prefix
    selects, and what a search finds of what is stored.
  - `changes`, `passes`, `state`: what the work on a root does to what is
    stored, what a whole run leaves for the next, and the recorded state of a
    root.

`app/` runs the library on the `turso` engine: it executes the statements,
crawls and ranks through a host, reads the clock and the file system, and gives
snapshots their JSON form.

`tests/` runs the library, its statements on an engine in memory.

## Reading the contracts

Every type with text or lists in it has a view, and contracts speak of views.
Work that needs a database is a run: it is asked for its next request, the
request is carried out, and the answer is handed back. What a run does on each
answer is a function of its view, and the laws of the library are public proof
functions over those views.

What is believed and not proved: `String::push`, `core::str::from_utf8` and
`String::from_utf8_lossy` of the standard library. Beyond that, the laws over
tables, stores and states (`refresh`, `store`, `changes`, `passes`, `state`)
speak of models of the database: that the engine carries out the statements, and
answers them, as those models do is believed too. What a statement says is
proved; `tests/` runs them on the engine.
