# vectors

An in-memory SQL database with vector columns, exact nearest-neighbor search and graph collections
of documents, written in Verus: what a function returns or changes is stated in its contract and
proved, but for what it has from outside.

- SQL text is split and parsed by `sqlparser`, and JSON is read and written by `serde_json`: the
  functions marked `external_body` in `tokens`, `syntax` and `json` make those calls, and their
  contracts are believed. So are those on `str::to_lowercase`, `char::is_alphanumeric`,
  `String::from_utf8`, `String::push` and the equality of `str` (`unicode`, `codec`, `text`), and that
  on the text of a request header of `reqwest` (`reranking`).
- Floating-point results come from a function that the caller hands in, and contracts are relative to
  it: that it gives one result for one task is required, and nothing is proved of the numbers.

## Layout

- `src/` is the library.
  - Values and numbers: `value`, `vector`, `text`, `slice`, `unicode`, `arithmetic`, `float`. A
    floating-point number is held as its bits; what needs floating-point arithmetic is asked of a
    function that the caller hands in, by a `FloatTask`.
  - SQL: `tokens`, `parseable`, `notation`, `syntax`, `json`, `sql`, `statements` and `ast` read
    statements; `types`, `operators`, `eval`,
    `aggregate`, `projection`, `select`, `scan`, `candidate`, `nearest`, `query`, `read`, `join` and
    `join_query` answer queries; `table`, `index`, `write`, `catalog`, `schema` and `execute` change
    tables; `parameters`, `intent` and `explain` bind and describe requests; `cache` and `database`
    hold it together.
  - Storage: `codec`, `snapshot`, `restore` and `install`.
  - Graph collections: the modules whose names begin with `graph`, with `lexical` and
    `lexical_cache`.
  - Around the database: `gpu`, `gpu_scan` and `gpu_batch` plan scans on a device, `reranking` checks
    requests to a reranking service, `shell` and `shell_run` follow the lines of a shell, `update_cli`
    reads the options of an update.
  - The modules whose names end in `laws`, and the proof functions whose names begin with `law_`,
    state what holds of several operations together.
- `app/` is the program around the library: files, the terminal, the device, the network, and the
  floating-point arithmetic.
- `tests/` runs the library on concrete values.
