# whatthefile

Local file search: a desktop indexer that walks folders, extracts text from documents,
spreadsheets, PDFs and images, splits it into overlapping chunks, embeds the chunks with a
local model runtime, and answers queries by fusing a full-text pass and a vector pass.

The library in `src/` holds the logic, with contracts proved by Verus:

- `chunker` — overlapping token windows.
- `markdown`, `extract` — text of each file type from its raw content; OCR planning for
  scanned PDFs; extraction confidence as an exact fraction.
- `scan` — which entries the directory walk visits and indexes, relative paths,
  fingerprints and what they decide, what an extraction's outcome means for the job
  (errors, confidence, vectors per chunk), cancellation, code-repository checks.
- `search`, `search_laws` — FTS escaping, dates, reciprocal-rank fusion held as exact
  fractions, filters, root scope, display order, cursor pagination, and the properties
  that hold across calls (ordering, fusion, page continuity, where each result comes
  from, distinct files).
- `query` — the prompt for the intent model and how its reply is read.
- `runtime` — model names, endpoints, which loaded models to release, the vision-model
  fallback, and the bounded wait on worker threads.
- `progress` — throttled progress snapshots with strictly increasing sequence numbers,
  and the store slot the frontend polls.
- `model` — roots, files, job counters, errors, schema migrations.
- `platform`, `eval_args` — helper and data locations, and the evaluation harness's
  command line.

`app/` is the ordinary Rust around it: SQLite, file reading, PDF rendering, OCR, HTTP
calls to the model runtime, the indexing driver, the frontend's operations and the
evaluation harness. `tests/` exercises the library on concrete values.
