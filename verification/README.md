# Kuznor

A private assistant for conversations, documents and source code that runs on
local language models. Everything stays on this machine: the model servers are
reached on loopback addresses only.

- `src/` is the library: the records, the rules and the algorithms, each with
  its contract, proved by Verus. What the library takes from other crates is
  behind small trusted items, each with a doc comment that says what is claimed
  of the crate.
- `tests/` runs the library.
- `app/` is the program: the window, the database, the model servers and the
  files. It holds no rules of its own.

| module | what it does |
| --- | --- |
| `text`, `order`, `paths`, `net` | strings, orders, file names, loopback addresses |
| `clock` | the clock and the flags by which work is stopped |
| `models`, `config`, `performance` | records, settings, samples of the process |
| `documents`, `rag` | reading, cutting and searching documents |
| `code` | scanning, cutting and searching source code |
| `ai` | conversations, prompts, overviews, model servers |
| `db` | the schema of the database and what may be done to it |
| `session` | the course of a session: events, requests, turns, indexing |
| `ui` | what the windows show, apart from drawing |
