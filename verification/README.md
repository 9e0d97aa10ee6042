# localserver

A small HTTP/1.1 file server whose logic is verified with Verus.

- `src/` — the verified library:
  - `text` — character utilities with the behaviour of `str::lines`,
    `split_whitespace`, `trim`, `split_once` and integer `parse`, and decimal text.
  - `config` — the configuration model, its tokenizer and its recursive-descent
    parser (with a specification of the grammar and exact errors).
  - `request` — request parsing from raw bytes and the header map.
  - `response` — status codes, error pages and the wire format of responses.
  - `handler` — which file operation a request calls for, and the response
    that follows from its outcome.
  - `server` — the server address and the per-connection state of the event loop.
- `app/` — the program: sockets, epoll (through `libc`), files and the event loop.
- `tests/` — tests of the library.
