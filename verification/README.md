# hbsync

Downloads the ebooks of a Humble Bundle library and files them on disk as
`Publisher/Bundle/Format/`.

- `src/` is the library, verified with Verus: bundle-title parsing and
  path-segment sanitizing (`naming`), the order JSON walk and the
  order-to-task layout (`api`, `json`), URL rules (`urls`), cache paths and
  metadata corrections (`cache`), download integrity, resume and retry
  decisions, and that the size and MD5 digest judged are those of exactly
  the bytes received (`downloader`; MD5 itself is the `md-5` crate's),
  cookie-source precedence, profile search order and which cookie values
  count (`auth`), and the command-line decisions (`cli`), among them the
  step-by-step resolution of an order key, which asks the server for the
  order at most once and writes a fetched order back to the cache.
- `app/` is the program around it: HTTP requests and the async download
  loop, files and directories, the Firefox SQLite query, argument parsing,
  the JSON and cache encodings, and the terminal.
- `tests/` exercises the library on concrete values.
