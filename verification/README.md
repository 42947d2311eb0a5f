# phones_fyi

A catalogue of phone security features. Device and vendor listings are
gathered from several sources (the LineageOS device wiki, endoflife.date for
iPhones, Samsung's Knox device list), classification rules give each device a
status per security category, and a static site is built from the result.

- `src/` is the library, verified with Verus: string helpers (`text`), vendors
  and devices (`hardware`), rules and their resolution (`rules`), the source
  parsers (`plumbing`), the site data (`site`) and the command line (`args`).
- `app/` is the program around it: argument parsing, network and file I/O,
  JSON/TOML (de)serialisation and template rendering.
- `tests/` exercises the library on concrete inputs.
