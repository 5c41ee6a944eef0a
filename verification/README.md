# itadori

A local HTTP gateway for private APIs: it listens on one address, picks a
route for each request by the longest matching path prefix, rewrites the path
onto the route's upstream URL, adds the route's headers and forwards the
request. `SIGHUP` reloads the configuration file; a terminal dashboard shows
the routes and sends reloads; `self-update` installs the latest GitHub release.

Layout:

- `src/` — the verified library (Verus):
  - `config.rs` — configuration types, route validation, the stable ordering
    of routes, route selection and upstream address construction;
  - `route_headers.rs` — a route's extra headers (a map without repeated names);
  - `proxy.rs` — header forwarding, timeouts, failure answers, reload decisions;
  - `process.rs` — the pid file's text and how it is read back;
  - `self_update.rs` — repository, version and asset decisions, and the
    order of file operations that swaps the running executable;
  - `cli.rs`, `tui.rs` — what each command and key press asks for;
  - `text.rs` — character-level string operations with specifications;
  - `upstream.rs` — the calls into the `url` crate.
- `app/` — the program around it: command-line parsing, reading files,
  TOML, the HTTP server and client, signals and the terminal UI.
- `tests/` — tests of the library.
