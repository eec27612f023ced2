# simple_pastebin

The logic of a small pastebin web server, verified with Verus.

- `src/config.rs`: the server settings, how the command line, `config.toml`
  and the defaults combine, and how an expiration such as `20d5h2m1s` is
  read as seconds.
- `src/database.rs`: the pages served for a paste (raw text, the HTML page
  with escaped text and linked web addresses, creation and deletion notices).
- `src/helpers.rs`: the log-file size limit and the `/config` page.
- `src/server.rs`: the listening address, which routes exist, log and
  history lines.
- `src/text.rs`: decimal writing and reading, trimming, replacing.
- `app/main.rs`: the program: command-line parsing, `config.toml`, SQLite,
  the axum routes, files and the clock.
