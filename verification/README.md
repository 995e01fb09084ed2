# aur-guard

AUR malware monitor and host audit. Packages listed in public malware feeds
(by default `lenucksi/aur-malware-check`) are blocked before paru builds
them; a short-lived daemon answers the commands over a Unix socket.

## Layout

- `src/` — the verified library (Verus):
  - `text` — the text operations everything else is stated over (trimming,
    lines, prefixes, ordering, decimal numbers), each with its model;
  - `feeds` — parsing published lists, the table of flagged packages,
    matching a package (and its `-git`/`-bin`/... variants) against it;
  - `gate` — indicators of compromise in build files and the verdict on a
    package;
  - `audit` — installed-package check, the process scan (with its bound on
    ownership queries), listening ports, persistence findings;
  - `paru`, `shell` — the two hooks, with their idempotence proved;
  - `config`, `daemon`, `cli` — paths, the daemon protocol and stop rule,
    the feed-check plan, and everything the commands print;
  - `pattern` — the `regex` crate behind a small trusted interface.
- `app/` — the program: command line, files, HTTP, processes, the socket
  server, and the serialised forms of the library's types.
- `tests/` — tests of the library on concrete values.
