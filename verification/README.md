# sentrygrid

A network exposure auditor: for each socket that listens on this host, is the
port reachable, and by what mechanism? It correlates what `ss`, `ufw` and
`docker ps` say, since none of the three answers that alone.

- `src/` is the library, verified with Verus: the parsers of the three outputs
  (`ss`, `ufw`, `docker`), the correlation (`audit`) and the rendering (`format`).
  `text`, `numeral`, `ip` and `pattern` hold what the parsers are specified with.
  `laws` and `reading` state what holds of the library as a whole.
- `tests/` runs the library.
- `app/` is the program: it runs the tools, and prints.

The regular expressions, the JSON text and the terminal colors come from the
regex, serde_json and cybercore crates. What the proofs take on trust about them
stands in `pattern`, `json` and `palette`, and one fact about std's `String` in
`scan`.
