# knives

What a maintainer of long-lived forks asks every day: which branches are on
review, which have landed, which release carries what, and what nobody could
answer. The library takes the answers of the repository, of the forge and of the
stores as plain values and decides; every decision carries a contract that Verus
proves.

- `src/` is the verified library. `src/commands/` holds one module for each
  command, `src/detect/` the single findings, `src/forge/` what a pull request is
  and how the forge is asked, `src/config/` the registry.
- `app/` runs the commands: it spawns the forge's client, reads and writes files,
  decodes JSON and TOML, and serializes the reports.
- `tests/` holds the library's tests.

What rests on code outside the library is named where it is called: text in
`src/text.rs`, times in `src/moments.rs`, the keys of a TOML table in
`src/config/loading.rs`.
