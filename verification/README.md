# warp_ssh_manager

The core of an SSH connection manager, written in Verus. The public
functions of `src/` carry contracts that Verus proves. A few small
`external_body` wrappers around outside calls (the home directory, path
joining, UUID generation, shell escaping, the epoch timestamp, `String::push`)
have contracts that are trusted, not proved; each one's doc comment says what
it claims.

- `src/text.rs` — character-level helpers (Unicode whitespace, trimming,
  splitting, ASCII case folding, decimal `u16`).
- `src/types.rs` — the data model: nodes, servers, authentication kinds and
  port forwards with their `ssh` and `~/.ssh/config` spellings.
- `src/ssh_config_parser.rs` — one-shot import of `Host` blocks as
  connection candidates.
- `src/config_model.rs` — a lossless, editable model of `~/.ssh/config` with
  SSH Config Editor metadata (groups, icons, colors, descriptions), its text
  round trip and the editing operations.
- `src/config_laws.rs` — what the editing operations promise when the
  document is read back.
- `src/config_tree.rs` — the grouped display tree.
- `src/sync_config.rs` — one-way config → node synchronisation.
- `src/ssh_command.rs` — `ssh` argument lists, shell-escaped command lines and
  connection-test verdicts.

`app/` holds what runs around the library: the SQLite connection, reading and
atomically saving the config file, spawning `ssh` for connection tests, and
the serde forms of the persisted types. `tests/` exercises the library.
