# discord_overlay

A local server that relays the Discord Streamkit voice overlay through one
origin, injects per-user avatar CSS and reloads open overlays when
`config.toml` changes.

- `src/` is the library, verified with Verus: configuration and avatar URL
  resolution (`config`), the generated stylesheet (`css`), templates
  (`web`), header relaying, cookie localization and HTML injection
  (`proxy`), request decisions and error statuses (`routes`), the RPC bridge
  URL (`rpc`), the hot-reload state (`reload`) and the character-level text
  operations they share (`text`).
- `app/` is the binary: file and network I/O, the axum router, the config
  watcher task and the websocket pump.
- `tests/` exercises the library.
