# buzz_desktop

The verified core of the desktop app's Spotify connection and agent-template
commands, written in Verus.

- `src/text.rs` — Unicode whitespace, `trim`, `split_whitespace`, decimal
  formatting and `u16` parsing, ASCII case-insensitive comparison, the byte
  order in which strings compare.
- `src/spotify.rs` — the stored credential, the status shown to the user, the
  client id and callback port in effect, the token exchange form and the
  credential built from Spotify's answer.
- `src/pkce.rs` — random state and code verifier (from `uuid`), and the S256
  challenge (`sha2` and `base64`).
- `src/oauth.rs` — the authorization URL (form serialization from `url`), the
  local callback: request line, URL parts (from `url`), the outcome, and
  whether and which HTTP page is sent back; the proof that the authorization
  query reads back as its parameters under the library's own statement of
  form parsing (tests check the same against the `url` crate's parser).
- `src/templates.rs` — the Create Agent catalog (built-ins, then saved
  templates sorted by name), saving an agent as a template, exported card
  names.
- `app/` — the commands themselves: environment, keyring, TCP listener,
  HTTP client, clock and the agent store, calling the library.
- `tests/` — tests of the library against concrete values and against the
  behaviour of `std`, `url`, `sha2` and `base64`.
