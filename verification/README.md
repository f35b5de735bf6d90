# hickory-sni-proxy

A TLS SNI passthrough proxy: it reads the SNI host name from a client's
ClientHello, picks a backend from the configured routes and forwards the
raw TLS stream unchanged.

- `src/` is the library, verified with Verus:
  - `client_hello.rs` — the ClientHello parser, its format as spec
    functions, a ClientHello builder and the read-back laws;
  - `peek.rs` — the state machine that buffers a connection's first bytes;
  - `router.rs` — the route table (exact, wildcard, regex, default) and its laws;
  - `pattern.rs` — regex routes through the `regex` crate;
  - `config.rs`, `error.rs`, `text.rs` — configuration, errors, text helpers.
- `app/` is the program around it: command line, TOML file, sockets.
- `tests/` runs the library on concrete inputs.
