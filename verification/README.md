# rudis

The command front end of a small Redis-style server, verified with Verus.

- `src/resp.rs`: the RESP wire forms (decimal numbers, bulk strings, arrays).
- `src/frame.rs`: splitting received bytes into array frames, with every
  irregularity reported in order; `src/frame_laws.rs`: what it guarantees of
  well-formed input.
- `src/utf8.rs`: UTF-8 decoding of arguments through `core::str::from_utf8`.
- `src/text.rs`: string equality, decimal text, and the `u64` reader used for
  expiry arguments.
- `src/error.rs`, `src/command.rs`: `GET` and `SET` (with `NX`/`XX`,
  `EX`/`PX`/`EXAT`/`PXAT`/`KEEPTTL` and `GET`) built from frames, and their replies.
- `src/echo.rs`: the `ECHO` reply.
- `app/main.rs`: the demo server on 127.0.0.1:6379 (tokio), which replays a
  fixed list of commands against itself and prints what it makes of them.
