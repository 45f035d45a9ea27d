# symmetrix

Finite-field arithmetic, cache-aware tensor layout, the memory and routing
bookkeeping of the Symmetrix runtime and the request handling of its control plane,
written in Verus with their contracts proved.

## Layout

- `src/` — the verified library
  - `galois.rs`, `euclid.rs`, `crt.rs`, `bignat.rs` — prime fields GF(p), the extended
    Euclidean algorithm, Chinese-remainder decomposition and reconstruction over
    big naturals (arithmetic by `num-bigint`), matrix products over GF(2^61 - 1)
  - `gf32.rs` — the binary word field GF(2^32) and the homomorphic feature cipher
  - `morton.rs`, `bits.rs` — Morton (Z-order) encoding and decoding
  - `tensor.rs` — tensor blocks, their folding into cache-sized tiles, the tensor folder
  - `qagml.rs`, `qagml_engine.rs`, `bus_coalescing.rs` — QAGML configuration, the
    cached virtual memory engine, address scrambling, bus request coalescing,
    model file layout
  - `qanban.rs`, `quantum_cache.rs` — QANBAN configuration and the bounded flow cache
  - `config.rs`, `control_plane.rs`, `sheaf.rs` — configuration, server counters and
    error types
  - `http_request.rs`, `websocket.rs`, `commands.rs` — the control-plane server's
    request handling: request path, body and Content-Length, routing, when a request
    has been read in full, the HTTP framing of a JSON reply, the refusal of an empty
    upload, the WebSocket handshake (SHA-1 by `sha1`, base64 by `base64`) and message
    handling, command replies, activation prediction and calibration tiers
  - `text.rs` — decimal numerals and table cells
- `tests/` — tests of the library
- `app/` — the parts that are not verified: serde and thiserror copies of the
  library's types, the floating-point amplification models, the sheaf-cohomology
  engine, and the model loader that reads files

The laws that the library proves are the public `law_*` proof functions.
