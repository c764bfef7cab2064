# duotunnel

The decision logic of duotunnel, a reverse tunnel with a control plane
(`ctld`), a server that accepts client connections over QUIC, and clients that
expose local services through it, written in Verus with its contracts proved.

## Layout

- `src/` — the verified library. Each module states its data by a view and
  its operations by `requires`/`ensures`; laws that span several operations
  are public proof functions (their names begin with `law_`).
  - routing data and its layers: `model`, `config`, `layer`, `diff`,
    `canonical`, `ctld`, `ctld_app`, `snapshot_check`, `revision`
  - host and header handling: `host`, `http_utils`, `headers`, `prefix`,
    `ingress`, `entry`
  - the server's state: `registry`, `login`, `overload`, `listener_table`,
    `udp_affinity`, `dns_cache`, `health`, `watch`
  - the admin surface: `admin`, `admin_route`, `idempotency`,
    `response_cache`, `auth`
  - byte and text helpers: `bytes`, `text`, `buffers`, `envelope`,
    `metrics_text`, `assoc`, `collection`
- `tests/` — tests run against the compiled library.
- `app/` — the command-line front end: argument parsing, the wire copies of
  library types that carry serde derives, and the I/O around the library.

Calls into outside crates (SHA-256, hex, constant-time comparison, header
names, string conversions) stand behind small trusted wrappers whose doc
comments say what their contracts claim.
