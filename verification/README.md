# unidpp-resolver

A federated resolver for product identifiers, verified with Verus: from what is
scanned on a product (GS1 Digital Link, GB/T 33993, EAN-13, ISO/IEC 15459 URNs)
to the links published for it, as RFC 9264 linksets with context routing
(profile, role, language, region), resolution as of any instant, dark
identities, and a national-intermediary mode with a cache.

## Layout

- `src/` is the library. Its functions are verified, and requests and replies
  are plain values. What is believed without proof of code outside it stands in
  three modules, each item with a comment that says what is claimed: in `text`
  of the standard library's strings and UTF-8, in `time` of its clock, and in
  `json` of `serde_json`.
  - `text`, `time`, `json`: characters, timestamps, JSON values. JSON text is
    read and printed by `serde_json`.
  - `gs1dl`, `gbt33993`, `carrier`: carriers and identifiers.
  - `context`, `negotiate`: scoring of entries, and `Accept` headers.
  - `entry`, `record`, `store` (over `shelf`): linkset entries, the append-only
    history, and the state that it leads to.
  - `linkset`, `render`, `reply`: documents, links in their order, replies.
  - `proxy`: what to ask of an upstream and what to make of its answer.
  - `api`, `admin`, `discovery`, `config`: the surfaces.
- `tests/` runs the library from outside.
- `app/` is the program: environment, journal file, HTTP by axum and tokio.

## Laws

Beside the contract of each function, the properties that span functions are
public proof functions named `law_...`, each next to what it is about: what is
written reads back (timestamps, entries, links, documents, records, journals,
query components), the history is append-only and determines the state, the
past stays what it was, darkness cannot be told from absence, what is known here
is answered here, and the best match comes first.

## Configuration

| Variable | Default | Meaning |
|---|---|---|
| `UNIDPP_BIND` | `127.0.0.1:8080` | listen address |
| `UNIDPP_ADMIN_TOKEN` | unset (open) | Bearer token for `/admin/*` |
| `UNIDPP_UPSTREAM` | unset | upstream resolver (http:// base URL) |
| `UNIDPP_CACHE_TTL_SECS` | `300` | how long an upstream answer is fresh |
| `UNIDPP_STATE_FILE` | unset (in memory) | journal of the history, one JSON record per line |
