# l7dstat

A small HTTP endpoint that counts requests per second and serves a dashboard of the counts.

- `src/` is the library, with its contracts and proofs:
  - `scan.rs`: finding bytes, patterns, line ends and the end of a request head;
  - `request.rs`: the path of a request line, routing, `Connection: close`;
  - `response.rs`: the fixed replies and `200 OK` responses with their `Content-Length`;
  - `clock.rs`: wall-clock seconds and uptime;
  - `metrics.rs`: the sharded lifetime totals and per-second buckets, and the snapshot the
    metrics document is made from;
  - `conn.rs`: one connection's input, output and held hits, and answering its requests;
  - `config.rs`: settings, the listen address, listeners, tokens and shards.
- `app/main.rs` is the server around it: environment, sockets, the `mio` event loops, and
  the JSON document (`serde_json`).
- `tests/` runs the library on concrete inputs.

The server reads its dashboard files from `index.html`, `static/app.js` and
`static/styles.css` in its working directory.
