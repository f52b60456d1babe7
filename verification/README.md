# dashdust

The verified core of a live system-metrics dashboard: a server samples the
host every second and streams JSON snapshots over a WebSocket; a browser
dashboard charts the last minute.

- `src/` — the library, verified with Verus:
  - `history` — bounded sample windows (`push_hist`, `record_snapshot`);
  - `format` — byte and uptime labels (`format_bytes`, `format_uptime`),
    computed on integers exactly as `{:.1}` prints the `f64` quotient;
  - `chart` — SVG line and area paths (`svg_area`, `chart_slot`);
  - `network` — per-interface counters and traffic growth (`NetCounters`);
  - `system` — disk and host entries;
  - `stream` — the replay-then-forward protocol of a dashboard connection
    and the dashboard's WebSocket address.
- `app/` — the server (axum, tokio, sysinfo) and the browser dashboard
  (leptos), which read the host, do the I/O and the float arithmetic, and
  call the library for the rest.
- `tests/` — tests of the library on concrete values.
