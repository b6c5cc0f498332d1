# gostly

A recording proxy: it stands between a client and an HTTP service, records the traffic
that it sees, and replays the recordings as mocks. The library in `src/` holds the rules
of the proxy, verified with Verus; `app/` is the server and the command line around it.

## Modes

- `LEARN` forwards a request and records the exchange.
- `MOCK` answers from the recordings and never reaches the upstream.
- `PASSTHROUGH` forwards without recording.

## The library

| Module | What it says |
|--------|--------------|
| `routing` | which service, upstream, mode and tenant a request belongs to |
| `proxy` | what is done with a request, and what is kept of an exchange |
| `matcher`, `substitute`, `uri` | which recording answers a request, and how it is rewritten |
| `io`, `files`, `watch` | the mock library, its files, and when they are read again |
| `recording`, `responses`, `headers` | what is recorded, what is redacted, what is sent |
| `chaos`, `markov_chaos`, `faults` | injected latency and errors |
| `resource_store`, `statechart` | captured resources and the states that they go through |
| `telemetry`, `wide_events`, `workload_class` | counters, events, and who sent a request |
| `cli` | settings, arguments and messages of the command line |
| `text`, `chars`, `numbers`, `ordmap`, `json`, `timestamps`, `dup`, `types` | what the others are built from |

Functions named `law_...` state what holds of several functions together.

Random draws and rates are floating point, so `app/` makes them and hands the library
what came out: how far a latency was drawn, whether a draw fell below a rate, which
weights it reached.
