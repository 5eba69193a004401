# rustproxy

The decision making of an async reverse proxy, verified with Verus, and the proxy around it.

- `src/` is the library: smooth weighted round robin and least connections over a pool of
  backends, health tracking with fall and rise thresholds, the routing of requests, the rules of
  the control plane, and the bookkeeping of the load generator. Every function states what it
  returns and changes.
- `app/` is the program: sockets, the gRPC server and client, Prometheus, the configuration file.
  It carries out what the library decides. Called as `demo-backend`, `loadgen` or `admin_client`,
  the executable acts as those.
- `tests/` runs the library.

## Modules

| module | what it holds |
|--------|---------------|
| `schedule`, `gcd` | the pick order for a list of weights, and its laws |
| `backend` | one backend: weight, health, connections |
| `ring`, `pool` | the pool, its published routing snapshot, connection guards |
| `pool_laws` | what holds of a pool across operations |
| `traffic_laws` | what holds over time, with requests side by side |
| `proxy`, `metrics`, `http` | what becomes of a request, and what is counted |
| `health` | probe rounds |
| `admin` | the control plane |
| `config` | configuration, defaults, validation |
| `loadgen`, `demo`, `text` | load statistics, the demo backend, text helpers |

## Sharing a pool

The methods of `BackendPool` that change it take `&mut self`, so that their contracts can say what
the pool is afterwards. The program shares the pool behind a mutex that it holds for the length of
a decision, never across an await. A backend keeps its slot for as long as the pool lives: a slot
number that a request or a probe holds stays good when the backend is removed, and a backend that
is added later under the same address gets a slot of its own.

A `ConnGuard` has no hold on the pool, so a connection is given back by `release`, or by `finish` or
`abandon`, which call it. The program keeps each guard in a value that abandons the request when it
is dropped.

## Control plane

The service is `rustproxy.admin.Admin`, with the methods `ListBackends`, `AddBackend`,
`RemoveBackend` and `SetWeight`; `app/pb.rs` holds its messages.
