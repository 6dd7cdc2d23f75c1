# pulse

A local lifecycle manager for Docker Compose applications, with its
decisions proved by Verus.

- `src/` is the verified library: the manifest model and idle-timeout
  parsing (`domain`), the registry, dependency ordering and the
  start / stop / restart / boot state machines (`lifecycle`), the proxy's
  route table, request plan and hop-by-hop header rules (`proxy`), the
  health-wait decisions (`health`), compose command lines (`docker`) and
  the HTTP answers (`api`).
- `app/` is the program around it: the CLI, the SQLite store, docker
  processes, the health poller, the management API and the reverse proxy.
  It performs the actions the library's machines ask for and feeds back
  what happened.
- `tests/` runs the library on concrete inputs.
