# Lanyard

Lanyard is a resilient SSH-agent switching proxy: one stable `SSH_AUTH_SOCK`
in front of forwarded, registered and local agents. Identity listings are
merged and deduplicated, signatures fail over between agents and promote the
agent that signed, extension queries are tried in priority order, and
mutations fail closed.

## Layout

- `src/` is the verified functional core, checked with Verus:
  - `backend.rs`: the registry of agents, candidate ordering, signer
    affinities and their laws;
  - `shared.rs`: the registry behind a lock, shared by the listeners;
  - `proxy.rs`: message classification, framing, configuration;
  - `identities.rs`: parsing, merging and encoding identity answers;
  - `session.rs`: the per-connection state machine that routes each request
    to one or several agents;
  - `control.rs`, `cli.rs`, `paths.rs`, `discovery.rs`: the control protocol,
    command-line decisions, socket paths and discovery name rules.
- `app/` is the effectful shell: the command line, sockets, signals, file
  locks, directory scans and JSON encoding. It performs what the state machine
  asks for and reports what happened.
- `tests/` exercises the library on concrete values.
