# Curator

Curator runs diagnostic tasks next to containers. Agents discover, with
toolchain images, the tasks that can run against the containers of a host and
announce them to a central server; the server forwards run requests to the
agents over server-sent events and collects their execution reports and
artifacts.

## Layout

- `src/` is the library, verified with Verus:
  - `lines.rs`: splitting a byte stream into UTF-8 lines, with the laws that
    nothing is lost and that chunk boundaries do not matter;
  - `sse.rs`: framing server-sent events and reading them back, with the
    round-trip laws, and the broker that fans events out to subscribers;
  - `protocol.rs` and `protocol/`: the types exchanged between server, agents
    and clients;
  - `server.rs`: the server's registry of agents and executions and the
    decisions of its HTTP handlers, with its well-formedness invariant;
  - `agent.rs`: the agent's tasks, its handling of events, its reports and
    its connection loop as a state machine;
  - `docker.rs`: container specs, error texts and the bookkeeping of the
    discovery loop;
  - `client.rs`: the registry of a simple command-running agent;
  - `errors.rs`, `text.rs`: error-chain descriptions and string helpers.
- `tests/` exercises the library on concrete values.
- `app/` is the program around it: the HTTP server (actix-web), the agent's
  HTTP client (hyper), Docker access (bollard), JSON (serde) and the command
  line (clap).
