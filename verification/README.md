# convergio_depgraph

Dependency graph validation for extension manifests, verified with Verus.

Each module declares, in a `Manifest`, the capabilities it provides and the
capabilities it requires (with a SemVer requirement). The library

- builds the dependency graph (`graph::DepGraph::from_manifests`),
- validates it (`graph::DepGraph::validate`): missing required capabilities,
  provided versions that do not meet a requirement (checked with the `semver`
  crate), and dependency cycles (Kahn's algorithm, `cycle::detect_cycle`),
- decides whether a module can be removed without breaking a required
  dependency (`removal::check_removal`),
- lists capabilities and agent tools (`catalog`), describes them as an
  OpenAPI document (`openapi`), and declares its own MCP tools (`mcp_defs`).

Layout:

- `src/` — the verified library; `laws.rs` and `reorder.rs` hold the
  properties proved of it as a whole: cycle detection reports exactly the
  modules that lie on a dependency cycle (so an acyclic, ranked set of modules
  is accepted, and a repeated id alone is no cycle), a safe removal keeps every
  required dependency provided when ids are distinct, validation accepts
  exactly the satisfied graphs and does not depend on the order of the
  manifests when capability names are distinct, every graph edge joins a
  requiring module to a providing one, every capability and tool is
  documented.
- `tests/` — tests run against the compiled library.
- `app/` — the HTTP routes (axum), JSON renderings with serde, and the
  startup hook that logs with `tracing`.
