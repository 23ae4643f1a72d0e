# skill-shelf

A local shelf of agent skills (`SKILL.md` packages) served to MCP clients
through a stdio shim and a single background daemon.

- `src/` is the verified library (Verus): configuration, frontmatter parsing,
  the registry and its group catalog, search, install and governance
  decisions, the daemon's protocol (state files, handshake, frames,
  shutdown), the MCP routing, workspaces and the watcher, and the laws that
  tie these together.
- `app/` is the program around it: files, sockets, processes, JSON and YAML,
  the command line and the async daemon loop. It hands the library plain
  values and acts on what it returns.
- `tests/` exercise the library on concrete values.
