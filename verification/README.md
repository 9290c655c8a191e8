# dsa_sim

The verified core of an animated distributed-systems simulator: graphs of
nodes described in YAML, each node running a small Rhai script on a timer,
sending messages along connectors, spawning and removing peers, and
narrating what happens.

`src/` is a Verus library; every module states its behaviour in contracts
and proves it:

- `graph` – the plain `name: dep dep ...` dependency-graph format.
- `imports` – built-in preset names, the scan for remote import URLs,
  where each import's text comes from, and the merge of an imported
  definition (local entries win).
- `schema` – the checks a file's node types and graph entries pass, tick
  intervals and node timers, template joining, and script compilation.
- `template` – `{{param}}` bindings and their substitution.
- `topology` – `link`/`unlink`, `despawn` and `spawn_node` requests.
- `narration` – the `explain()` queue (once per key per run, one bubble at
  a time).
- `connectors` – which undirected connectors exist and which carry a
  message; `flight` – how long a message takes to cross and when it lands.
- `dispatch` – which script handler a message goes to.
- `layering`, `layout` – the ranking stage of the hierarchical layout.
- `chance`, `rhai_lib`, `logging`, `text` – random draws, standalone host
  functions, log events, and string helpers.

`app/` is a headless runner around the library: it reads a graph file,
resolves imports, runs the scripts and prints the log; it can also check a
file, print the file schema, or print the rank layers of a file's layout
or each node's position (the floating-point placement stands in `app/`).
The theme and AWS presets are read from `plibs/` under the directory named
by `DSA_ROOT` (the working directory by default) into the library's preset
table; the standard-library presets are built in.
