# kernel_core

A script kernel that runs Python, Lua and JavaScript programs on persistent
workers, with the logic that decides what to run verified by Verus.

## Layout

- `src/` — the verified library.
  - `text.rs`: character-level text helpers (trimming, splitting, ordering).
  - `path.rs`: Unix paths by their components, as `std::path` reads them.
  - `config.rs`, `error.rs`: settings, script inputs, run requests and reports,
    errors.
  - `util.rs`: paths known to exist, the module map, module names of files
    and the files of module names.
  - `imports.rs`: the imports of Python, Lua and JavaScript sources.
  - `graph.rs`: the dependency graph of a script, built by a state machine
    that asks the file system for what it needs.
  - `host.rs`: the JSON handed to the Python host.
  - `python_runtime.rs`: what the Python worker decides: stale modules, run
    profile, module runner and the bootstrap program.
  - `kernel.rs`: which workers may start.
- `app/` — the program around the library: file system access, the workers
  (pyo3, mlua, rquickjs) on their threads, and the loop that answers the
  graph builder.
- `tests/` — tests of the library.

## Running

The demo in `app/main.rs` runs `examples/python_app/main.py`,
`examples/lua_app/main.lua` and `examples/js_app/main.js` from the current
directory.
