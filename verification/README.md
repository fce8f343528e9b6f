# tabnas-multisource

Load partial values from multiple external sources into one parse result.
A directive character (`@` by default) marks a reference in a jsonic
document; the reference is resolved to a source, the source is processed
into a value, and the value is spliced into the output, recursively.

The crate is in two parts.

- `src/` is the verified library, checked by Verus: what a reference
  names (`paths`), the in-memory filesystem and the filesystem seam
  (`vfs`, `lexical`), the three resolvers (`map_resolver`,
  `file_resolver`, `pkg_resolver`), the folder preload (`preload`), what
  a directive does with a resolution (`directive`), the dependency tree
  (`deps`), the reports of nested loads (`report`), the processor table
  (`processors`) and the plugin's settings (`settings`). Each public
  function states what it returns in its contract, and the properties the
  library promises as a whole are proof functions named `law_*`: a
  resolver finds only what its root admits, a map is a closed world, a
  cycle is refused exactly when a source is its own ancestor, a chain of
  loads never repeats a source nor passes its cap, and so on.
- `app/` is ordinary Rust around it: the real filesystem, the plugin's
  installation on the tabnas engine, the directive's action on the
  engine's rules, the processors that re-parse a source, and the clock.

The only outside call the library makes is to `serde_json`, for the `main`
of a package manifest; it stands behind one trusted wrapper in
`src/json.rs`.
