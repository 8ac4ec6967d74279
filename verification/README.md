# proply_rs

The verified core of a propeller design tool, written in Verus.

- `src/` is the library; every function in it is verified against its
  contract:
  - `cli`, `design`: the design tool's command line (every option can also
    come from the JSON design file, and the command line overrides it), the
    choice of design loop, the output path, the converged-station count and
    the warning of a dropped mechanical re-design;
  - `units`: unit-suffixed quantities (`"6.8cm"`, `"500g"`, `"3 GPa"`);
  - `cache`: the polar cache, with its per-insert journal and periodic
    compaction, and the proofs that a journal replays to the same cache,
    idempotently, and that a compaction loses nothing;
  - `simulator`: which cached polar sweep is usable, when a bucket is
    simulated or falls back to the flat-plate model, the in-flight and
    degenerate key sets and the degenerate-key sidecar document;
  - `mesh`, `ply`, `readback`: the blade and hub triangle topology, the PLY
    document, its reader, and the proof that a written mesh reads back;
  - `render`: the renderer's box filter, PNG framing and command line;
  - `design_log`, `step_out`, `text`: the trace sink, the STEP writer's
    error framing, and the character classes and number grammars.
- `tests/` runs the library on concrete values.
- `app/` is the headless renderer `render-step`: it reads a propeller's
  mesh, shades it (floating-point work) and writes a PNG, using the
  library for everything else.
