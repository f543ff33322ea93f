# altair-wf

Reusable workflow patterns — single task, pipeline, parallel, loop,
parameterised loop and DAG — plus named-handler dispatch and partitioned
data synchronisation, with the orchestration logic verified by Verus.

## Layout

- `src/` — the verified library. Every decision the patterns make lives
  here with its contract: input validation (`types`, `dag`,
  `function::payload`), DAG cycle detection and topological waves
  (`graph`), what a run keeps, counts and stops with (`patterns`),
  template substitution and the parameter cartesian product (`helpers`,
  `order`), the handler registry and activity outcome (`function`), and
  the sync pass and chunked-sync plan (`datasync`). Public proof
  functions (`lemma_*`) state the properties that hold across calls.
- `app/` — the asynchronous side: awaiting activities with
  `futures::join_all`, async source/mapper/sink traits, the shared handler
  registry, and the serde shapes of the payloads. It asks the library for
  every decision; what it supplies are the awaited results, the clock, and
  the key type's own ordering for the chunked-sync cursor.
- `tests/` — tests of the library on concrete values.
