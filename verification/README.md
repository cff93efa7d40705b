# vivere

A deterministic, energy-conserving artificial-life world: sunlight grows
food, organisms with evolvable recurrent brains and body genes graze,
reproduce with inheritance errors, die, and compost back into food.

The crate is in two parts.

- `src/` is the verified library (Verus). It holds the simulation's exact
  integer logic, each piece stated against a mathematical model and
  proved:
  - `rng` — the seeded xoshiro256++ stream every run is replayed from,
    and its snapshot state;
  - `grid` — the wrapped neighbour grid (a 3×3 cell scan finds exactly the
    entities within one cell on each axis);
  - `sampling` — the per-tick eating order (a permutation) and the
    diversity sample (distinct organisms), on their own streams;
  - `roster` — removing the dead while the living keep their order;
  - `heredity` — founder genes and the wiring errors of a child, drawn in
    a fixed order, with the gene cap and wiring ranges kept;
  - `genome` — ordering and matching wiring genes for genome distance;
  - `census` — the live/weak/dead wiring census and its histograms;
  - `counters` — per-window event counts that add up to the totals;
  - `snapshot` — magic-tagged snapshot framing;
  - `raster` — disc stamping, frame compression and terminal plotting;
  - `schedule`, `controls` — what the runner, the terminal window and the
    viewer decide between ticks.
- `app/` is the program around it: the `vivere` command line (run,
  import, inspect, gif, tty, view), the floating-point physics and brain,
  serde snapshot encoding and configuration files.

`tests/` exercises the library from outside.
