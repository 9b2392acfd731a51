# lizstate

The logic of a turn-based, grid-based roguelike, written in Verus: functions carry
`requires` / `ensures` contracts, and Verus proves them. Where a contract leaves part of a
result open (which of several shortest paths a search prefers, for one), the doc comment
of the function says so.

Layout of `src/`:

- `geom`: grids of square tiles (coordinates, tiles, a free group, chunks,
  isometries, induced subgraphs, added edges, tile maps) and shapes on them.
- `positional`: positions and offsets, octants, segments between tiles, and a strict
  field of view built on a trie of segments.
- `pathfinding`: a best-first search that remembers what it found between calls; with a
  sound estimate, on a fresh table or one filled by searches from free tiles, it finds a
  shortest walk whenever one fits its limit.
- `entity`, `floor`: the entities of a floor, who occupies which tile, what each has
  seen, whose turn it is, and pure updates that give a new floor and a log of events.
- `actions`: actions that are checked into commands, and commands that update a floor.
- `strategy`: how computer-controlled entities choose their turn.
- `mapgen`: the river branches of a cave system (over `petgraph`) and helpers for
  random generation.
- `writer`, `lazyrc`, `posmap`: a value with a log, a lazily shared value, and a map
  keyed by position.

`tests/` runs the library on concrete values.
