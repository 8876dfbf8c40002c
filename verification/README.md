# icfpc2025

Tools for the ICFP Programming Contest 2025 ("library of rooms"): a local
problem server that generates hidden maps of rooms with six doors and labelled
rooms, answers exploration plans and judges guessed maps, and two solvers
(a brute-force explorer and a random-walk reconstructor).

The library in `src/` is written in Verus and verified by it. The calls into
`rand`, `itertools` and std's stable sort stand behind a few trusted wrappers
(in `random`, `sorting`, `copies` and `judge`) whose contracts are taken on
trust; every other function is checked against its contract, and some small
helpers have none beyond their types.

- `problem`, `generate`, `copies`, `balance`: map generation (a random spanning
  tree, the remaining doors paired up, optional copies rewired across copies),
  exploration of plans, and the proofs that generated maps are connected and
  have their doors paired.
- `judge`: the server's logic for `/explore` and `/guess`, with the law that a
  map's own description is judged correct.
- `pairing`: turning door targets into door-to-door connections for a guess.
- `brute_force`: the brute-force solver as a state machine (plans to send,
  results to record, map to guess).
- `random_walk`, `walker`, `union_find`, `label_observation`, `rooms`,
  `walk_data`: the random-walk solver: walks, observations of labels along
  them, merging of walk positions into rooms, and assembly of the map.
- `ploidy`, `routes`: exploring maps made of several copies of a base map.
- `problem_definition`, `request`, `types`, `random`, `sorting`, `text`:
  problem sizes, the request interface, wire-level types and small helpers.

`tests/` holds the tests. `app/` holds the programs around the library: the
HTTP mock server, the HTTP client and the command-line entry point.
