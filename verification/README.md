# dobutsu_shogi

A solver for Dobutsu Shogi, written in Verus: the move generator, the state
collections and the retrograde analysis carry contracts that Verus proves.

## Layout

- `src/` — the verified library.
  - `bits`, `offset`, `pieces`, `coords`, `movement`: the bit layout of a
    position, piece codes, coordinates and the legal squares of each piece.
  - `node`: search nodes (a state with its state stats), their terminality,
    the change of perspective between the players and the normal form of a
    node.
  - `children`, `parents`: the moves and drops that lead from a node, and the
    ones that lead to it.
  - `lineage`: how children and parents agree: every child lists its parent,
    every parent lists its child, and neither list repeats a node.
  - `state`, `state_map`, `state_trie`, `state_set`, `state_key_set`: tries
    keyed by states, with their contents as maps and sets.
  - `forward_pass`, `backward_pass`, `best_child_map`, `prune`: the solver
    over a slice of search nodes; `retrograde` states and proves what
    solving a slice of all reachable nodes achieves.
  - `state_stats`, `stat_solver`: the solver over a map from states to state
    stats; `stat_retrograde` states and proves what solving a map of all
    reachable states achieves.
  - `inspector`, `pretty`, `solution_file`, `service`, `bytes`: the tree
    inspector's commands, what a reader is shown, the solution and database
    files as bytes, and the buffer service for the web frontend.
- `app/` — the program: file and console input and output, and the
  `wasm_bindgen` face of the buffer service.
- `tests/` — tests run against the compiled library.
