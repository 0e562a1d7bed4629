# water_sort_core

A water sort puzzle: vials of coloured cells, where a move pours the top run
of one vial into another. The library deals puzzles, applies pours, and
searches for the least number of moves that sorts a puzzle. The search
follows pruned moves (it never pours a single block into an empty vial, nor
part of a run onto another colour); its answer is the least number of such
moves, and it is proved that the answer can be played as that many pours.
Whether pruning ever misses a shorter sequence of arbitrary pours is not
proved. The logic is proved against its contracts.

Layout:

- `src/puzzle.rs`: vials, `pour`, dealing a shuffled arrangement, and the
  puzzle type (`GenericPuzzle`, `Puzzle`) with its operations.
- `src/solver.rs`: annotated vials (block count and top colour), the moves
  the solver considers, and `solve`, a breadth-first search over states
  grouped by the number of moves that lower the block count.
  - `src/solver/order.rs`: the order of annotated vials and of states,
    sorting a state, and the ascending columns of states the search keeps.
    The search keeps its sets of states as sorted vectors with binary
    search: a state is an array of the library's own structs, and a hash
    set keyed by such a struct (with derived `Eq` and `Hash`) gives nothing
    that can be proved about lookups.
  - `src/solver/laws.rs`: what every solver move keeps (exact annotations,
    block counts) and that every solver move is a pour.
- `src/ui/puzzle_display.rs`: the decisions behind the page: which colour a
  cell is painted in, and how a click or a button changes the session.
- `src/rng.rs`: the shuffle, done by `rand`, and a generator that counts
  the shuffles made with it (so a contract can say how many deals were made).
- `src/sim.rs`: dealing and solving one random puzzle.
- `app/`: the web page (DOM, event loop) and a small text simulation.
