# lau-challenge

A challenge arena: players submit solutions to challenges, every submission is
checked against its challenge's constraints, and the results of each challenge
are kept ranked on a leaderboard.

The library under `src/` is verified with Verus:

- `quantity` — scores, costs and conservation measures: IEEE-754 doubles held
  by their raw bits and compared by their order keys (no arithmetic).
- `challenge` — challenges, constraints, submissions and results, their
  mathematical views, and the constraint check.
- `order` — the stable sort by an integer key that every ordering uses.
- `keyed` — maps from challenge id, held as sequences in first-insertion order.
- `ranking` — ranking a challenge's results by score.
- `arena` — the arena, its invariant, and its operations.
- `prebuilt` — the challenges that ship with the arena.
- `laws` — properties that span several operations.

`app/` holds the serde-serialisable forms of the types and the floating-point
edge (conversions to and from `f64`, and the conservation error of a submission).
