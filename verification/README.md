# Ponent

The analyses of the Ponent compiler that decide whether a program is accepted,
as a verified library.

- `octagon`: the octagon abstract domain. Bounds on variables, sums and
  differences, kept in difference-bound matrices.
- `loops`: loops as transition problems for bounded integers.
- `resolver`: names and types of a program.
- `place`, `hir`, `polonius`: which loans are live where, and the borrow errors
  that follow from it.
- `region_tree`: the tree of inference regions.
- `query`: a cache of computations that knows what depends on what, and keeps
  workers from waiting for each other forever.

Every function in `src/` carries a contract. Verus proves them all but those of
the small wrappers around `num-bigint`, `rustc-hash` and a few functions of the
standard library, which are marked `external_body` or `assume_specification` and
say what they claim. What the library promises as a whole is stated by the public
proof functions whose names begin with `law_`.

`app/` holds what the library leaves to its surroundings: files, an external
engine, threads.
