# pentacube

A solver for the pentacube puzzle: twenty-five pieces of five unit cubes each
are packed into a 5 x 5 x 5 cube.  The page that shows the puzzle talks to the
solver through WebAssembly; the solver's logic is a Verus library whose
contracts are proved.

Layout:

- `src/color.rs`: RGB colours packed as `0xRRGGBB`, darkened and lightened.
- `src/block.rs`: blocks (unit cubes) with coordinates and colours, cell
  indices `x + 5 y + 25 z`, and the bit of a cell.
- `src/piece.rs`: pieces of five blocks and the bits of the cells they cover.
- `src/rotations.rs`: the rotation matrices of the cube, enumerated in
  lexicographic order of their entries.
- `src/placement.rs`: turning pieces, their distinct turns about each block,
  and their placements at every cell of the cube.
- `src/holes.rs`: the face neighbours of every cell.
- `src/solver.rs`: the depth-first search, one step at a time, with its two
  pruning rules, and the checks of a search state.
- `src/checks.rs`: the checks that the geometry of a piece can be computed in
  32-bit integers.
- `app/`: the WebAssembly exports; they turn JSON into the library's types,
  keep the search state between calls and check each call's preconditions.
- `tests/`: tests on concrete pieces and piece sets.
