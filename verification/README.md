# wfc

Wave function collapse over tile adjacency rules, as a Verus-verified library
with a thin Elixir binding around it.

- `src/` is the verified library:
  - `strmap.rs`: an insertion-ordered map from strings to values;
  - `text.rs`: character-level helpers for tile names;
  - `tile_set.rs`: adjacency rules, rule sets (adding and mirroring links) and
    tile sets (including the symmetry classes applied to each tile's rule);
  - `names.rs`: the names of transformed tiles;
  - `symmetry.rs`: symmetry classes, the variants a class calls for and their
    file names;
  - `expand.rs`: expansion of a rule set by the transformations of its tiles;
  - `entropy.rs`: entropies as single-precision bit patterns, and counts as
    floats;
  - `random.rs`: the random draws, from `rand`;
  - `wave.rs`: regions — weighted draws, collapse, restriction;
  - `grid.rs`: the wave grid, its listing and its candidates for collapse;
  - `propagate.rs`: collapsing the wave and propagating each collapse.
- `app/` holds what the library leaves out: the Elixir entry points (rustler),
  the JSON documents (serde), the tile images (image), and the floating-point
  entropy and pixel blending.
- `tests/` exercises the library on concrete values.
