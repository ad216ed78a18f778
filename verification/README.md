# planetgen

A cube-sphere planet generator. The integer core is a Verus-verified library;
a small headless program around it does the floating-point geometry, the
noise, the configuration file and the climate maps.

## Layout

- `src/` — the verified library
  - `tools.rs` — SplitMix64 and the eight-digit seed codes
  - `generator.rs` — FNV-1a domain separation of the master seed into
    independent random streams, and the placement of microplates on seams
  - `plate_map.rs` — the plate map: majority smoothing, plate areas,
    adjacency, and the rewriting of merged plates
  - `merging.rs` — ranking of merge candidates, the Fisher-Yates shuffle of
    neighbours, and the probabilistic choice of merges
  - `boundaries.rs` — marking of classified plate boundaries and the
    breadth-first band around them
  - `mesh.rs` — shared-vertex numbering and the triangle index buffer
  - `grid.rs`, `planet.rs` — six-face grids and the plate enums
- `tests/` — tests of the library on concrete values
- `app/` — the program: plate directions and assignment by noise-warped
  nearest seed, continents, mountains, boundary classification by plate
  motion, mesh positions and colours, wind, temperature, precipitation and
  biomes

The program reads `planetgen_config.toml` (or the file given as its second
argument) and takes an optional eight-digit seed code as its first argument.

Every random choice is drawn from a stream seeded from the master seed by
FNV-1a and SplitMix64, and merges take neighbours in ascending id, so a seed
gives the same planet on every run; this rests on `rand`'s `StdRng` output,
which `rand` documents as reproducible on one platform but not across
platforms or `rand` versions. The library proves the seeds of the streams and
what is done with each draw, not the draws themselves.
