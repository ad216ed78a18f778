//! Integer core of a cube-sphere planet generator: deterministic seeding,
//! plate-map smoothing and merging, plate-boundary marking and mesh indexing.

pub mod grid;
pub mod tools;

pub mod generator;
pub mod plate_map;
pub mod merging;
pub mod boundaries;
pub mod planet;
pub mod mesh;
pub mod view;
