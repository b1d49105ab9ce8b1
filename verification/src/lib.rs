//! Wave function collapse over tile adjacency rules: rule-set expansion by
//! tile symmetries, tile naming, and the collapse/propagation of a wave.

pub mod strmap;
pub mod text;
pub mod tile_set;
pub mod names;
pub mod symmetry;
pub mod expand;
pub mod random;
pub mod entropy;
pub mod wave;
pub mod grid;
pub mod propagate;
