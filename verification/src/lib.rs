//! Verified core of a point-cloud tiler: PLY parsing, conversion options, and
//! the adaptive Cartesian tile tree.

pub mod aggregate;
pub mod binary64;
pub mod bounds;
pub mod codec;
pub mod convert;
pub mod decimate;
pub mod extension;
pub mod groups;
pub mod histogram;
pub mod leaves;
pub mod numbers;
pub mod options;
pub mod paths;
pub mod ply;
pub mod point;
pub mod runs;
pub mod sizes;
pub mod text;
pub mod tiles;
pub mod tree;
