//! Annealing on the affine geometry AG(4,3): the catalogue of its lines and
//! a partition state whose violation cost is maintained incrementally.

pub mod coverage;
pub mod geometry;
pub mod partition;
pub mod random;
pub mod space;
