//! Balancing of chemical equations: from two ordered lists of compounds,
//! compute the smallest positive integer coefficients that conserve every
//! element, or report why no balance was found.

pub mod arith;
pub mod model;
pub mod rational;
pub mod solve;
