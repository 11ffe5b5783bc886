//! Verified integer core of the phased-array far-field and radiated-power kernels.
pub mod beam;
pub mod cut;
pub mod farfield;
pub mod hasher;
pub mod lattice;
pub mod metrics;
pub mod order;
pub mod prad;
pub mod quadrature;
