//! What the incidence matrix tells about an architecture.

pub mod matrix;
