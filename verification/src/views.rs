//! Layout of what the commands print.

pub mod matrix;
