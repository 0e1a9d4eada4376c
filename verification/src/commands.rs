//! The logic behind the command-line commands.

pub mod analyze;
pub mod check;
pub mod stressor;
pub mod test;
