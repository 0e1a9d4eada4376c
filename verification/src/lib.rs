//! Stressor analysis for Residuality Theory: components, stressors, the
//! incidence matrix that relates them, and the reports derived from it.

pub mod text;
pub mod model;
pub mod analysis;
pub mod cli;
pub mod commands;
pub mod storage;
pub mod views;
