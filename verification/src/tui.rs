//! A terminal dashboard for training runs.
pub mod canvas;
pub mod style;
pub mod chart;
pub mod monitor;
pub mod scale;
pub mod sense;
pub mod dashboard;
