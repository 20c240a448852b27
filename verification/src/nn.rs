//! Neural network modules.
pub mod rng;
pub mod module;
pub mod linear;
pub mod conv;
pub mod embedding;
pub mod attention;
pub mod block;
pub mod gpt;
pub mod order;
pub mod entries;
pub mod model;
pub mod start;
pub mod carry;
pub mod pooling;
pub mod dropout;
pub mod batchnorm;
