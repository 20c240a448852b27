//! Operations on tensors.
pub mod methods;
pub mod gradients;
pub mod batchnorm;
