//! The operations that autograd knows.
use vstd::prelude::*;

verus! {

/// Type of operation recorded on the tape.
#[derive(Debug)]
pub enum OpType {
    /// Elementwise addition.
    Add,
    /// Elementwise subtraction.
    Sub,
    /// Elementwise multiplication.
    Mul,
    /// Elementwise division.
    Div,
    /// Matrix multiplication.
    Matmul,
    /// Tensor reshape.
    Reshape,
    /// Swapping dimensions.
    Transpose {
        /// First dimension index.
        dim0: usize,
        /// Second dimension index.
        dim1: usize,
    },
    /// Permuting dimensions.
    Permute {
        /// Target axis ordering.
        axes: Vec<usize>,
    },
    /// Elementwise `ReLU`.
    Relu,
    /// Elementwise `GELU`.
    Gelu,
    /// Softmax over a single axis.
    Softmax {
        /// The softmax axis.
        dim: usize,
    },
    /// Layer normalization.
    LayerNorm {
        /// Numerical stability epsilon represented as bits.
        eps_bits: u32,
    },
    /// Embedding lookup.
    Embedding,
    /// Categorical cross-entropy loss.
    CrossEntropy,
    /// Sum over a single axis.
    Sum {
        /// The reduced axis.
        dim: usize,
        /// Whether the reduced axis was kept as size 1.
        keep_dim: bool,
    },
    /// Mean over a single axis.
    Mean {
        /// The reduced axis.
        dim: usize,
        /// Whether the reduced axis was kept as size 1.
        keep_dim: bool,
    },
    /// Two-dimensional convolution.
    Conv2d {
        /// Convolution stride.
        stride: usize,
        /// Zero-padding applied to each spatial side.
        padding: usize,
    },
    /// Two-dimensional max pooling.
    MaxPool2d {
        /// Pooling window size.
        kernel_size: usize,
        /// Pooling stride.
        stride: usize,
        /// Zero-padding (treated as -inf) applied to each spatial side.
        padding: usize,
    },
    /// Two-dimensional average pooling.
    AvgPool2d {
        /// Pooling window size.
        kernel_size: usize,
        /// Pooling stride.
        stride: usize,
        /// Zero-padding applied to each spatial side.
        padding: usize,
    },
    /// Two-dimensional batch normalization.
    BatchNorm {
        /// Whether batch normalization is in training mode.
        training: bool,
        /// Numerical stability epsilon represented as bits.
        eps_bits: u32,
    },
    /// Activation checkpointing node.
    Checkpoint,
    /// Fused Scaled Dot-Product Attention.
    FusedAttention,
}

} // verus!
