//! What the device is told to do, in order.
use vstd::prelude::*;

verus! {

/// The kernels of the device module.
#[derive(Debug, Clone, Copy, PartialEq, Eq, Structural)]
pub enum Kernel {
    AddBroadcast,
    SubBroadcast,
    MulBroadcast,
    DivBroadcast,
    ReluForward,
    GeluForward,
    Sum,
    Mean,
    SoftmaxForward,
    LayernormForward,
    LayernormBackward,
    EmbeddingForward,
    EmbeddingBackward,
    CrossEntropyForward,
    CrossEntropyBackward,
    Matmul,
    Conv2dForward,
    Conv2dBackwardBias,
    Conv2dBackwardWeight,
    Conv2dBackwardInput,
    Maxpool2dForward,
    Maxpool2dBackward,
    Avgpool2dForward,
    Avgpool2dBackward,
    BatchnormForward,
    BatchnormBackward,
}

/// The name of a kernel in the device module.
pub open spec fn kernel_name(k: Kernel) -> Seq<char> {
    match k {
        Kernel::AddBroadcast => "add_broadcast_kernel"@,
        Kernel::SubBroadcast => "sub_broadcast_kernel"@,
        Kernel::MulBroadcast => "mul_broadcast_kernel"@,
        Kernel::DivBroadcast => "div_broadcast_kernel"@,
        Kernel::ReluForward => "relu_forward"@,
        Kernel::GeluForward => "gelu_forward"@,
        Kernel::Sum => "sum_kernel"@,
        Kernel::Mean => "mean_kernel"@,
        Kernel::SoftmaxForward => "softmax_forward"@,
        Kernel::LayernormForward => "layernorm_forward"@,
        Kernel::LayernormBackward => "layernorm_backward"@,
        Kernel::EmbeddingForward => "embedding_forward"@,
        Kernel::EmbeddingBackward => "embedding_backward"@,
        Kernel::CrossEntropyForward => "cross_entropy_forward"@,
        Kernel::CrossEntropyBackward => "cross_entropy_backward"@,
        Kernel::Matmul => "matmul_kernel"@,
        Kernel::Conv2dForward => "conv2d_forward"@,
        Kernel::Conv2dBackwardBias => "conv2d_backward_bias"@,
        Kernel::Conv2dBackwardWeight => "conv2d_backward_weight"@,
        Kernel::Conv2dBackwardInput => "conv2d_backward_input"@,
        Kernel::Maxpool2dForward => "maxpool2d_forward"@,
        Kernel::Maxpool2dBackward => "maxpool2d_backward"@,
        Kernel::Avgpool2dForward => "avgpool2d_forward"@,
        Kernel::Avgpool2dBackward => "avgpool2d_backward"@,
        Kernel::BatchnormForward => "batchnorm_forward"@,
        Kernel::BatchnormBackward => "batchnorm_backward"@,
    }
}

impl Kernel {
    /// The name of the kernel in the device module.
    #[must_use]
    pub fn name(self) -> (r: &'static str)
        ensures
            r@ == kernel_name(self),
    {
        match self {
            Kernel::AddBroadcast => "add_broadcast_kernel",
            Kernel::SubBroadcast => "sub_broadcast_kernel",
            Kernel::MulBroadcast => "mul_broadcast_kernel",
            Kernel::DivBroadcast => "div_broadcast_kernel",
            Kernel::ReluForward => "relu_forward",
            Kernel::GeluForward => "gelu_forward",
            Kernel::Sum => "sum_kernel",
            Kernel::Mean => "mean_kernel",
            Kernel::SoftmaxForward => "softmax_forward",
            Kernel::LayernormForward => "layernorm_forward",
            Kernel::LayernormBackward => "layernorm_backward",
            Kernel::EmbeddingForward => "embedding_forward",
            Kernel::EmbeddingBackward => "embedding_backward",
            Kernel::CrossEntropyForward => "cross_entropy_forward",
            Kernel::CrossEntropyBackward => "cross_entropy_backward",
            Kernel::Matmul => "matmul_kernel",
            Kernel::Conv2dForward => "conv2d_forward",
            Kernel::Conv2dBackwardBias => "conv2d_backward_bias",
            Kernel::Conv2dBackwardWeight => "conv2d_backward_weight",
            Kernel::Conv2dBackwardInput => "conv2d_backward_input",
            Kernel::Maxpool2dForward => "maxpool2d_forward",
            Kernel::Maxpool2dBackward => "maxpool2d_backward",
            Kernel::Avgpool2dForward => "avgpool2d_forward",
            Kernel::Avgpool2dBackward => "avgpool2d_backward",
            Kernel::BatchnormForward => "batchnorm_forward",
            Kernel::BatchnormBackward => "batchnorm_backward",
        }
    }
}

/// One kernel launch: the kernel, the grid, the buffers in argument order, the integer and the
/// number parameters, and the integers that follow them.
#[derive(Debug)]
pub struct Launch<S> {
    pub kernel: Kernel,
    /// Blocks in the grid.
    pub grid: (u32, u32, u32),
    /// Threads in a block.
    pub block: (u32, u32, u32),
    /// Device buffers, in the order of the kernel's arguments.
    pub buffers: Vec<u32>,
    /// The integer parameter buffer.
    pub info: Vec<i32>,
    /// The number parameter buffer. A layer normalisation kernel takes its one number as a plain
    /// argument instead, between its two integers.
    pub params: Vec<S>,
    /// Plain integer arguments behind the buffers.
    pub scalars: Vec<i32>,
}

/// A command to the device.
#[derive(Debug)]
pub enum Command<S> {
    /// Make a buffer of zeros.
    Create { slot: u32, len: usize },
    /// Fill a buffer with zeros.
    Clear { slot: u32 },
    /// Copy numbers into a buffer.
    Write { slot: u32, data: Vec<S> },
    /// Launch a kernel.
    Run(Launch<S>),
}

/// What a launch asks for.
#[verifier::ext_equal]
pub ghost struct LaunchView<S> {
    pub kernel: Kernel,
    pub grid: (u32, u32, u32),
    pub block: (u32, u32, u32),
    pub buffers: Seq<u32>,
    pub info: Seq<i32>,
    pub params: Seq<S>,
    pub scalars: Seq<i32>,
}

impl<S> Launch<S> {
    pub open spec fn view(self) -> LaunchView<S> {
        LaunchView {
            kernel: self.kernel,
            grid: self.grid,
            block: self.block,
            buffers: self.buffers@,
            info: self.info@,
            params: self.params@,
            scalars: self.scalars@,
        }
    }
}

/// What a command asks for.
#[verifier::ext_equal]
pub ghost enum Request<S> {
    Create { slot: u32, len: usize },
    Clear { slot: u32 },
    Write { slot: u32, data: Seq<S> },
    Run(LaunchView<S>),
}

impl<S> Command<S> {
    pub open spec fn view(self) -> Request<S> {
        match self {
            Command::Create { slot, len } => Request::Create { slot, len },
            Command::Clear { slot } => Request::Clear { slot },
            Command::Write { slot, data } => Request::Write { slot, data: data@ },
            Command::Run(l) => Request::Run(l@),
        }
    }
}

/// What a queue of commands asks for.
pub open spec fn requests<S>(queue: Seq<Command<S>>) -> Seq<Request<S>> {
    queue.map_values(|c: Command<S>| c@)
}

/// The grid and block extents that the driver picks for `n` threads: blocks of 1024 threads, as
/// many as cover `n`, in a row.
///
/// Calls `cudarc::driver::LaunchConfig::for_num_elems`, which rounds `n / 1024` up for the first
/// extent of the grid and leaves the others 1.
#[verifier::external_body]
fn launch_config(n: u32) -> (r: ((u32, u32, u32), (u32, u32, u32)))
    requires
        n + 1024 <= u32::MAX,
    ensures
        r.0 == (((n + 1023) / 1024) as u32, 1u32, 1u32),
        r.1 == (1024u32, 1u32, 1u32),
{
    let cfg = cudarc::driver::LaunchConfig::for_num_elems(n);
    (cfg.grid_dim, cfg.block_dim)
}

/// The number of blocks of 1024 threads that cover `n` threads.
pub open spec fn grid_for(n: nat) -> u32 {
    ((n + 1023) / 1024) as u32
}

/// The most elements that a launch can run over.
pub open spec fn launchable(n: nat) -> bool {
    n + 1024 <= u32::MAX
}

/// A launch with one thread for each of `n` elements.
pub open spec fn over_elems<S>(
    kernel: Kernel,
    n: nat,
    buffers: Seq<u32>,
    info: Seq<i32>,
    params: Seq<S>,
    scalars: Seq<i32>,
) -> LaunchView<S> {
    LaunchView {
        kernel,
        grid: (grid_for(n), 1u32, 1u32),
        block: (1024u32, 1u32, 1u32),
        buffers,
        info,
        params,
        scalars,
    }
}

/// A launch with one thread for each of `n` elements.
pub(crate) fn launch_over<S>(
    kernel: Kernel,
    n: usize,
    buffers: Vec<u32>,
    info: Vec<i32>,
    params: Vec<S>,
    scalars: Vec<i32>,
) -> (r: Launch<S>)
    requires
        launchable(n as nat),
    ensures
        r@ == over_elems(kernel, n as nat, buffers@, info@, params@, scalars@),
{
    let (grid, block) = launch_config(n as u32);
    Launch { kernel, grid, block, buffers, info, params, scalars }
}

} // verus!
