# vearo

A deep learning training library in Verus: tensors, reverse-mode automatic
differentiation, layers, optimizers and training reports. Every item under `src/`
is verified; `app/` is the ordinary Rust around it.

The library computes with any type that implements `scalar::Scalar`, so every
contract says exactly which operations are done and in which order. In the library
`fixed::Fixed` implements it for fixed-point numbers and `residue::Residue` for whole
numbers without rounding; `app/float.rs` implements it for `f32`.

State is explicit. A `runtime::Runtime` holds the blocks of memory, the handles'
metadata, the tape, the gradients and the switches. A handle is given back with
`Runtime::release`.

## Layout

- `shape`, `index`, `broadcast`, `perm`: shapes, coordinates, strides, broadcasting
- `storage`, `arena`, `cells`, `tensor`, `handle`, `create`, `views`: blocks of
  memory, who refers to them, and handles on them
- `cpu`: every operation and its gradient on the processor
- `cuda`: device memory slots and the launches that an operation queues
- `ops`, `forward`, `track`, `record`, `tape`: tensor methods and what they record
- `autograd`: the sweep over the tape, gradients, activation checkpoints that are
  replayed as blocks, and the pass that queues its gradients on a device
- `scope`, `trail`: what a computation leaves behind, and each of its steps
- `nn`, `optim`, `training`: layers, optimizers, schedules, clipping
- `checkpoint`, `metrics`, `tui`, `text`: files, records and terminal reports
- `lifecycle`: how long blocks and gradients live
- `app`: `f32`, threads, files, the terminal, and the device driver that executes
  what the library queues

## Laws

Properties that span several functions are public proof functions whose names
begin with `law_`. Some of them:

- a backward pass over a recorded tape always succeeds (`autograd::totality`,
  `autograd::growth`)
- in exact arithmetic the gradient rule of a linear operation is its adjoint, from
  broadcast sums to batched matrix products, convolution and pooling
  (`autograd::adjoint` and its neighbours)
- in exact arithmetic a whole backward pass is the adjoint of the computation that
  was recorded: the chain rule (`autograd::chain`, `autograd::tangent`)
- a block that is run again on a tape of its own comes to the same gradients as
  among the other steps (`autograd::alone`)
- on fixed-point numbers softmax keeps the order of its input and adds up to 1, cross
  entropy is never negative, and attention gives hidden positions no weight
  (`cpu::weights`); GELU is symmetric (`cpu::activation`)
- a clone given back leaves no trace, and no block outlives its last handle
  (`lifecycle`)
- a layer records exactly the steps that it computes, and its output requires
  gradients if and only if they flow to it (`trail`, `nn`)
- broadcasting commutes and gives the least common shape (`broadcast`)
- what a checkpoint file holds is what was written to it (`checkpoint`)
- a step of an optimizer moves each parameter by its own gradient alone
  (`training`)
