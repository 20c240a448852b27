pub mod device;
pub mod dtype;
pub mod index;
pub mod math;
pub mod scalar;
pub mod fixed;
pub mod residue;
pub mod shape;
pub mod broadcast;
pub mod cpu;
pub mod dense;
pub mod storage;
pub mod arena;
pub mod cells;
pub mod cuda;
pub mod perm;
pub mod tensor;
pub mod op;
pub mod tape;
pub mod runtime;
pub mod handle;
pub mod record;
pub mod create;
pub mod track;
pub mod views;
pub mod forward;
pub mod mutate;
pub mod autograd;
pub mod custody;
pub mod ops;
pub mod scope;
pub mod trail;
pub mod lifecycle;
pub mod switches;
pub mod text;
pub mod opname;
pub mod checkpoint;
pub mod tui;
pub mod metrics;
pub mod nn;
pub mod optim;
pub mod descent;
pub mod training;

pub use switches::{cuda_available, init};
