//! The execution core of a sandboxing engine.
//!
//! A [`RegionAllocator`] issues isolated memory regions and pools the ones that come back.
//! An [`Instance`] binds a region to a compiled [`Module`] and runs its guest code until the
//! guest returns, traps, or asks the host to serve a call. The schedulers drive whole
//! batches of instances to completion, one after the other or dealt out to workers, and
//! give the outcomes in the order of the instances.
//!
//! Every function states what it returns and changes over plain values: the view of each
//! type, and the functions on views that the modules define.

pub mod allocator;
pub mod batch;
pub mod board;
pub mod error;
pub mod instance;
pub mod layout;
pub mod linkage;
pub mod machine;
pub mod module;
pub mod parallel;
pub mod region;
pub mod scheduler;

pub use allocator::{AllocatorView, RegionAllocator};
pub use batch::{instantiate, instantiate_batch, retire, retire_batch};
pub use board::OutcomeBoard;
pub use error::Error;
pub use instance::{Instance, InstanceState, InstanceView};
pub use layout::{page_round_up, GUARD_SIZE, PAGE_SIZE};
pub use linkage::ensure_linked;
pub use machine::{CallDescriptor, HostReply, RunOutcome, TrapReason, STACK_LIMIT};
pub use module::{Instr, Module, ModuleView};
pub use parallel::{run_parallel, worker_count, worker_of};
pub use region::{Region, RegionView};
pub use scheduler::{complete, run_sequential};
