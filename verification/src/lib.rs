//! Storage management for a generic 64-bit machine-code backend.
//!
//! The [`manager::StorageManager`] decides, for every symbol at every program
//! point, where its value lives: in a general-purpose register, a
//! floating-point register, or a slot on the function's stack frame. It emits
//! the move/load/store instructions required when a location must change,
//! through an injected [`target::Assembler`], and honours the register
//! classification of an injected [`target::CallConv`]. It also maintains the
//! function's stack frame layout: a coalescing free-list of reclaimable
//! chunks, a running stack-size total, and the set of callee-saved registers
//! that were clobbered and must be restored at the epilogue.
use vstd::prelude::*;

pub mod target;
pub mod layout;
pub mod loads;
pub mod machine;
pub mod manager;
pub mod simple;
pub mod calls;
pub mod frees;
pub mod laws;
pub mod regops;
pub mod stackalloc;
pub mod structs;

verus! {

} // verus!
