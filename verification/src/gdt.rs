//! Layout constants of the global descriptor table and the task state segment.
use vstd::prelude::*;

verus! {

/// Interrupt-stack-table slot of the stack the double-fault handler runs on.
pub const DOUBLE_FAULT_IST_INDEX: u16 = 0;

/// Bytes of the double-fault handler's stack.
pub const DOUBLE_FAULT_STACK_SIZE: usize = 20480;

} // verus!
