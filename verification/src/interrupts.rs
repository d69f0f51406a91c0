use vstd::prelude::*;

verus! {

/// What the processor pushes on the stack when it takes an interrupt.
#[derive(Clone, Copy, Debug, PartialEq, Eq, Structural)]
pub struct InterruptStackFrame {
    pub instruction_pointer: u64,
    pub code_segment: u64,
    pub cpu_flags: u64,
    pub stack_pointer: u64,
    pub stack_segment: u64,
}

} // verus!
