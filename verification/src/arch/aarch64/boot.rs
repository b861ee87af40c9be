//! The stack that the kernel starts on.

use vstd::prelude::*;

verus! {

/// Bytes of the early stack.
pub const EARLY_STACK_LEN: usize = 65536;

/// The early stack.
pub struct EarlyStack(pub [u8; 65536]);

/// The stack pointer at the start: the end of a stack at `base`. It is aligned
/// as the stack is.
pub fn early_stack_top(base: usize) -> (top: usize)
    requires
        base + EARLY_STACK_LEN <= usize::MAX,
    ensures
        top == base + EARLY_STACK_LEN,
        base % 16 == 0 ==> top % 16 == 0,
{
    base + EARLY_STACK_LEN
}

} // verus!
