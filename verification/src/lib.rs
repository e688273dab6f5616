//! A minimal x86-64 kernel core: physical frame allocation, virtual-address
//! mapping, heap allocation, a cooperative task executor, and the
//! interrupt-driven event queue that connects interrupt context to task
//! context.

use vstd::prelude::*;

pub mod arch;
pub mod events;
pub mod frames;
pub mod heap;
pub mod interrupts;
pub mod keys;
pub mod paging;
pub mod qemu;
pub mod tasks;
pub mod vga;

verus! {

} // verus!
