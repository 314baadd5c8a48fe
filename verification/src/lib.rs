//! The core of a small kernel for one RISC-V processor with Sv39 paging:
//! address types, a frame allocator, page tables, address spaces, tasks, a
//! first-in-first-out scheduler and the trap dispatcher.
//!
//! The kernel keeps its whole state in values that are passed around: the
//! content of physical memory in a [`memory::PhysMemory`], the free frames
//! in a [`frame_allocator::StackFrameAllocator`], and everything together in
//! a [`kernel::Kernel`]. What touches the machine itself, such as control
//! registers, the firmware and the switch between flows of control, is left
//! to the code around this library, which is told what to do by the values
//! that the functions here return.
//!
//! Every function states what it does over a model of the state: the
//! mapping that a page table stands for, the frames that an owner holds, the
//! queue of ready tasks. The proofs of these statements are checked by
//! Verus.

pub mod address;
pub mod config;
pub mod frame_allocator;
pub mod image;
pub mod kernel;
pub mod memory;
pub mod memory_set;
pub mod page_table;
pub mod sbi;
pub mod sync;
pub mod syscall;
pub mod task;
pub mod timer;
pub mod trap;
