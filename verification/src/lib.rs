//! Verified core of a small x86-64 hobby kernel: the heap allocator's free list,
//! the round-robin scheduler, the blocking mutex's wait queue, the framebuffer text
//! console and the CMOS clock decoding.
#![allow(non_snake_case)]

pub mod CMOS;
pub mod linked_list_allocator;
pub mod task;
pub mod scheduler;
pub mod mutex;
pub mod framebuffer;
pub mod pml4;
pub mod frames;
pub mod primes;
pub mod gdt;
