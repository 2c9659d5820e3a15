//! Physical memory management for a bare-metal x86_64 kernel: region bump
//! allocation, the bootstrap memory map and a zoned buddy frame allocator.
pub mod block;
pub mod sizing;
pub mod zone;
pub mod region;
pub mod map;
pub mod pmm;
pub mod idt;
