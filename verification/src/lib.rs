//! Memory- and task-management core of a bare-metal kernel.
//!
//! Two components: a physical frame allocator that tracks every 4 KiB frame
//! of usable RAM in a bitmap, and a cooperative executor that multiplexes
//! suspendable units of work onto a single execution context.

pub mod bitmap;
pub mod coop;
pub mod executor;
pub mod phys;
