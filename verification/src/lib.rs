//! Free-memory bookkeeping for an allocator that takes its heap from the
//! program break: blocks of free memory, an ordered skip list over them, and
//! the arbiter that moves the break.

pub mod block;
pub mod order;
pub mod brk;
pub mod search;
pub mod chain;
pub mod pool;
