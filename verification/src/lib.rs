//! Bounded FIFO ring buffers whose behaviour is specified over sequences.

pub mod fixed;
pub mod log;
pub mod model;
pub mod modular;
pub mod ringbuf;

pub use log::{Level, Logger, RingLogger};
pub use ringbuf::{MpmcRingBuf, MpscRingBuf, SpscRingBuf};
