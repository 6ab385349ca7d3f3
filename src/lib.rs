//! Page-replacement simulation: a locality-biased reference generator and
//! FIFO, LRU and Optimal (Belady) replay over a fixed number of frames.

pub mod frames;
pub mod stats;
pub mod run;
pub mod generator;
pub mod laws;
pub mod optimality;

pub use generator::{PageSource, Program, RefSeq};
pub use run::{ConfigError, Policy, TestRun};
pub use stats::{Ratio, RunStats};
