//! Streaming signal filters over fixed-point samples.
//!
//! A filter consumes a series one sample at a time, keeps a bounded history
//! and reports one output per sample. Filters chain by ownership: a filter
//! owns the transform that feeds it and forwards every sample to it first,
//! so the outermost filter of a chain is the chain.
//!
//! Samples and outputs are [`Fixed`] values, integers that count units of
//! 2^-32. Every result is the exact value of its formula rounded down to such
//! a unit, and saturated where it leaves the range of a sample.
//!
//! The contract of all filters is [`StreamTransform`]. It describes a filter
//! by its response to the samples still to come, which makes the outputs of
//! a whole chain a function of the series fed to it.

pub mod center_of_gravity;
pub mod echo;
pub mod fixed;
pub mod laguerre_rsi;
pub mod sliding_window;

pub use center_of_gravity::CenterOfGravity;
pub use echo::Echo;
pub use fixed::Fixed;
pub use laguerre_rsi::LaguerreRSI;
pub use sliding_window::SlidingWindow;
pub use sliding_window::StreamTransform;
