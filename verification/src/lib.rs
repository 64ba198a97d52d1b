//! Verified core of a small fruit classifier: a one-hidden-layer network
//! trained by mini-batch gradient descent.
//!
//! This crate holds the exact logic of the trainer — label vocabulary
//! construction and one-hot encoding, the train/evaluation split, the batch
//! schedule of an epoch, argmax-based accuracy accounting, and fixed-point
//! feature standardization — each with a proved contract.  The
//! floating-point arithmetic of the network itself (forward pass,
//! backpropagation, loss) lives with the caller.

pub mod eval;
pub mod labels;
pub mod normalize;
pub mod schedule;
pub mod split;
