//! Integer core of a small reinforcement-learning toolkit: a seeded xorshift
//! generator, the Snake game and its text board, a bounded replay memory, the
//! shape and index bookkeeping of dense arrays, a tape for reverse-mode
//! differentiation with its backward sweep, the layout and forward pass of
//! multilayer perceptrons, the binary weight file, and the update schedule of
//! the learning agent. Element arithmetic is supplied by the caller as
//! closures.

pub mod autograd;
pub mod dqn;
pub mod env;
pub mod grid;
pub mod nn;
pub mod rand;
pub mod replay;
pub mod tensor;
pub mod weights;
