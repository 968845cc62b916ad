//! Neuroevolution of feed-forward networks whose topology grows and shrinks.
//!
//! A genome is a set of neuron genes and link genes referenced by integer ids.
//! Real-valued quantities (biases, weights, fitness) are carried as the bit
//! patterns of their single-precision encoding: the library orders and moves
//! them but never does arithmetic on them.

pub mod scalar;
pub mod random;
pub mod genome;
pub mod graph;
pub mod nn;
pub mod activation;
pub mod mutation;
pub mod crossover;
pub mod population;
pub mod policy;

