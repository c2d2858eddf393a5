//! A discrete-time network of leaky integrate-and-fire neurons.
//!
//! Potentials, weights and spike drives are fixed-point numbers (see
//! [`fixed`]), and the time series of the simulation are kept in
//! `ndarray::Array2<i64>` matrices indexed `[time, neuron]`.
pub mod fixed;
pub mod grid;
pub mod layer;
pub mod neuron;
pub mod theorems;
