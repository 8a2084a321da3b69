//! A minimal feed-forward network library tuned by perturbation and
//! selection rather than gradients: networks are cloned, randomly
//! perturbed, scored by a caller-supplied fitness function, and kept only
//! when they improve.
//!
//! Weights are signed 64-bit fixed-point numbers with 32 fractional bits
//! (see [`fixed`]), so every arithmetic step of the forward pass, the
//! mutation operators, and the text codec carries an exact contract.

pub mod codec;
pub mod error;
pub mod fixed;
pub mod matrix;
pub mod net;
pub mod noise;
pub mod rng;
pub mod vai;
pub mod vaid;

pub use error::VaiError;
pub use fixed::{FX_HALF, FX_ONE};
pub use noise::infinite_map;
pub use rng::rand_index;
pub use vai::VAI;
pub use vaid::VAID;
