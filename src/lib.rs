//! Sample-accurate parameter smoothing.
//!
//! A parameter's value changes arrive as targets; a [`smoother::Smoother`] turns each into a
//! click-free trajectory of per-sample values, following a [`curve::SmoothingStyle`]: none,
//! linear, logarithmic or exponential, optionally scaled for oversampling. Interpolation runs on
//! the saturating fixed-point type [`fixed::Fixed`]; parameter types convert to and from it
//! through [`sample::Smoothable`], so integer parameters pass through fractional values and are
//! rounded only when read.

pub mod fixed;
pub mod sample;
pub mod curve;
pub mod smoother;
pub mod trajectory;
pub mod const_vec;
