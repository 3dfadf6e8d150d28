//! IEEE 754 arithmetic carried out on bit patterns. Every operation returns the
//! number nearest to the exact result, ties to even.

pub mod bounds;
pub mod convert;
pub mod laws;
pub mod model;
pub mod number;
pub mod parts;
pub mod root;
pub mod round;

pub use number::{F32, F64};
