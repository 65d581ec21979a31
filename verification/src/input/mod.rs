//! Synthetic pointer input.

pub mod holder;
pub mod pointer;
pub mod script;
pub mod wheel;
