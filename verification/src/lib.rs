//! Logic of a bridge between desktop automation and wlroots compositors.

pub mod capture;
pub mod cli;
pub mod conn;
pub mod doctor;
pub mod double;
pub mod input;
pub mod output;
pub mod rounding;
pub mod screens;
pub mod search;
pub mod text;
pub mod wm;
