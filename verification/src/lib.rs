//! LED controller for handheld devices.

pub mod apply;
pub mod backend;
pub mod battery;
pub mod binary64;
pub mod color;
pub mod command;
pub mod conf;
pub mod daemon;
pub mod detect;
pub mod effects;
pub mod individual;
pub mod json;
pub mod text;
