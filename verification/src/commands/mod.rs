//! The values the app's commands exchange with its user interface, and the
//! rules those commands apply.

pub mod settings;
pub mod stats;
pub mod sync;
pub mod tasks;
pub mod timer;
