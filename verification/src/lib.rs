//! Smart Todo's data layer: the description of synced tables, the change log
//! that devices exchange through a shared folder, and the rules that merge
//! another device's changes into the local database.

pub mod text;
pub mod sync;
pub mod db;
pub mod commands;
