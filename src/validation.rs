//! Admission rules for mutations of the engine's entries.
pub mod delete_entry;
pub mod update_entry;
