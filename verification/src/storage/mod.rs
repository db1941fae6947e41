//! Disk layout: GUID partition tables and the installer's placement rules.
pub mod gpt;
pub mod installer;
