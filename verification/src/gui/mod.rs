//! Drawing into pixel buffers.
pub mod renderer;
pub mod boot_text;
