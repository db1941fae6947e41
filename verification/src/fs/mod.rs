pub mod vfs;
pub mod memfs;
pub mod dunitfs;
pub mod devfs;
