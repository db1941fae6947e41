//! Device drivers: the decoding and bookkeeping that the hardware paths share.
pub mod keyboard;
pub mod mouse;
pub mod block;
pub mod pci;
pub mod registry;
pub mod ahci;
pub mod usb;
pub mod net;
