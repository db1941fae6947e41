//! USB: the xHCI controller bookkeeping and boot-protocol mouse reports.
pub mod xhci;
pub mod hid_mouse;
