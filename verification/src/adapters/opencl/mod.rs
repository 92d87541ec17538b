//! The OpenCL adapter's pieces that are plain logic: what an error code means, and the ladder of
//! checks a device is put through and the answers it is held to.

pub mod choice;
pub mod ffi;
pub mod ladder;
pub mod plan;
