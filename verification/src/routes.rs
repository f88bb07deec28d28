//! What the service's routes compute.

pub mod drawing;
pub mod pixels;
pub mod qr;
