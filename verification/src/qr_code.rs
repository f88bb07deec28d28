//! QR codes, as the `qrcodegen` crate makes them.

pub mod generator;
