//! A fixed-capacity, open-addressing hash table whose whole state can be
//! written to, and read back from, a snapshot of bytes, and the arithmetic of
//! the QR code service that keeps one.

pub mod errors;
pub mod library;
pub mod qr_code;
pub mod routes;
