//! The hash table and what it is made of.

pub mod hashtable;
pub mod item;
pub mod laws;
pub mod probe;
pub mod snapshot;
pub mod text;
