//! Leaf nodes of a maple tree: fixed-capacity sparse leaves of key/value pairs
//! and range leaves that map ranges of keys to values, specified over the
//! sequences of their slots.
pub mod collections;
