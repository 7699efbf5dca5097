//! A verified model of the hierarchical, typed key/value store that holds
//! installed keyboard layouts, together with the codec for its typed values
//! and the allocator that finds free layout identifiers.
//!
//! The store model ([`store`]) is a flat table of keys under five well-known
//! roots, matched case-insensitively. Handles ([`key`]) navigate it, read
//! and write typed values through the codec ([`value`]), and walk children
//! lazily. The allocator ([`layout`]) scans the layout container for the
//! next free key name and the next free 16-bit identifier. Text utilities
//! carry UTF-16 ([`utf16`], [`lines`]) and path handling ([`path`],
//! [`strutil`]).

pub mod errors;
pub mod strutil;
pub mod path;
pub mod utf16;
pub mod lines;
pub mod ranges;
pub mod value;
pub mod store;
pub mod key;
pub mod layout;
