//! Stable radix sorts of extracted rows by their `id`.

pub mod radix;
pub mod stable;
