//! Sorting of integer buffers: comparison sorts on 64-bit keys, radix
//! sort on 32-bit keys and counting sort on bytes.

pub mod comparison;
pub mod counting;
pub mod keys;
pub mod order;
pub mod radix;
