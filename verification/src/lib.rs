//! A compressed set of `u32` values, stored as a two-level structure:
//! the high 16 bits of a value select a container, the low 16 bits are
//! kept inside it, either as a sorted array or as a 65 536-bit bitmap.

pub mod array_gallop;
pub mod array_ops;
pub mod array_store;
pub mod array_util;
pub mod bit_facts;
pub mod bitmap_store;
pub mod bytes;
pub mod container;
pub mod laws;
pub mod multi_ops;
pub mod roaring;
pub mod seq_facts;
pub mod serial;
pub mod store;
pub mod util;
