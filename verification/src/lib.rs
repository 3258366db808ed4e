//! Reading, writing and checking Elasto Mania level files.
//!
//! Coordinates are carried as the IEEE-754 bit patterns of their `f64`
//! values; the few steps of the format that need floating-point arithmetic
//! (the encoded counts and the integrity sums) are handed in and out as
//! bit patterns as well.
pub mod crypt;
pub mod endian;
pub mod error;
pub mod layout;
pub mod level;
pub mod reader;
pub mod roundtrip;
pub mod text;
pub mod top10;
pub mod topology;
pub mod writer;
