//! Bitpacking of integer columns.
//!
//! A column of integers seldom needs all the bits of its type. [`params`] finds
//! the least number of bits that represents every value of a column, [`encoder`]
//! packs the values to that width, [`scheduler`] works out which bytes of a packed
//! buffer hold the rows that are asked for, and [`decoder`] turns those bytes back
//! into values.
//!
//! [`laws`] states what holds of all of them together. What each call gives is said of
//! its arguments and its result alone in [`guarantees`], [`packing_laws`] and
//! [`page_laws`], with byte strings read as [`numbers`], and of a column that is packed
//! and read back in [`round_trip`].
pub mod array;
pub mod bits;
pub mod block;
pub mod decoder;
pub mod encoder;
pub mod guarantees;
pub mod laws;
pub mod numbers;
pub mod outside;
pub mod packing_laws;
pub mod page_laws;
pub mod params;
pub mod round_trip;
pub mod scheduler;

