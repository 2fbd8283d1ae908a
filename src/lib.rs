//! Flagging statistics and source peeling for row-oriented visibility tables.
//!
//! Floating-point values (timestamps and complex samples) are handled here by
//! their IEEE-754 bit patterns, so that every decision the library takes can
//! be stated and proved over integers.

pub mod error;
pub mod flagts;
pub mod peel;
pub mod timekey;
