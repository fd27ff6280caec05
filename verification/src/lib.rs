//! Search for short keys whose SHA-256 digest starts with the bytes of a
//! memorable label.

pub mod codec;
pub mod corpus;
pub mod hexcode;
pub mod matcher;
pub mod order;
pub mod pool;
pub mod range;
pub mod table;

