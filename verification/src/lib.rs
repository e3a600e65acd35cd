//! An arbitrary-precision unsigned integer stored as a little-endian
//! sequence of decimal digits, with verified arithmetic: addition, checked
//! subtraction, multiplication (scalar and full), division with remainder
//! (scalar fast path and normalized long division), exponentiation,
//! ordering, and decimal parse/format.

pub mod add_sub;
pub mod compare;
pub mod divide;
pub mod laws;
pub mod model;
pub mod mul;
pub mod text;
pub mod value;

pub use value::Digits;
pub use value::NonSmallInt;
