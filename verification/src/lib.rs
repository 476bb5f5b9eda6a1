//! Order statistics over doubles, verified on their encodings.
//!
//! A double enters this library as its IEEE 754 binary64 encoding,
//! [`Binary64`]. The library orders encodings as the numbers they denote,
//! sorts a copy of a sequence without reordering equal numbers, and picks the
//! median: the middle element, the lower of the two central ones where the
//! length is even. It also says on which lengths each of the four statistics
//! has a value. Arithmetic on the numbers is left to the caller.

pub mod binary64;
pub mod median;
pub mod rank;
pub mod sort;
pub mod statistic;
pub mod value;

pub use binary64::Binary64;
pub use median::{contains_nan, median};
pub use sort::sorted_copy;
pub use statistic::{Plan, Statistic};
