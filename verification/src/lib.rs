//! Unit conversion over a table of known conversions.
//!
//! A table is a list of directed conversions between named units.  To
//! convert a value from one unit to another, [`find_conversion_path`] looks
//! for the shortest chain of conversions that leads from the first unit to
//! the second, and [`evaluate`] applies that chain to the value; [`convert`]
//! does both.

pub mod conversion;
pub mod convert;
pub mod evaluate;
pub mod path;
pub mod search;
pub mod table;

pub use conversion::{Calculation, Conversion};
pub use convert::convert;
pub use evaluate::evaluate;
pub use search::{find_conversion_path, find_conversion_steps};
pub use table::{build_conversions, knows_unit};
