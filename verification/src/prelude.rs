//! The names that a user of the market needs.

pub use crate::market::Market;
pub use crate::matcher::{FIFOMatcher, Matcher};
pub use crate::order::{Order, Side};
pub use crate::trade::Trade;
pub use crate::{Price, Symbol};
