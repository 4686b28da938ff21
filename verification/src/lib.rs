//! Welfare-seeking allocation of one divisible resource among bidding guests.
//!
//! Every guest names a price per unit and a list of forbidden ranges: amounts
//! that are of no use to it. The solver hands the resource out in priority
//! order and repairs every amount that lands strictly inside a forbidden range.

pub mod allocation;
pub mod auction;
pub mod auction_laws;
pub mod error;
pub mod guest;
pub mod priority;
pub mod solver;
pub mod violation;
pub mod welfare_laws;

pub use crate::guest::Guest;
pub use crate::guest::Range;
