//! Heating and cooling capacity sizing for lists of equipment model codes.
//!
//! A request is a list of tokens such as `KM18H5Ox2`.  [`parse_user_input`]
//! reads it into a [`Demand`]; [`perform_calculation`] resolves the demand
//! against a [`Catalog`] of [`MachineData`] records, interpolates each
//! record's capacity at the design temperature, and sums the capacities into
//! a [`Report`].
//!
//! Temperatures and capacities are fixed-point numbers in thousandths; see
//! [`fixed`].

pub mod aggregation;
pub mod catalog;
pub mod demand;
pub mod fixed;
pub mod interpolation;
pub mod report;
pub mod text;
pub mod token;

pub use crate::catalog::Catalog;
pub use crate::catalog::MachineData;
pub use crate::demand::parse_user_input;
pub use crate::demand::Demand;
pub use crate::report::perform_calculation;
pub use crate::report::recommend_range;
pub use crate::report::CalculationTotals;
pub use crate::report::Report;
pub use crate::token::ParseError;
