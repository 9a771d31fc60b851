//! Month-by-month projection of recurring payments.
//!
//! A `Budget` owns a set of `Payment`s and a `Calendar`; payments expand into
//! dated occurrences which are bucketed into calendar months, optionally
//! filtered by label, and summed per month.

pub mod budget;
pub mod calendar;
pub mod config;
pub mod date;
pub mod export;
pub mod payment;
pub mod text;

pub use budget::{Budget, BudgetError};
pub use calendar::Calendar;
pub use config::{Config, Subscription};
pub use date::Date;
pub use export::{Export, Operation};
pub use payment::{Payment, PaymentGroup, Recurence};
