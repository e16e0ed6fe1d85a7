//! Verified core of a log-domain upgrade-purchase simulator.
//!
//! Resource amounts spanning thousands of orders of magnitude are carried as
//! fixed-point base-10 logarithms.  On top of that kernel sit cost and value
//! models for purchasable upgrades, the upgrade entity itself, and the shared
//! tick / buy / fork / simulate engine that searches for the fastest purchase
//! schedule towards a goal.

pub mod engine;
pub mod intmath;
pub mod logdomain;
pub mod models;
pub mod theories;
pub mod upgrade;
