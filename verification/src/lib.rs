//! Captain/leadership pattern for fleet coordination, verified.
//!
//! A `Captain` leads a roster of agents; a `DecisionEngine` turns ternary votes
//! into a decision; a `Delegator` assigns tasks; a `SituationRoom` aggregates
//! ternary reports; a `FleetReport` aggregates agent statuses; and a
//! `SuccessionPlan` keeps the ordered line of heirs.

pub mod ternary;
pub mod decision;
pub mod registry;
pub mod situation;
pub mod fleet;
pub mod succession;
pub mod delegation;
pub mod captain;

pub use ternary::{Ternary, AgentStatus};
pub use decision::DecisionEngine;
pub use delegation::{AgentInfo, Delegator};
pub use situation::SituationRoom;
pub use fleet::FleetReport;
pub use succession::SuccessionPlan;
pub use captain::Captain;
