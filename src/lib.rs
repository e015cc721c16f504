//! Gift-exchange drafts: a registry of participants split into teams, a
//! feasibility check on the team sizes, and a randomised solver that gives
//! every participant exactly one recipient outside their own team.

pub mod error;
pub mod member;
pub mod rng;
pub mod draft;
pub mod form;
pub mod laws;
pub mod store;
