//! Authority-anchor bookkeeping and content-evolution tracing for groups of
//! writers that share one group identity.
pub mod types;
pub mod group;
pub mod validation;
pub mod evolution;
pub mod store;
pub mod registry;
pub mod content;
pub mod tag;
