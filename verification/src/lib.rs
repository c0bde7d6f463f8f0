//! Engine for timed, crowd-participation drawings: a store of active
//! giveaways, validation of new drafts, membership tracking driven by
//! reaction events, winner sampling, deadline sweeps, and a persistence
//! codec with a proved round trip.

pub mod events;
pub mod giveaway;
pub mod persist;
pub mod resolve;
pub mod scheduler;
pub mod store;
