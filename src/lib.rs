//! Check-in reconciliation and policy deployment for a managed device fleet.
//!
//! The store is held as in-memory tables (`model::Db`); every query and
//! write that the reconciler performs is a verified function over them:
//! policy resolution (`resolver`), the versioned deploys (`deploys`), the
//! status ledger (`ledger`), the action queue (`queue`), the device
//! directory (`devices`) and the check-in itself (`checkin`).
pub mod model;
pub mod resolver;
pub mod deploys;
pub mod ledger;
pub mod queue;
pub mod devices;
pub mod checkin;
pub mod cli;
