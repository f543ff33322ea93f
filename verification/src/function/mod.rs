//! Named-handler dispatch: a registry of handlers, the activity that
//! dispatches to them, and the payloads that flow through it.
pub mod activity;
pub mod payload;
pub mod registry;
