//! A subscription engine: long-lived background data sources are declared as
//! recipes, recognised across update cycles by a content hash, and reconciled
//! against the set of sources that are already running.
//!
//! The library holds the decisions only. Waiting, spawning and aborting are
//! left to the embedding application, which feeds the outcome of each wait
//! back as a plain value.
//!
//! - [`hasher`]: the hash that gives a recipe its identity.
//! - [`subscription`]: recipes, identities and subscriptions.
//! - [`tracker`]: what a change of the subscription starts and cancels.
//! - [`time`]: the recipe that ticks at a fixed period.

pub mod hasher;
pub mod subscription;
pub mod time;
pub mod tracker;
