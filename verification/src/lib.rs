//! The controller of a compute instance.
//!
//! A compute instance maintains collections (indexes, sinks and logs) on a set of replicas, each
//! of which does all of the work. An [`instance::Instance`] holds what is known of it: the
//! replicas, the collections with their read and write frontiers, the peeks and subscriptions in
//! progress, and the commands that bring a new replica up to date. Requests that touch the
//! storage controller go through an [`instance::ActiveInstance`].
//!
//! An instance talks to nobody. What has to be done outside (send a command, start a replica,
//! tell the storage controller) it queues as [`action::Action`]s; its surroundings take these,
//! carry them out in order, and report back what comes of them.
//!
//! [`model`] says what every request turns an instance into, and [`laws`] proves what then holds
//! from one request to the next.
pub mod action;
pub mod changes;
pub mod collection;
pub mod command;
pub mod error;
pub mod fresh;
pub mod frontier;
pub mod ids;
pub mod instance;
pub mod laws;
pub mod model;
pub mod ordered;
pub mod pending;
pub mod policy;
pub mod propagation;
pub mod response;
pub mod storage;
pub mod sums;
