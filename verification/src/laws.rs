//! What holds of an instance from one request to the next.
pub mod accounts;
pub mod answers;
pub mod balance;
pub mod commands;
pub mod compaction;
pub mod costs;
pub mod creation;
pub mod delivery;
pub mod dropping;
pub mod growth;
pub mod history;
pub mod membership;
pub mod policies;
pub mod quiet;
pub mod readable;
pub mod recorded;
pub mod refusals;
pub mod replicas;
pub mod reports;
pub mod requests;
pub mod round_trips;
pub mod storage_claims;
pub mod storage_moves;
pub mod storage_requests;
pub mod told;
pub mod tracking;
pub mod views;
