//! Tracks a single user's subscribed shows and unwatched episodes: a
//! progress store with an invariant-preserving watch-marking algorithm, a
//! versioned on-disk document format, and the retry and reconciliation rules
//! of the catalog client.

pub mod errors;
pub mod tvmaze_api;
pub mod user_data;
pub mod codec;
pub mod retry;
pub mod sync;
