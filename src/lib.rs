//! A ranked song queue driven by per-voter weighted votes.
//!
//! The engine keeps a catalog of songs and a ledger of votes, derives a
//! score for every song, orders the songs that have not been played yet by
//! score (highest first), then name, then id, and pops the top song when
//! playback advances.

pub mod candidate;
pub mod catalog;
pub mod identity;
pub mod laws;
pub mod ledger;
pub mod order;
pub mod queue;

pub use candidate::Candidate;
pub use catalog::{audio_file, song_of_file};
pub use identity::{resolve, resolve_parsed, VoterResolution, TOKEN_MAX_AGE_DAYS};
pub use queue::{precedes, Jukebox, Song};
pub use ledger::{check_decision, EngineError, VoteLedger, VoteRow, MAX_DECISION, MIN_DECISION};
