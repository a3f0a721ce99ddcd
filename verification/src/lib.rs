//! FT8 multi-decode receive monitor: the verified core.
//!
//! FT8 transmits in rigid 15 s periods aligned to UTC. This library frames a
//! continuous audio stream into those periods, follows weak signals from one
//! period to the next, keeps the evidence behind every decode, reports the
//! stations heard to PSK Reporter, and prepares what the band-activity views
//! draw.
//!
//! Audio samples, magnitudes and log-likelihood ratios are numbers that the
//! library moves and arranges but does not compute with. They are type
//! parameters here, and the few operations on them that a rule needs are
//! handed in as functions.

pub mod accumulate;
pub mod audio;
pub mod backfill;
pub mod cycle;
pub mod decoder;
pub mod dsp;
pub mod laws;
pub mod mshv;
pub mod order;
pub mod pipeline;
pub mod pskreporter;
pub mod seqs;
pub mod skimmer;
pub mod slot;
pub mod store;
pub mod text;
pub mod time;
pub mod tracks;
pub mod view;
