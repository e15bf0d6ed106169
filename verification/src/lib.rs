//! Papyrus: approximate (subsequence-based) text search over a fixed corpus
//! of short verse records.
//!
//! The corpus is held in a dual flat-buffer arena ([`bible::Bible`]): one
//! contiguous character buffer for the display text, one for the normalized
//! search text, indexed by per-record offset/length descriptors. Borrowed
//! record views ([`bible::Verse`]) are derived from the arena and fed to the
//! match engine ([`search::search`]), which scores each candidate by greedy
//! subsequence scanning and keeps the best `k` matches, with a sharded
//! variant ([`search::search_parallel`]) that is proved to return the same
//! result.

pub mod bible;
pub mod frontend;
pub mod normalise;
pub mod score;
pub mod search;
pub mod topk;
