//! Resolves local media files to catalog identifiers, aggregates the genres of
//! their artists, and plans the container rewrite that embeds them.

pub mod chunking;
pub mod genres;
pub mod harvest;
pub mod ids;
pub mod indexer;
pub mod keyed;
pub mod manifest;
pub mod pacing;
pub mod rewrite;
pub mod tags;
pub mod text;
pub mod working;
