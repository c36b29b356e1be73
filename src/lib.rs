//! Recognition helpers for a game-event lookup tool: text normalization,
//! fuzzy matching of recognized text against an event catalog, and the
//! conditioning of captured images before text recognition.

pub mod imaging;
pub mod matching;
pub mod similarity;
pub mod text;
