//! Learned user vocabulary and the deletion index shared with the language packs.

pub mod delete_index;
pub mod user_lexicon;

pub use delete_index::MAX_INDEX_DELETIONS;
pub use user_lexicon::{UserLexicon, UserLexiconError, UserWord};
