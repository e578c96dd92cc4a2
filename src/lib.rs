//! Finds "I hardly know her" puns: a word whose pronunciation ends in the
//! "er" sound and whose remaining sound is shared by a transitive or
//! participle-only verb.
pub mod part_of_speech;
pub mod text;
pub mod lexicon;
pub mod laws;
