//! Synthesizes plausible invented words for a constructed language from a
//! compact statistical description of letter-sequence patterns.
//!
//! A rule set maps short trailing letter sequences ("patterns") to weighted
//! continuation tables, together with an alphabet and a word-length envelope.
//! The library validates such rule sets, compiles them into cumulative-weight
//! sampling tables, walks a weighted random walk over those tables to grow
//! candidate words, and can also derive a rule set from a text corpus.

pub mod generator;
pub mod language;
pub mod random;
pub mod reader;
pub mod rules;
pub mod score;
pub mod text;
pub mod verification;
