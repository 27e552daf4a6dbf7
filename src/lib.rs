//! An order-3 word-transition model: words are interned to dense ids, each
//! three-word context keeps weighted choices of the word that followed it,
//! and new text is drawn from those weights.
//!
//! - `symbols`: words interned to dense ids; id 0 is the empty word, the
//!   sentinel that pads a context before three words exist.
//! - `table`: contexts mapped to weighted choices; recording, lookup,
//!   weighted draws and pruning.
//! - `chain`: the two tables kept in step; generation, statistics, lookup by
//!   words.
//! - `training`: text split at whitespace (punctuation stays part of the
//!   word it touches) and replayed into a chain, per utterance or as a
//!   stream whose context runs across pieces.
//! - `codec`: snapshots as bytes and back.
//! - `random`: the injected random source.
//! - `speech`: what the speech hand-off sends and what its worker does.

pub mod symbols;
pub mod table;
pub mod random;
pub mod chain;
pub mod training;
pub mod codec;
pub mod speech;
