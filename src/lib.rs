//! Editing of game save files: a positional binary codec driven by schemas,
//! polymorphic records keyed by a class name, the per-edition envelopes
//! (compression, checksum, byte order) and the head-morph import and export.

pub mod checksum;
pub mod chunked;
pub mod codec;
pub mod head_morph;
pub mod laws;
pub mod lemmas;
pub mod model;
pub mod records;
pub mod save_game;
pub mod seqs;
pub mod word;
pub mod zlib;
