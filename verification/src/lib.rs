//! A deniable, encrypted, append-only container: the logic of one space.

pub mod bytes;
pub mod chunk;
pub mod codec;
pub mod container;
pub mod error;
pub mod rng;
pub mod seqs;
pub mod space;
pub mod tx;
pub mod wipe;
