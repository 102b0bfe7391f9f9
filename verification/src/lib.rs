//! Rewrites vocabulary-term records exported from a language-learning tool
//! into flashcard notes: a normalized tag list, an ordered set of drop rules,
//! and the construction of the note's fields, all stated and proved over the
//! records' character sequences.

pub mod convert;
pub mod laws;
pub mod order;
pub mod pipeline;
pub mod tags;
pub mod text;
