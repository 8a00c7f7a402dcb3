//! A read-only lookup engine over a lexicographic dictionary stored as a
//! pair of flat files per grammatical category: a sorted index file mapping
//! a word to the byte offsets of its definitions, and a data file holding
//! the definitions themselves as line records.
//!
//! The engine answers: given a word, return every sense (definition plus
//! cross-references) recorded for it. Cross-references between senses form
//! a cyclic graph, so they are returned as lazy handles ([`PointerRef`])
//! and only followed on demand.
//!
//! File discovery and reading live outside this crate; the engine works on
//! the byte contents of the index and data files.

pub mod database;
pub mod dbfile;
pub mod decode;
pub mod error;
pub mod num;
pub mod part_of_speech;
pub mod relationship;
pub mod search;
pub mod text;

pub use crate::database::Database;
pub use crate::database::PointerRef;
pub use crate::database::Sense;
pub use crate::dbfile::DBFile;
pub use crate::decode::IndexEntry;
pub use crate::decode::PointerRecord;
pub use crate::decode::SenseRecord;
pub use crate::decode::SenseRef;
pub use crate::decode::decode_index;
pub use crate::decode::decode_sense;
pub use crate::error::DecodeError;
pub use crate::part_of_speech::PartOfSpeech;
pub use crate::part_of_speech::part_of_speech_code_to_part_of_speech;
pub use crate::relationship::Relationship;
pub use crate::relationship::relationship_code_to_relationship;
