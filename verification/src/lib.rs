//! Typed iteration over, and serialization of, EBML (Extensible Binary
//! Meta-Language) data: the length-prefixed tag format behind Matroska and WebM.
//!
//! The library is specification-agnostic. A specification is a tag type that
//! implements [`specs::EbmlSpecification`] and [`specs::EbmlTag`]; the reader and
//! the writer consult it for the data type and the document path of each tag id.
pub mod error;
pub mod tools;
pub mod specs;
pub mod empty_spec;
pub mod tag_iterator_util;
pub mod iterator;
pub mod spec_util;
pub mod tag_writer;
pub mod reader_state;
pub mod reader_laws;
pub mod round_trip;
pub mod document_laws;
pub mod buffered_laws;
pub mod asked_laws;
pub mod waiting_laws;
pub mod paired_laws;
pub mod whole_laws;
pub mod schema;
pub mod schema_text;
pub mod tag_iterator;

pub use crate::tag_iterator::TagIterator;
pub use crate::tag_writer::TagWriter;
