//! Settings of the tag iterator.
pub use crate::tag_iterator_util::AllowableErrors;
