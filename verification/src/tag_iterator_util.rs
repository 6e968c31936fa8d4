//! Small types that the tag iterator and the tag writer share.
use vstd::prelude::*;
use crate::tools::vint_marker;
use crate::tools::marker_of_width;
use crate::tools::lemma_vint_markers;
use crate::specs::EbmlSpecification;
use crate::specs::EbmlTag;
use crate::spec_util::is_ended_by;
use crate::spec_util::spec_is_ended_by;

verus! {

/// The size of a tag's body: a number of bytes, or unknown, in which case the
/// body ends where the document's structure says so.
#[derive(Copy, Clone, Debug, Eq, PartialEq, Hash, Structural)]
pub enum EBMLSize {
    Known(usize),
    Unknown,
}

/// Whether a vint of `vint_length` bytes with payload `size` is the reserved
/// value for an unknown size: all of its payload bits are ones.
pub open spec fn is_unknown_size_marker(size: u64, vint_length: usize) -> bool {
    1 <= vint_length <= 8 && size == vint_marker(vint_length as nat) - 1
}

impl EBMLSize {
    /// What a size vint of `vint_length` bytes with payload `size` says.
    pub open spec fn spec_new(size: u64, vint_length: usize) -> EBMLSize {
        if is_unknown_size_marker(size, vint_length) {
            EBMLSize::Unknown
        } else if size <= usize::MAX {
            EBMLSize::Known(size as usize)
        } else {
            EBMLSize::Unknown
        }
    }

    /// Classifies the payload `size` of a size vint of `vint_length` bytes. A
    /// payload of all ones is the unknown size. A number that this machine
    /// cannot address is taken as unknown too.
    pub fn new(size: u64, vint_length: usize) -> (r: Self)
        ensures
            r == Self::spec_new(size, vint_length),
    {
        if 1 <= vint_length && vint_length <= 8 {
            proof {
                lemma_vint_markers();
            }
            if size == marker_of_width(vint_length) - 1 {
                return EBMLSize::Unknown;
            }
        }
        if size <= usize::MAX as u64 {
            EBMLSize::Known(size as usize)
        } else {
            EBMLSize::Unknown
        }
    }

    /// Whether the size is a number of bytes.
    pub fn is_known(&self) -> (r: bool)
        ensures
            r == (*self is Known),
    {
        match self {
            EBMLSize::Known(_) => true,
            EBMLSize::Unknown => false,
        }
    }

    /// The number of bytes of a known size.
    pub fn value(&self) -> (r: usize)
        requires
            *self is Known,
        ensures
            *self == EBMLSize::Known(r),
    {
        match self {
            EBMLSize::Known(val) => *val,
            EBMLSize::Unknown => 0,
        }
    }
}

/// A master tag that a tag iterator holds open: the tag that is given out when
/// it closes, the size of its body, where the tag starts and where its body
/// starts. A tag that was read holds the end of the master tag. An ancestor
/// that the iterator took as open without reading it holds the start, and
/// nothing is given out when it closes.
#[derive(Copy, Clone, Debug)]
pub struct ProcessingTag<TSpec> {
    pub tag: TSpec,
    pub size: EBMLSize,
    pub tag_start: usize,
    pub data_start: usize,
}

impl<TSpec: EbmlSpecification + EbmlTag + Clone> ProcessingTag<TSpec> {
    /// Whether a tag `id` ends this tag, where this tag has an unknown size.
    pub fn is_ended_by(&self, id: u64) -> (r: bool)
        ensures
            r == spec_is_ended_by::<TSpec>(self.tag.model().id, id),
    {
        is_ended_by::<TSpec>(self.tag.get_id(), id)
    }
}

/// The checks that a tag iterator can be told to leave out.
#[derive(Copy, Clone, Debug, Eq, PartialEq, Structural)]
pub enum AllowableErrors {
    /// Tags with an id that the specification does not know are given out as
    /// raw tags with binary data.
    InvalidTagIds,
    /// Tags are given out where they stand, also outside of the parent that
    /// the specification gives them.
    HierarchyProblems,
    /// Tags are given out also where they reach beyond the end of a parent.
    OversizedTags,
}

/// The buffer capacity that a tag iterator starts with where none is asked for.
pub const DEFAULT_BUFFER_LEN: usize = 65536;

} // verus!
