//! A specification without any declared tag, for examples and simple trials.
use vstd::prelude::*;
use vstd::slice::slice_to_vec;
use crate::tools::FloatBits;
use crate::specs::TagDataType;
use crate::specs::Master;
use crate::specs::PathPart;
use crate::specs::PathModel;
use crate::specs::TagModel;
use crate::specs::DataModel;
use crate::specs::MasterModel;
use crate::specs::EbmlTag;
use crate::specs::EbmlSpecification;
use crate::specs::tag_models;

verus! {

/// A tag of the empty specification: any id, with bytes or with children.
///
/// Every id counts as binary, and as a root. Not meant for production use.
#[derive(Debug, PartialEq, Eq)]
pub struct EmptySpec {
    id: u64,
    children: Option<Master<EmptySpec>>,
    data: Option<Vec<u8>>,
}

impl EmptySpec {
    /// A tag holds either children or bytes.
    #[verifier::type_invariant]
    spec fn well_formed(&self) -> bool {
        self.children is Some != self.data is Some
    }

    /// What each of `tags` is.
    pub closed spec fn models_of(tags: Seq<EmptySpec>) -> Seq<TagModel>
        decreases tags, 0nat,
    {
        Seq::new(tags.len(), |i: int| if 0 <= i < tags.len() { tags[i].model_of() } else { arbitrary() })
    }

    /// What the tag is.
    pub closed spec fn model_of(&self) -> TagModel
        decreases self, 1nat,
    {
        TagModel {
            id: self.id,
            data: match self.children {
                Some(Master::Start) => DataModel::Master(MasterModel::Start),
                Some(Master::End) => DataModel::Master(MasterModel::End),
                Some(Master::Full(c)) => DataModel::Master(MasterModel::Full(Self::models_of(c@))),
                None => match self.data {
                    Some(d) => DataModel::Binary(d@),
                    None => DataModel::Binary(Seq::empty()),
                },
            },
        }
    }

    /// A master tag with the given children.
    pub fn with_children(id: u64, children: Vec<EmptySpec>) -> (r: Self)
        ensures
            r.model() == (TagModel {
                id,
                data: DataModel::Master(MasterModel::Full(tag_models(children@))),
            }),
    {
        proof {
            assert(Self::models_of(children@) =~= tag_models(children@));
        }
        EmptySpec { id, children: Some(Master::Full(children)), data: None }
    }

    /// A tag with the given bytes.
    pub fn with_data(id: u64, data: &[u8]) -> (r: Self)
        ensures
            r.model() == (TagModel { id, data: DataModel::Binary(data@) }),
    {
        EmptySpec { id, children: None, data: Some(slice_to_vec(data)) }
    }
}

impl EbmlTag for EmptySpec {
    open spec fn model(&self) -> TagModel {
        self.model_of()
    }

    fn get_id(&self) -> (r: u64) {
        self.id
    }

    fn as_unsigned_int(&self) -> (r: Option<&u64>) {
        None
    }

    fn as_signed_int(&self) -> (r: Option<&i64>) {
        None
    }

    fn as_utf8(&self) -> (r: Option<&str>) {
        None
    }

    fn as_binary(&self) -> (r: Option<&[u8]>) {
        proof {
            use_type_invariant(self);
        }
        match &self.data {
            Some(d) => Some(d.as_slice()),
            None => None,
        }
    }

    fn as_float(&self) -> (r: Option<u64>) {
        None
    }

    fn as_master(&self) -> (r: Option<&Master<EmptySpec>>) {
        match &self.children {
            Some(children) => Some(children),
            None => None,
        }
    }
}

impl Clone for EmptySpec {
    fn clone(&self) -> (r: Self)
        ensures
            r.model() == self.model(),
        decreases self,
    {
        proof {
            use_type_invariant(self);
        }
        match &self.children {
            None => {
                let data: Option<Vec<u8>> = match &self.data {
                    Some(d) => Some(d.clone()),
                    None => None,
                };
                EmptySpec { id: self.id, children: None, data }
            },
            Some(Master::Start) => EmptySpec {
                id: self.id,
                children: Some(Master::Start),
                data: None,
            },
            Some(Master::End) => EmptySpec { id: self.id, children: Some(Master::End), data: None },
            Some(Master::Full(c)) => {
                let mut copies: Vec<EmptySpec> = Vec::new();
                let mut i: usize = 0;
                while i < c.len()
                    invariant
                        i <= c.len(),
                        self.children == Some(Master::Full(*c)),
                        copies@.len() == i,
                        forall|k: int| 0 <= k < i ==> (#[trigger] copies@[k]).model() == c@[k].model(),
                    decreases c.len() - i,
                {
                    proof {
                        vstd::std_specs::vec::axiom_vec_index_decreases(*c, i as int);
                        let ghost o = self.children;
                        let ghost w = o->0;
                        let ghost v = w->Full_0;
                        assert(decreases_to!(self => o));
                        assert(decreases_to!(o => w));
                        assert(decreases_to!(w => v));
                    }
                    copies.push(c[i].clone());
                    i += 1;
                }
                proof {
                    assert(Self::models_of(copies@) =~= Self::models_of(c@));
                }
                EmptySpec { id: self.id, children: Some(Master::Full(copies)), data: None }
            },
        }
    }
}

impl EbmlSpecification for EmptySpec {
    open spec fn spec_tag_data_type(id: u64) -> Option<TagDataType> {
        Some(TagDataType::Binary)
    }

    open spec fn spec_path_by_id(id: u64) -> PathModel {
        Seq::empty()
    }

    open spec fn spec_makes(tag: TagModel) -> bool {
        tag.data is Binary || tag.data is Master
    }

    open spec fn spec_widened(bits: FloatBits) -> u64 {
        match bits {
            FloatBits::Single(b) => b as u64,
            FloatBits::Double(b) => b,
        }
    }

    fn get_tag_data_type(id: u64) -> (r: Option<TagDataType>) {
        Some(TagDataType::Binary)
    }

    fn get_path_by_id(id: u64) -> (r: &'static [PathPart]) {
        &[]
    }

    fn get_unsigned_int_tag(id: u64, data: u64) -> (r: Option<EmptySpec>) {
        None
    }

    fn get_signed_int_tag(id: u64, data: i64) -> (r: Option<EmptySpec>) {
        None
    }

    fn get_utf8_tag(id: u64, data: String) -> (r: Option<EmptySpec>) {
        None
    }

    fn get_binary_tag(id: u64, data: &[u8]) -> (r: Option<EmptySpec>) {
        Some(EmptySpec::with_data(id, data))
    }

    fn get_float_tag(id: u64, data: FloatBits) -> (r: Option<EmptySpec>) {
        None
    }

    fn get_master_tag(id: u64, data: Master<EmptySpec>) -> (r: Option<EmptySpec>) {
        proof {
            if data is Full {
                let c = data->Full_0;
                assert(EmptySpec::models_of(c@) =~= tag_models(c@));
            }
        }
        Some(EmptySpec { id, children: Some(data), data: None })
    }

    fn get_raw_tag(id: u64, data: &[u8]) -> (r: EmptySpec) {
        EmptySpec::with_data(id, data)
    }
}

} // verus!
