//! The types that describe an EBML specification: the data types of tags, the
//! states of a master tag, document paths, and the two traits by which a tag
//! type makes a specification known.
use vstd::prelude::*;
use crate::tools::FloatBits;

verus! {

/// The data types of EBML. Dates are not among them: a specification declares
/// a date element as binary.
#[derive(Copy, Clone, Eq, PartialEq, Hash, Debug, Structural)]
pub enum TagDataType {
    Master,
    UnsignedInt,
    Integer,
    Utf8,
    Binary,
    Float,
}

/// The states in which a master tag, a tag that contains other tags, is
/// written or read.
#[derive(Clone, Eq, PartialEq, Hash, Debug)]
pub enum Master<T> {
    /// The start of the tag. Its children follow as tags of their own.
    Start,
    /// The end of the tag.
    End,
    /// The whole tag, with all of its children.
    Full(Vec<T>),
}

impl<T> Master<T> {
    /// The children of a full tag.
    pub fn get_children(self) -> (r: Vec<T>)
        requires
            self is Full,
        ensures
            self == Master::Full(r),
    {
        match self {
            Master::Full(data) => data,
            Master::Start => Vec::new(),
            Master::End => Vec::new(),
        }
    }
}

/// One step of a document path: the id of one ancestor, or a run of any
/// ancestors whose number lies between two optional bounds.
#[derive(Copy, Clone, Eq, PartialEq, Hash, Debug)]
pub enum PathPart {
    Id(u64),
    Global((Option<u64>, Option<u64>)),
}

/// A document path as a sequence of steps, from the root down.
pub type PathModel = Seq<PathPart>;

/// What a master tag holds.
pub enum MasterModel {
    Start,
    End,
    Full(Seq<TagModel>),
}

/// What a tag holds.
pub enum DataModel {
    Master(MasterModel),
    UnsignedInt(u64),
    Integer(i64),
    Utf8(Seq<char>),
    Binary(Seq<u8>),
    /// The bits of a double-precision number.
    Float(u64),
}

/// What a tag is: its id and what it holds.
pub struct TagModel {
    pub id: u64,
    pub data: DataModel,
}

/// A tag: one element of a document, or the start or end of a master element.
///
/// `model` says what the tag is; the methods give its parts. The data of a
/// tag has one type, so at most one of the `as_` methods gives something.
///
/// The contracts of the methods are what an implementation owes: each
/// method gives the part of the model that it is named after. All that is
/// proved of the tag writer and the tag iterator holds of tag types that
/// keep them. For a tag type of this library they are proved; for a tag type
/// that is implemented elsewhere they are taken on trust. Such a tag type
/// has no use for the `spec` functions, and gives them any body.
pub trait EbmlTag: Sized {
    /// What the tag is.
    spec fn model(&self) -> TagModel;

    /// The id of the tag.
    fn get_id(&self) -> (r: u64)
        ensures
            r == self.model().id,
    ;

    /// The data of a tag that holds an unsigned integer.
    fn as_unsigned_int(&self) -> (r: Option<&u64>)
        ensures
            match r {
                Some(v) => self.model().data == DataModel::UnsignedInt(*v),
                None => !(self.model().data is UnsignedInt),
            },
    ;

    /// The data of a tag that holds a signed integer.
    fn as_signed_int(&self) -> (r: Option<&i64>)
        ensures
            match r {
                Some(v) => self.model().data == DataModel::Integer(*v),
                None => !(self.model().data is Integer),
            },
    ;

    /// The data of a tag that holds text.
    fn as_utf8(&self) -> (r: Option<&str>)
        ensures
            match r {
                Some(v) => self.model().data == DataModel::Utf8(v@),
                None => !(self.model().data is Utf8),
            },
    ;

    /// The data of a tag that holds bytes.
    fn as_binary(&self) -> (r: Option<&[u8]>)
        ensures
            match r {
                Some(v) => self.model().data == DataModel::Binary(v@),
                None => !(self.model().data is Binary),
            },
    ;

    /// The data of a tag that holds a float, as the bits of a double-precision
    /// number.
    fn as_float(&self) -> (r: Option<u64>)
        ensures
            match r {
                Some(v) => self.model().data == DataModel::Float(v),
                None => !(self.model().data is Float),
            },
    ;

    /// The state of a master tag.
    fn as_master(&self) -> (r: Option<&Master<Self>>)
        ensures
            match r {
                Some(Master::Start) => self.model().data == DataModel::Master(MasterModel::Start),
                Some(Master::End) => self.model().data == DataModel::Master(MasterModel::End),
                Some(Master::Full(children)) => {
                    &&& self.model().data matches DataModel::Master(MasterModel::Full(models))
                    &&& models.len() == children@.len()
                    &&& forall|i: int|
                        0 <= i < children@.len() ==> models[i] == (#[trigger] children@[i]).model()
                },
                None => !(self.model().data is Master),
            },
    ;
}

/// What a master tag in state `m` holds.
pub open spec fn master_model<T: EbmlTag>(m: Master<T>) -> MasterModel {
    match m {
        Master::Start => MasterModel::Start,
        Master::End => MasterModel::End,
        Master::Full(children) => MasterModel::Full(tag_models(children@)),
    }
}

/// What each of `tags` is.
pub open spec fn tag_models<T: EbmlTag>(tags: Seq<T>) -> Seq<TagModel> {
    Seq::new(tags.len(), |i: int| tags[i].model())
}

/// A specification: which ids there are, what data each holds, where in a
/// document each may stand, and how a tag is made from an id and data.
///
/// The `spec_` functions are names for what the methods give: the two tables
/// of the specification, which the two lookups read, whether a constructor
/// makes a tag, and how a float is widened. So the contracts of the methods
/// say that a method gives the same for the same arguments, and that a tag
/// that a constructor makes is what it was made from; they do not say for
/// which ids a constructor makes a tag. A constructor is meant to give
/// `None` for an id that the specification does not know or whose data type
/// is another. As with [`EbmlTag`], the contracts are proved for the tag
/// types of this library, and taken on trust for others.
pub trait EbmlSpecification: EbmlTag {
    /// The data type of each id of the specification.
    spec fn spec_tag_data_type(id: u64) -> Option<TagDataType>;

    /// The document path of each id: its ancestors from the root down. A root,
    /// and an id that the specification does not know, have the empty path.
    spec fn spec_path_by_id(id: u64) -> PathModel;

    /// The data type of `id`, or `None` for an id that the specification does
    /// not know.
    fn get_tag_data_type(id: u64) -> (r: Option<TagDataType>)
        ensures
            r == Self::spec_tag_data_type(id),
    ;

    /// The document path of `id`.
    fn get_path_by_id(id: u64) -> (r: &'static [PathPart])
        ensures
            r@ == Self::spec_path_by_id(id),
    ;

    /// Whether the specification makes the tag that `tag` describes: whether
    /// the constructor for what `tag` holds gives a tag for the id of `tag`.
    spec fn spec_makes(tag: TagModel) -> bool;

    /// The bits of the double-precision number as which a tag holds a float
    /// that was read as `bits`.
    spec fn spec_widened(bits: FloatBits) -> u64;

    /// The id of `item`.
    fn get_tag_id(item: &Self) -> (r: u64)
        ensures
            r == item.model().id,
    {
        item.get_id()
    }

    /// Makes a tag that holds an unsigned integer.
    fn get_unsigned_int_tag(id: u64, data: u64) -> (r: Option<Self>)
        ensures
            match r {
                Some(t) => Self::spec_makes(TagModel { id, data: DataModel::UnsignedInt(data) }) && t.model() == (TagModel { id, data: DataModel::UnsignedInt(data) }),
                None => !Self::spec_makes(TagModel { id, data: DataModel::UnsignedInt(data) }),
            },
    ;

    /// Makes a tag that holds a signed integer.
    fn get_signed_int_tag(id: u64, data: i64) -> (r: Option<Self>)
        ensures
            match r {
                Some(t) => Self::spec_makes(TagModel { id, data: DataModel::Integer(data) }) && t.model() == (TagModel { id, data: DataModel::Integer(data) }),
                None => !Self::spec_makes(TagModel { id, data: DataModel::Integer(data) }),
            },
    ;

    /// Makes a tag that holds text.
    fn get_utf8_tag(id: u64, data: String) -> (r: Option<Self>)
        ensures
            match r {
                Some(t) => Self::spec_makes(TagModel { id, data: DataModel::Utf8(data@) }) && t.model() == (TagModel { id, data: DataModel::Utf8(data@) }),
                None => !Self::spec_makes(TagModel { id, data: DataModel::Utf8(data@) }),
            },
    ;

    /// Makes a tag that holds bytes.
    fn get_binary_tag(id: u64, data: &[u8]) -> (r: Option<Self>)
        ensures
            match r {
                Some(t) => Self::spec_makes(TagModel { id, data: DataModel::Binary(data@) }) && t.model() == (TagModel { id, data: DataModel::Binary(data@) }),
                None => !Self::spec_makes(TagModel { id, data: DataModel::Binary(data@) }),
            },
    ;

    /// Makes a tag that holds a float, from the bits that were read. How a
    /// single-precision number is widened is the specification's own matter.
    fn get_float_tag(id: u64, data: FloatBits) -> (r: Option<Self>)
        ensures
            match r {
                Some(t) => Self::spec_makes(TagModel { id, data: DataModel::Float(Self::spec_widened(data)) }) && t.model() == (TagModel { id, data: DataModel::Float(Self::spec_widened(data)) }),
                None => !Self::spec_makes(TagModel { id, data: DataModel::Float(Self::spec_widened(data)) }),
            },
    ;

    /// Makes a master tag.
    fn get_master_tag(id: u64, data: Master<Self>) -> (r: Option<Self>)
        ensures
            match r {
                Some(t) => Self::spec_makes(TagModel { id, data: DataModel::Master(master_model(data)) }) && t.model() == (TagModel { id, data: DataModel::Master(master_model(data)) }),
                None => !Self::spec_makes(TagModel { id, data: DataModel::Master(master_model(data)) }),
            },
    ;

    /// Makes a tag for an id that the specification does not know. Its data
    /// can be had as bytes only.
    fn get_raw_tag(id: u64, data: &[u8]) -> (r: Self)
        ensures
            r.model() == (TagModel { id, data: DataModel::Binary(data@) }),
    ;
}

/// Whether `r` is what a constructor of the specification gives for the tag
/// that `tag` describes: a tag that is what `tag` says where the specification
/// makes it, and nothing where it does not.
pub open spec fn made<T: EbmlSpecification>(r: Option<T>, tag: TagModel) -> bool {
    match r {
        Some(t) => T::spec_makes(tag) && t.model() == tag,
        None => !T::spec_makes(tag),
    }
}

} // verus!
