//! The schema compiler: turns the declarations of a specification, which name
//! each tag with its id, its data type and its place in a document, into the
//! tables that a tag iterator and a tag writer consult.
use vstd::prelude::*;
use crate::specs::PathPart;
use crate::specs::TagDataType;

verus! {

/// One step of a declared path: the name of an ancestor, or a run of any
/// ancestors whose number lies between two optional bounds.
#[derive(Debug, PartialEq, Eq)]
pub enum PathSegment {
    Name(Vec<u8>),
    Global((Option<u64>, Option<u64>)),
}

impl Clone for PathSegment {
    fn clone(&self) -> (r: Self)
        ensures
            r@ == self@,
    {
        match self {
            PathSegment::Name(name) => PathSegment::Name(name.clone()),
            PathSegment::Global(bounds) => PathSegment::Global(*bounds),
        }
    }
}

/// One step of a declared path, with its name as a sequence.
pub enum SegmentModel {
    Name(Seq<u8>),
    Global((Option<u64>, Option<u64>)),
}

impl View for PathSegment {
    type V = SegmentModel;

    open spec fn view(&self) -> SegmentModel {
        match self {
            PathSegment::Name(name) => SegmentModel::Name(name@),
            PathSegment::Global(bounds) => SegmentModel::Global(*bounds),
        }
    }
}

/// The declaration of one tag: its name, its id, what it holds, and its
/// path, which names its ancestors from the root down and is empty for a
/// root.
#[derive(Clone, Debug, PartialEq, Eq)]
pub struct VariantDecl {
    pub name: Vec<u8>,
    pub id: u64,
    pub data_type: TagDataType,
    pub path: Vec<PathSegment>,
}

/// The declaration of one tag, with its name and path as sequences.
pub struct DeclModel {
    pub name: Seq<u8>,
    pub id: u64,
    pub data_type: TagDataType,
    pub path: Seq<SegmentModel>,
}

/// What the steps of a declared path are.
pub open spec fn segment_models(path: Seq<PathSegment>) -> Seq<SegmentModel> {
    Seq::new(path.len(), |i: int| path[i]@)
}

impl View for VariantDecl {
    type V = DeclModel;

    open spec fn view(&self) -> DeclModel {
        DeclModel {
            name: self.name@,
            id: self.id,
            data_type: self.data_type,
            path: segment_models(self.path@),
        }
    }
}

/// What the declarations are.
pub open spec fn decl_models(decls: Seq<VariantDecl>) -> Seq<DeclModel> {
    Seq::new(decls.len(), |i: int| decls[i]@)
}

/// One entry of a compiled schema: a tag with its name, its id, what it
/// holds, and its path with the ids of its ancestors.
#[derive(Clone, Debug, PartialEq, Eq)]
pub struct SchemaEntry {
    pub name: Vec<u8>,
    pub id: u64,
    pub data_type: TagDataType,
    pub path: Vec<PathPart>,
}

/// One entry of a compiled schema, with its name and path as sequences.
pub struct EntryModel {
    pub name: Seq<u8>,
    pub id: u64,
    pub data_type: TagDataType,
    pub path: Seq<PathPart>,
}

impl View for SchemaEntry {
    type V = EntryModel;

    open spec fn view(&self) -> EntryModel {
        EntryModel { name: self.name@, id: self.id, data_type: self.data_type, path: self.path@ }
    }
}

/// What the entries are.
pub open spec fn entry_models(entries: Seq<SchemaEntry>) -> Seq<EntryModel> {
    Seq::new(entries.len(), |i: int| entries[i]@)
}

/// What is wrong with a set of declarations. Each fault names the
/// declaration, and where it applies the step of its path, at which it was
/// found, by their places in the order of declaration; the two global tags
/// that every schema has stand behind the declared ones.
#[derive(Copy, Clone, Debug, PartialEq, Eq, Structural)]
pub enum SchemaError {
    /// Two declarations have the same id.
    DuplicateId { first: usize, second: usize },
    /// A path names a tag that is not declared.
    UnknownAncestor { variant: usize, segment: usize },
    /// A path names the tag that it belongs to.
    SelfInPath { variant: usize, segment: usize },
    /// A path names a tag that is not a master tag.
    AncestorNotMaster { variant: usize, segment: usize },
    /// A tag is among its own ancestors.
    CyclicAncestry { variant: usize },
    /// The path of a tag does not begin with the path of its parent.
    PathMisaligned { variant: usize, segment: usize },
}

/// The id of the global tag that holds a checksum.
pub const CRC32_ID: u64 = 0xbf;

/// The id of the global tag that holds filler bytes.
pub const VOID_ID: u64 = 0xec;

/// The name of the global tag that holds a checksum.
pub open spec fn crc32_name() -> Seq<u8> {
    seq![0x43u8, 0x72u8, 0x63u8, 0x33u8, 0x32u8]
}

/// The name of the global tag that holds filler bytes.
pub open spec fn void_name() -> Seq<u8> {
    seq![0x56u8, 0x6fu8, 0x69u8, 0x64u8]
}

/// The declarations of the two global tags that every schema has: `Crc32`
/// and `Void`, both binary, both allowed at any depth.
pub open spec fn global_decls() -> Seq<DeclModel> {
    seq![
        DeclModel {
            name: crc32_name(),
            id: CRC32_ID,
            data_type: TagDataType::Binary,
            path: seq![SegmentModel::Global((None, None))],
        },
        DeclModel {
            name: void_name(),
            id: VOID_ID,
            data_type: TagDataType::Binary,
            path: seq![SegmentModel::Global((None, None))],
        },
    ]
}

/// The place of the first declaration, from `from` on, with the name `name`.
pub open spec fn index_of_name(d: Seq<DeclModel>, name: Seq<u8>, from: nat) -> Option<nat>
    decreases d.len() - from,
{
    if from >= d.len() {
        None
    } else if d[from as int].name == name {
        Some(from)
    } else {
        index_of_name(d, name, from + 1)
    }
}

/// The place of the first declaration, from `from` on and before `before`,
/// with the id `id`.
pub open spec fn index_of_id(d: Seq<DeclModel>, id: u64, from: nat, before: nat) -> Option<nat>
    decreases before - from,
{
    if from >= before || from >= d.len() {
        None
    } else if d[from as int].id == id {
        Some(from)
    } else {
        index_of_id(d, id, from + 1, before)
    }
}

/// The first declaration, from `from` on, whose id an earlier declaration
/// has, with the first such earlier declaration.
pub open spec fn first_duplicate(d: Seq<DeclModel>, from: nat) -> Option<(nat, nat)>
    decreases d.len() - from,
{
    if from >= d.len() {
        None
    } else {
        match index_of_id(d, d[from as int].id, 0, from) {
            Some(first) => Some((first, from)),
            None => first_duplicate(d, from + 1),
        }
    }
}

/// The kinds of checks that are made of each step of each path.
pub enum PathCheck {
    /// The step names a declared tag other than the tag of the path.
    Named,
    /// The step names a master tag.
    Master,
}

/// What is wrong with the `k`-th step of the path of the `v`-th declaration,
/// by the check `check`.
pub open spec fn step_fault(d: Seq<DeclModel>, v: nat, k: nat, check: PathCheck) -> Option<
    SchemaError,
> {
    match d[v as int].path[k as int] {
        SegmentModel::Global(_) => None,
        SegmentModel::Name(name) => match index_of_name(d, name, 0) {
            None => match check {
                PathCheck::Named => Some(
                    SchemaError::UnknownAncestor { variant: v as usize, segment: k as usize },
                ),
                PathCheck::Master => None,
            },
            Some(i) => match check {
                PathCheck::Named => if i == v {
                    Some(SchemaError::SelfInPath { variant: v as usize, segment: k as usize })
                } else {
                    None
                },
                PathCheck::Master => if d[i as int].data_type != TagDataType::Master {
                    Some(
                        SchemaError::AncestorNotMaster { variant: v as usize, segment: k as usize },
                    )
                } else {
                    None
                },
            },
        },
    }
}

/// The first fault of the path of the `v`-th declaration, from its `k`-th
/// step on, by the check `check`.
pub open spec fn path_fault(d: Seq<DeclModel>, v: nat, k: nat, check: PathCheck) -> Option<
    SchemaError,
>
    decreases d[v as int].path.len() - k,
{
    if k >= d[v as int].path.len() {
        None
    } else {
        match step_fault(d, v, k, check) {
            Some(fault) => Some(fault),
            None => path_fault(d, v, k + 1, check),
        }
    }
}

/// The first fault of the paths of the declarations from the `v`-th on, by
/// the check `check`.
pub open spec fn paths_fault(d: Seq<DeclModel>, v: nat, check: PathCheck) -> Option<SchemaError>
    decreases d.len() - v,
{
    if v >= d.len() {
        None
    } else {
        match path_fault(d, v, 0, check) {
            Some(fault) => Some(fault),
            None => paths_fault(d, v + 1, check),
        }
    }
}

/// The name of the last tag that the first `k` steps of `path` name.
pub open spec fn last_name(path: Seq<SegmentModel>, k: nat) -> Option<Seq<u8>>
    decreases k,
{
    if k == 0 || k > path.len() {
        None
    } else {
        match path[k - 1] {
            SegmentModel::Name(name) => Some(name),
            SegmentModel::Global(_) => last_name(path, (k - 1) as nat),
        }
    }
}

/// The parent of the `v`-th declaration: the tag that its path names last.
pub open spec fn parent_of(d: Seq<DeclModel>, v: nat) -> Option<nat> {
    match last_name(d[v as int].path, d[v as int].path.len()) {
        None => None,
        Some(name) => index_of_name(d, name, 0),
    }
}

/// The ancestor of the `v`-th declaration that stands `steps` parents above
/// it.
pub open spec fn ancestor_of(d: Seq<DeclModel>, v: nat, steps: nat) -> Option<nat>
    decreases steps,
{
    if steps == 0 {
        Some(v)
    } else {
        match parent_of(d, v) {
            None => None,
            Some(p) => if p < d.len() {
                ancestor_of(d, p, (steps - 1) as nat)
            } else {
                None
            },
        }
    }
}

/// Whether the `v`-th declaration is among its own ancestors, or has such a
/// tag among its ancestors: it has as many ancestors above it as there are
/// declarations, so one of them comes twice.
pub open spec fn is_cyclic(d: Seq<DeclModel>, v: nat) -> bool {
    ancestor_of(d, v, d.len()) is Some
}

/// The first declaration, from the `v`-th on, that is cyclic.
pub open spec fn first_cyclic(d: Seq<DeclModel>, v: nat) -> Option<nat>
    decreases d.len() - v,
{
    if v >= d.len() {
        None
    } else if is_cyclic(d, v) {
        Some(v)
    } else {
        first_cyclic(d, v + 1)
    }
}

/// The first step, from the `k`-th on, at which the path `parent` is not the
/// beginning of the path `child`.
pub open spec fn first_misaligned(parent: Seq<SegmentModel>, child: Seq<SegmentModel>, k: nat) -> Option<
    nat,
>
    decreases parent.len() - k,
{
    if k >= parent.len() {
        None
    } else if k >= child.len() || parent[k as int] != child[k as int] {
        Some(k)
    } else {
        first_misaligned(parent, child, k + 1)
    }
}

/// The first step at which the path of the `v`-th declaration does not begin
/// with the path of its parent.
pub open spec fn misaligned_at(d: Seq<DeclModel>, v: nat) -> Option<nat> {
    match parent_of(d, v) {
        None => None,
        Some(p) => first_misaligned(d[p as int].path, d[v as int].path, 0),
    }
}

/// The first declaration, from the `v`-th on, whose path does not begin with
/// the path of its parent, with the step at which it does not.
pub open spec fn first_misaligned_decl(d: Seq<DeclModel>, v: nat) -> Option<(nat, nat)>
    decreases d.len() - v,
{
    if v >= d.len() {
        None
    } else {
        match misaligned_at(d, v) {
            Some(k) => Some((v, k)),
            None => first_misaligned_decl(d, v + 1),
        }
    }
}

/// What is wrong with the declarations `d`, or nothing where they are in
/// order. The checks are made in this order, and the first fault is told:
/// no two declarations have the same id; every path names declared tags
/// only, and not its own tag; every path names master tags only; no tag is
/// among its own ancestors; the path of every tag begins with the path of
/// its parent.
pub open spec fn first_fault(d: Seq<DeclModel>) -> Option<SchemaError> {
    match first_duplicate(d, 0) {
        Some((first, second)) => Some(
            SchemaError::DuplicateId { first: first as usize, second: second as usize },
        ),
        None => match paths_fault(d, 0, PathCheck::Named) {
            Some(fault) => Some(fault),
            None => match paths_fault(d, 0, PathCheck::Master) {
                Some(fault) => Some(fault),
                None => match first_cyclic(d, 0) {
                    Some(v) => Some(SchemaError::CyclicAncestry { variant: v as usize }),
                    None => match first_misaligned_decl(d, 0) {
                        Some((v, k)) => Some(
                            SchemaError::PathMisaligned { variant: v as usize, segment: k as usize },
                        ),
                        None => None,
                    },
                },
            },
        },
    }
}

/// The step of a compiled path that stands for the step `segment` of a
/// declared path: the id of the tag that the step names.
pub open spec fn resolved_part(d: Seq<DeclModel>, segment: SegmentModel) -> PathPart {
    match segment {
        SegmentModel::Global(bounds) => PathPart::Global(bounds),
        SegmentModel::Name(name) => match index_of_name(d, name, 0) {
            Some(i) => PathPart::Id(d[i as int].id),
            None => PathPart::Id(0),
        },
    }
}

/// The entry of the compiled schema that stands for the `v`-th declaration.
pub open spec fn resolved_entry(d: Seq<DeclModel>, v: int) -> EntryModel {
    EntryModel {
        name: d[v].name,
        id: d[v].id,
        data_type: d[v].data_type,
        path: Seq::new(d[v].path.len(), |k: int| resolved_part(d, d[v].path[k])),
    }
}

/// The entries of the compiled schema: one for each declaration, in their
/// order.
pub open spec fn resolved(d: Seq<DeclModel>) -> Seq<EntryModel> {
    Seq::new(d.len(), |v: int| resolved_entry(d, v))
}

/// The place of the first entry, from `from` on, with the id `id`.
pub open spec fn entry_of_id(entries: Seq<EntryModel>, id: u64, from: nat) -> Option<nat>
    decreases entries.len() - from,
{
    if from >= entries.len() {
        None
    } else if entries[from as int].id == id {
        Some(from)
    } else {
        entry_of_id(entries, id, from + 1)
    }
}

/// Where no two declarations from `from` on share an id with an earlier one,
/// the ids of all declarations differ from each other.
pub proof fn lemma_no_duplicate(d: Seq<DeclModel>, from: nat)
    requires
        first_duplicate(d, from) is None,
    ensures
        forall|i: int, j: int| 0 <= i < j < d.len() && from <= j ==> d[i].id != d[j].id,
    decreases d.len() - from,
{
    if from < d.len() {
        lemma_no_duplicate(d, from + 1);
        lemma_no_index_of_id(d, d[from as int].id, 0, from);
    }
}

/// Where no declaration before `before` is found with an id, none has it.
pub proof fn lemma_no_index_of_id(d: Seq<DeclModel>, id: u64, from: nat, before: nat)
    requires
        index_of_id(d, id, from, before) is None,
        before <= d.len(),
    ensures
        forall|i: int| from <= i < before ==> d[i].id != id,
    decreases before - from,
{
    if from < before {
        lemma_no_index_of_id(d, id, from + 1, before);
    }
}

/// Where the paths have no fault by a check, no step of any path has one.
pub proof fn lemma_no_paths_fault(d: Seq<DeclModel>, from: nat, check: PathCheck)
    requires
        paths_fault(d, from, check) is None,
    ensures
        forall|v: nat, k: nat|
            from <= v < d.len() && k < d[v as int].path.len() ==> (#[trigger] step_fault(
                d,
                v,
                k,
                check,
            )) is None,
    decreases d.len() - from,
{
    if from < d.len() {
        lemma_no_paths_fault(d, from + 1, check);
        lemma_no_path_fault(d, from, 0, check);
    }
}

/// Where a path has no fault by a check from a step on, none of these steps
/// has one.
pub proof fn lemma_no_path_fault(d: Seq<DeclModel>, v: nat, from: nat, check: PathCheck)
    requires
        v < d.len(),
        path_fault(d, v, from, check) is None,
    ensures
        forall|k: nat|
            from <= k < d[v as int].path.len() ==> (#[trigger] step_fault(d, v, k, check)) is None,
    decreases d[v as int].path.len() - from,
{
    if from < d[v as int].path.len() {
        lemma_no_path_fault(d, v, from + 1, check);
    }
}

/// Where a name is found among the declarations, the declaration that is
/// found has the name, and none before it has.
pub proof fn lemma_index_of_name(d: Seq<DeclModel>, name: Seq<u8>, from: nat)
    ensures
        index_of_name(d, name, from) matches Some(i) ==> from <= i < d.len() && d[i as int].name == name,
    decreases d.len() - from,
{
    if from < d.len() && d[from as int].name != name {
        lemma_index_of_name(d, name, from + 1);
    }
}

/// Where no declaration from `from` on is cyclic, none of them is.
pub proof fn lemma_no_cyclic(d: Seq<DeclModel>, from: nat)
    requires
        first_cyclic(d, from) is None,
    ensures
        forall|v: nat| from <= v < d.len() ==> !#[trigger] is_cyclic(d, v),
    decreases d.len() - from,
{
    if from < d.len() {
        lemma_no_cyclic(d, from + 1);
    }
}

/// Where no declaration from `from` on is misaligned, none of them is.
pub proof fn lemma_no_misaligned(d: Seq<DeclModel>, from: nat)
    requires
        first_misaligned_decl(d, from) is None,
    ensures
        forall|v: nat| from <= v < d.len() ==> (#[trigger] misaligned_at(d, v)) is None,
    decreases d.len() - from,
{
    if from < d.len() {
        lemma_no_misaligned(d, from + 1);
    }
}

/// Where one path is aligned with another from a step on, it is the
/// beginning of the other from that step on.
pub proof fn lemma_aligned(parent: Seq<SegmentModel>, child: Seq<SegmentModel>, from: nat)
    requires
        first_misaligned(parent, child, from) is None,
        from <= child.len(),
        from <= parent.len(),
    ensures
        parent.len() <= child.len(),
        forall|k: int| from <= k < parent.len() ==> parent[k] == child[k],
    decreases parent.len() - from,
{
    if from < parent.len() {
        lemma_aligned(parent, child, from + 1);
    }
}

/// What holds of declarations that are in order, and so of every schema: no
/// two tags have the same id; every tag that a path names is a declared
/// master tag other than the tag of the path; no tag is among its own
/// ancestors; and the path of every tag begins with the path of its parent,
/// step for step.
pub proof fn lemma_declarations_in_order(d: Seq<DeclModel>)
    requires
        first_fault(d) is None,
    ensures
        forall|i: int, j: int| 0 <= i < j < d.len() ==> d[i].id != d[j].id,
        forall|v: int, k: int|
            0 <= v < d.len() && 0 <= k < d[v].path.len() ==> (#[trigger] d[v].path[k] matches SegmentModel::Name(
                name,
            ) ==> (index_of_name(d, name, 0) matches Some(i) && i != v && i < d.len() && d[i as int].name
                == name && d[i as int].data_type == TagDataType::Master)),
        forall|v: nat| v < d.len() ==> !#[trigger] is_cyclic(d, v),
        forall|v: nat|
            v < d.len() ==> (#[trigger] parent_of(d, v) matches Some(p) ==> d[p as int].path.len()
                <= d[v as int].path.len() && d[p as int].path == d[v as int].path.subrange(
                0,
                d[p as int].path.len() as int,
            )),
{
    lemma_no_duplicate(d, 0);
    lemma_no_paths_fault(d, 0, PathCheck::Named);
    lemma_no_paths_fault(d, 0, PathCheck::Master);
    lemma_no_cyclic(d, 0);
    lemma_no_misaligned(d, 0);
    assert forall|v: int, k: int| 0 <= v < d.len() && 0 <= k < d[v].path.len() implies (
    #[trigger] d[v].path[k] matches SegmentModel::Name(name) ==> (index_of_name(
        d,
        name,
        0,
    ) matches Some(i) && i != v && i < d.len() && d[i as int].name == name && d[i as int].data_type
        == TagDataType::Master)) by {
        assert(step_fault(d, v as nat, k as nat, PathCheck::Named) is None);
        assert(step_fault(d, v as nat, k as nat, PathCheck::Master) is None);
        match d[v].path[k] {
            SegmentModel::Name(name) => {
                lemma_index_of_name(d, name, 0);
            },
            SegmentModel::Global(_) => {},
        }
    }
    assert forall|v: nat| v < d.len() implies (#[trigger] parent_of(d, v) matches Some(p)
        ==> d[p as int].path.len() <= d[v as int].path.len() && d[p as int].path == d[v as int].path.subrange(
        0,
        d[p as int].path.len() as int,
    )) by {
        match parent_of(d, v) {
            Some(p) => {
                assert(misaligned_at(d, v) is None);
                lemma_aligned(d[p as int].path, d[v as int].path, 0);
                assert(d[p as int].path =~= d[v as int].path.subrange(
                    0,
                    d[p as int].path.len() as int,
                ));
            },
            None => {},
        }
    }
}

/// Where the ids of the declarations differ from each other, the tables
/// find each tag by its id.
pub proof fn lemma_resolved_finds(d: Seq<DeclModel>, v: nat, from: nat)
    requires
        v < d.len(),
        from <= v,
        forall|i: int, j: int| 0 <= i < j < d.len() ==> d[i].id != d[j].id,
    ensures
        entry_of_id(resolved(d), d[v as int].id, from) == Some(v),
    decreases v - from,
{
    if from < v {
        lemma_resolved_finds(d, v, from + 1);
    }
}

/// Whether two runs of bytes are the same.
pub fn same_bytes(a: &Vec<u8>, b: &Vec<u8>) -> (r: bool)
    ensures
        r == (a@ == b@),
{
    if a.len() != b.len() {
        return false;
    }
    let mut i: usize = 0;
    while i < a.len()
        invariant
            i <= a@.len(),
            a@.len() == b@.len(),
            forall|k: int| 0 <= k < i ==> a@[k] == b@[k],
        decreases a@.len() - i,
    {
        if a[i] != b[i] {
            return false;
        }
        i += 1;
    }
    proof {
        assert(a@ =~= b@);
    }
    true
}

/// The place of the first declaration with the name `name`.
pub fn find_name(decls: &Vec<VariantDecl>, name: &Vec<u8>) -> (r: Option<usize>)
    ensures
        match r {
            Some(i) => index_of_name(decl_models(decls@), name@, 0) == Some(i as nat) && i
                < decls@.len(),
            None => index_of_name(decl_models(decls@), name@, 0) is None,
        },
{
    let mut i: usize = 0;
    while i < decls.len()
        invariant
            i <= decls@.len(),
            index_of_name(decl_models(decls@), name@, 0) == index_of_name(
                decl_models(decls@),
                name@,
                i as nat,
            ),
        decreases decls@.len() - i,
    {
        if same_bytes(&decls[i].name, name) {
            return Some(i);
        }
        i += 1;
    }
    None
}

/// The first declaration whose id an earlier declaration has, with the first
/// such earlier declaration.
pub fn find_duplicate_id(decls: &Vec<VariantDecl>) -> (r: Option<(usize, usize)>)
    ensures
        match r {
            Some((first, second)) => first_duplicate(decl_models(decls@), 0) == Some(
                (first as nat, second as nat),
            ),
            None => first_duplicate(decl_models(decls@), 0) is None,
        },
{
    let ghost d = decl_models(decls@);
    let mut second: usize = 0;
    while second < decls.len()
        invariant
            second <= decls@.len(),
            d == decl_models(decls@),
            first_duplicate(d, 0) == first_duplicate(d, second as nat),
        decreases decls@.len() - second,
    {
        let id: u64 = decls[second].id;
        let mut first: usize = 0;
        while first < second
            invariant
                first <= second < decls@.len(),
                d == decl_models(decls@),
                id == d[second as int].id,
                first_duplicate(d, 0) == first_duplicate(d, second as nat),
                index_of_id(d, id, 0, second as nat) == index_of_id(d, id, first as nat, second as nat),
            decreases second - first,
        {
            if decls[first].id == id {
                return Some((first, second));
            }
            first += 1;
        }
        second += 1;
    }
    None
}

/// The first fault of the paths of the declarations, by the check `check`.
pub fn check_paths(decls: &Vec<VariantDecl>, master: bool) -> (r: Option<SchemaError>)
    ensures
        r == paths_fault(
            decl_models(decls@),
            0,
            if master {
                PathCheck::Master
            } else {
                PathCheck::Named
            },
        ),
{
    let ghost d = decl_models(decls@);
    let ghost check = if master {
        PathCheck::Master
    } else {
        PathCheck::Named
    };
    let mut v: usize = 0;
    while v < decls.len()
        invariant
            v <= decls@.len(),
            d == decl_models(decls@),
            check == (if master {
                PathCheck::Master
            } else {
                PathCheck::Named
            }),
            paths_fault(d, 0, check) == paths_fault(d, v as nat, check),
        decreases decls@.len() - v,
    {
        let mut k: usize = 0;
        while k < decls[v as usize].path.len()
            invariant
                v < decls@.len(),
                k <= decls@[v as int].path@.len(),
                d == decl_models(decls@),
                check == (if master {
                    PathCheck::Master
                } else {
                    PathCheck::Named
                }),
                paths_fault(d, 0, check) == paths_fault(d, v as nat, check),
                path_fault(d, v as nat, 0, check) == path_fault(d, v as nat, k as nat, check),
            decreases decls@[v as int].path@.len() - k,
        {
            proof {
                assert(d[v as int].path[k as int] == decls@[v as int].path@[k as int]@);
            }
            match &decls[v].path[k] {
                PathSegment::Global(_) => {},
                PathSegment::Name(name) => {
                    match find_name(decls, name) {
                        None => {
                            if !master {
                                return Some(
                                    SchemaError::UnknownAncestor { variant: v, segment: k },
                                );
                            }
                        },
                        Some(i) => {
                            if !master {
                                if i == v {
                                    return Some(SchemaError::SelfInPath { variant: v, segment: k });
                                }
                            } else {
                                match decls[i].data_type {
                                    TagDataType::Master => {},
                                    _ => {
                                        return Some(
                                            SchemaError::AncestorNotMaster {
                                                variant: v,
                                                segment: k,
                                            },
                                        );
                                    },
                                }
                            }
                        },
                    }
                },
            }
            k += 1;
        }
        v += 1;
    }
    None
}

/// The parent of the `v`-th declaration.
pub fn find_parent(decls: &Vec<VariantDecl>, v: usize) -> (r: Option<usize>)
    requires
        v < decls@.len(),
    ensures
        match r {
            Some(p) => parent_of(decl_models(decls@), v as nat) == Some(p as nat) && p < decls@.len(),
            None => parent_of(decl_models(decls@), v as nat) is None,
        },
{
    let ghost d = decl_models(decls@);
    let mut k: usize = decls[v].path.len();
    while k > 0
        invariant
            v < decls@.len(),
            k <= decls@[v as int].path@.len(),
            d == decl_models(decls@),
            last_name(d[v as int].path, d[v as int].path.len()) == last_name(
                d[v as int].path,
                k as nat,
            ),
        decreases k,
    {
        proof {
            assert(d[v as int].path[k - 1] == decls@[v as int].path@[k - 1]@);
        }
        match &decls[v].path[k - 1] {
            PathSegment::Name(name) => {
                return find_name(decls, name);
            },
            PathSegment::Global(_) => {},
        }
        k -= 1;
    }
    None
}

/// The first declaration that is among its own ancestors or has such a tag
/// among its ancestors.
pub fn find_cyclic(decls: &Vec<VariantDecl>) -> (r: Option<usize>)
    ensures
        match r {
            Some(v) => first_cyclic(decl_models(decls@), 0) == Some(v as nat),
            None => first_cyclic(decl_models(decls@), 0) is None,
        },
{
    let ghost d = decl_models(decls@);
    let mut v: usize = 0;
    while v < decls.len()
        invariant
            v <= decls@.len(),
            d == decl_models(decls@),
            first_cyclic(d, 0) == first_cyclic(d, v as nat),
        decreases decls@.len() - v,
    {
        let mut at: usize = v;
        let mut left: usize = decls.len();
        let mut ended: bool = false;
        while left > 0 && !ended
            invariant
                at < decls@.len(),
                left <= decls@.len(),
                d == decl_models(decls@),
                !ended ==> ancestor_of(d, v as nat, d.len()) == ancestor_of(d, at as nat, left as nat),
                ended ==> ancestor_of(d, v as nat, d.len()) is None,
            decreases left + (if ended { 0nat } else { 1nat }),
        {
            match find_parent(decls, at) {
                None => {
                    ended = true;
                },
                Some(p) => {
                    at = p;
                    left -= 1;
                },
            }
        }
        if !ended {
            return Some(v);
        }
        v += 1;
    }
    None
}

/// Whether two steps of declared paths are the same.
pub fn same_segment(a: &PathSegment, b: &PathSegment) -> (r: bool)
    ensures
        r == (a@ == b@),
{
    match (a, b) {
        (PathSegment::Name(x), PathSegment::Name(y)) => same_bytes(x, y),
        (PathSegment::Global((min_a, max_a)), PathSegment::Global((min_b, max_b))) => {
            let same_min: bool = match (min_a, min_b) {
                (Some(x), Some(y)) => *x == *y,
                (None, None) => true,
                _ => false,
            };
            let same_max: bool = match (max_a, max_b) {
                (Some(x), Some(y)) => *x == *y,
                (None, None) => true,
                _ => false,
            };
            same_min && same_max
        },
        _ => false,
    }
}

/// The first declaration whose path does not begin with the path of its
/// parent, with the step at which it does not.
pub fn find_misaligned(decls: &Vec<VariantDecl>) -> (r: Option<(usize, usize)>)
    ensures
        match r {
            Some((v, k)) => first_misaligned_decl(decl_models(decls@), 0) == Some(
                (v as nat, k as nat),
            ),
            None => first_misaligned_decl(decl_models(decls@), 0) is None,
        },
{
    let ghost d = decl_models(decls@);
    let mut v: usize = 0;
    while v < decls.len()
        invariant
            v <= decls@.len(),
            d == decl_models(decls@),
            first_misaligned_decl(d, 0) == first_misaligned_decl(d, v as nat),
        decreases decls@.len() - v,
    {
        match find_parent(decls, v) {
            None => {},
            Some(p) => {
                let mut k: usize = 0;
                while k < decls[p].path.len()
                    invariant
                        v < decls@.len(),
                        p < decls@.len(),
                        k <= decls@[p as int].path@.len(),
                        d == decl_models(decls@),
                        parent_of(d, v as nat) == Some(p as nat),
                        first_misaligned_decl(d, 0) == first_misaligned_decl(d, v as nat),
                        first_misaligned(d[p as int].path, d[v as int].path, 0) == first_misaligned(
                            d[p as int].path,
                            d[v as int].path,
                            k as nat,
                        ),
                    decreases decls@[p as int].path@.len() - k,
                {
                    if k >= decls[v].path.len() {
                        return Some((v, k));
                    }
                    proof {
                        assert(d[p as int].path[k as int] == decls@[p as int].path@[k as int]@);
                        assert(d[v as int].path[k as int] == decls@[v as int].path@[k as int]@);
                    }
                    if !same_segment(&decls[p].path[k], &decls[v].path[k]) {
                        return Some((v, k));
                    }
                    k += 1;
                }
            },
        }
        v += 1;
    }
    None
}

/// The tables of a specification: for each tag its name, its id, what it
/// holds, and its path.
///
/// A schema comes from `compile`, so its declarations were in order: no two
/// tags have the same id, every tag that a path names is a declared master
/// tag, no tag is among its own ancestors, and the path of every tag begins
/// with the path of its parent.
pub struct Schema {
    entries: Vec<SchemaEntry>,
    decls: Ghost<Seq<DeclModel>>,
}

impl View for Schema {
    type V = Seq<EntryModel>;

    closed spec fn view(&self) -> Seq<EntryModel> {
        entry_models(self.entries@)
    }
}

impl Schema {
    /// The declarations that the schema was compiled from, the two global
    /// tags among them.
    pub closed spec fn source(&self) -> Seq<DeclModel> {
        self.decls@
    }

    /// The schema holds one entry for each of its declarations, which are in
    /// order.
    #[verifier::type_invariant]
    pub closed spec fn wf(&self) -> bool {
        &&& first_fault(self.decls@) is None
        &&& entry_models(self.entries@) == resolved(self.decls@)
    }

    /// Compiles the declarations `decls`, to which the two global tags
    /// `Crc32` and `Void` are added. Gives the schema where the declarations
    /// are in order, and else the first fault.
    pub fn compile(decls: Vec<VariantDecl>) -> (r: Result<Schema, SchemaError>)
        requires
            decls@.len() + 2 <= usize::MAX,
        ensures
            match first_fault(decl_models(decls@) + global_decls()) {
                Some(fault) => r == Err::<Schema, SchemaError>(fault),
                None => r matches Ok(schema) && schema.source() == decl_models(decls@) + global_decls()
                    && schema@ == resolved(schema.source()),
            },
    {
        let ghost given = decl_models(decls@);
        let mut all: Vec<VariantDecl> = decls;
        all.push(
            VariantDecl {
                name: vec![0x43u8, 0x72u8, 0x63u8, 0x33u8, 0x32u8],
                id: CRC32_ID,
                data_type: TagDataType::Binary,
                path: vec![PathSegment::Global((None, None))],
            },
        );
        all.push(
            VariantDecl {
                name: vec![0x56u8, 0x6fu8, 0x69u8, 0x64u8],
                id: VOID_ID,
                data_type: TagDataType::Binary,
                path: vec![PathSegment::Global((None, None))],
            },
        );
        let ghost d = decl_models(all@);
        proof {
            let n = given.len() as int;
            assert(all@[n].name@ =~= crc32_name());
            assert(all@[n + 1].name@ =~= void_name());
            assert(segment_models(all@[n].path@) =~= seq![SegmentModel::Global((None, None))]);
            assert(segment_models(all@[n + 1].path@) =~= seq![SegmentModel::Global((None, None))]);
            assert(d =~= given + global_decls());
        }
        match find_duplicate_id(&all) {
            Some((first, second)) => {
                return Err(SchemaError::DuplicateId { first, second });
            },
            None => {},
        }
        match check_paths(&all, false) {
            Some(fault) => {
                return Err(fault);
            },
            None => {},
        }
        match check_paths(&all, true) {
            Some(fault) => {
                return Err(fault);
            },
            None => {},
        }
        match find_cyclic(&all) {
            Some(v) => {
                return Err(SchemaError::CyclicAncestry { variant: v });
            },
            None => {},
        }
        match find_misaligned(&all) {
            Some((v, k)) => {
                return Err(SchemaError::PathMisaligned { variant: v, segment: k });
            },
            None => {},
        }
        let mut entries: Vec<SchemaEntry> = Vec::new();
        let mut v: usize = 0;
        while v < all.len()
            invariant
                v <= all@.len(),
                d == decl_models(all@),
                entries@.len() == v,
                forall|i: int| 0 <= i < v ==> (#[trigger] entries@[i])@ == resolved_entry(d, i),
            decreases all@.len() - v,
        {
            let mut path: Vec<PathPart> = Vec::new();
            let mut k: usize = 0;
            while k < all[v].path.len()
                invariant
                    v < all@.len(),
                    k <= all@[v as int].path@.len(),
                    d == decl_models(all@),
                    path@.len() == k,
                    forall|j: int|
                        0 <= j < k ==> #[trigger] path@[j] == resolved_part(d, d[v as int].path[j]),
                decreases all@[v as int].path@.len() - k,
            {
                proof {
                    assert(d[v as int].path[k as int] == all@[v as int].path@[k as int]@);
                }
                let part: PathPart = match &all[v].path[k] {
                    PathSegment::Global(bounds) => PathPart::Global(*bounds),
                    PathSegment::Name(name) => match find_name(&all, name) {
                        Some(i) => PathPart::Id(all[i].id),
                        None => PathPart::Id(0),
                    },
                };
                path.push(part);
                k += 1;
            }
            proof {
                assert(path@ =~= resolved_entry(d, v as int).path);
            }
            entries.push(
                SchemaEntry {
                    name: all[v].name.clone(),
                    id: all[v].id,
                    data_type: all[v].data_type,
                    path,
                },
            );
            v += 1;
        }
        proof {
            assert(entry_models(entries@) =~= resolved(d));
        }
        Ok(Schema { entries, decls: Ghost(d) })
    }

    /// The entries of the schema, in the order of the declarations; the two
    /// global tags come last. They stand for declarations that are in order,
    /// one for each: see [`lemma_declarations_in_order`].
    pub fn entries(&self) -> (r: &Vec<SchemaEntry>)
        ensures
            entry_models(r@) == self@,
            first_fault(self.source()) is None,
            self@ == resolved(self.source()),
    {
        proof {
            use_type_invariant(self);
        }
        &self.entries
    }

    /// The place of the entry with the id `id`.
    pub fn find_id(&self, id: u64) -> (r: Option<usize>)
        ensures
            match r {
                Some(i) => entry_of_id(self@, id, 0) == Some(i as nat) && i < self@.len(),
                None => entry_of_id(self@, id, 0) is None,
            },
    {
        let mut i: usize = 0;
        while i < self.entries.len()
            invariant
                i <= self.entries@.len(),
                entry_of_id(self@, id, 0) == entry_of_id(self@, id, i as nat),
            decreases self.entries@.len() - i,
        {
            if self.entries[i].id == id {
                return Some(i);
            }
            i += 1;
        }
        None
    }

    /// What the tag with the id `id` holds, or nothing where the schema has
    /// no such tag.
    pub fn get_tag_data_type(&self, id: u64) -> (r: Option<TagDataType>)
        ensures
            r == (match entry_of_id(self@, id, 0) {
                Some(i) => Some(self@[i as int].data_type),
                None => None,
            }),
    {
        match self.find_id(id) {
            Some(i) => Some(self.entries[i].data_type),
            None => None,
        }
    }

    /// The path of the tag with the id `id`: the ids of its ancestors from
    /// the root down. Empty for a root, and where the schema has no such
    /// tag.
    pub fn get_path_by_id(&self, id: u64) -> (r: &[PathPart])
        ensures
            r@ == (match entry_of_id(self@, id, 0) {
                Some(i) => self@[i as int].path,
                None => Seq::empty(),
            }),
    {
        match self.find_id(id) {
            Some(i) => self.entries[i].path.as_slice(),
            None => &[],
        }
    }

    /// Whether the schema has a tag with the id `id` that holds `data_type`:
    /// whether the constructor for that data type makes a tag for the id.
    pub fn makes(&self, id: u64, data_type: TagDataType) -> (r: bool)
        ensures
            r == (entry_of_id(self@, id, 0) matches Some(i) && self@[i as int].data_type
                == data_type),
    {
        match self.find_id(id) {
            Some(i) => self.entries[i].data_type == data_type,
            None => false,
        }
    }
}

} // verus!
