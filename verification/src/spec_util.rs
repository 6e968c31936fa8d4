//! What a specification says of the place of a tag in a document: which tags
//! are parents and siblings of which, which tag ends a tag of unknown size,
//! and whether a tag may stand under the tags that are open.
use vstd::prelude::*;
use crate::specs::EbmlSpecification;
use crate::specs::EbmlTag;
use crate::specs::PathModel;
use crate::specs::PathPart;
use crate::tag_iterator_util::EBMLSize;

verus! {

/// Whether `test_id` is among the ancestors that the specification gives
/// `current_id`.
pub open spec fn spec_is_parent<T: EbmlSpecification>(current_id: u64, test_id: u64) -> bool {
    T::spec_path_by_id(current_id).contains(PathPart::Id(test_id))
}

/// Whether the specification gives `test_id` the path of `current_id`: the two
/// have the same parent. A tag is its own sibling.
pub open spec fn spec_is_sibling<T: EbmlSpecification>(current_id: u64, test_id: u64) -> bool {
    T::spec_path_by_id(current_id) == T::spec_path_by_id(test_id)
}

/// Whether `test_id` is a root of the specification: a known id without
/// ancestors.
pub open spec fn spec_is_root<T: EbmlSpecification>(test_id: u64) -> bool {
    T::spec_tag_data_type(test_id) is Some && T::spec_path_by_id(test_id).len() == 0
}

/// Whether a tag `test_id` ends an open tag `current_id` of unknown size: it
/// is an ancestor of the open tag, a sibling of it, or a root.
pub open spec fn spec_is_ended_by<T: EbmlSpecification>(current_id: u64, test_id: u64) -> bool {
    spec_is_parent::<T>(current_id, test_id) || spec_is_sibling::<T>(current_id, test_id)
        || spec_is_root::<T>(test_id)
}

/// One open tag as the path check sees it: its id, its size, and its place.
pub type DocNode = (u64, EBMLSize, usize);

/// Whether a path that was followed up to `path_marker`, with `global_counter`
/// tags taken by the run of a global step that stands there, is at its end:
/// all steps are done, or the one left is a global step whose lower bound is
/// met.
pub open spec fn path_is_complete(path: PathModel, path_marker: nat, global_counter: nat) -> bool {
    path.len() == path_marker || (path.len() - 1 == path_marker && (
    path[path_marker as int] matches PathPart::Global((min, _)) && global_counter >= (match min {
        Some(m) => m,
        None => 0,
    })))
}

/// Whether the open tags from the `at`-th on, outermost first, and then the
/// end of the path, agree with the path from `path_marker` on.
///
/// An id in the path stands for one open tag with that id. A global step
/// stands for a run of open tags, of a length within its bounds; the run ends
/// at the tag that the next step of the path names. An open tag of unknown
/// size that the tag `tag_id` ends makes everything agree: it will be closed
/// before the tag.
pub open spec fn path_agrees<T: EbmlSpecification>(
    tag_id: u64,
    path: PathModel,
    doc_path: Seq<DocNode>,
    at: nat,
    path_marker: nat,
    global_counter: nat,
) -> bool
    decreases doc_path.len() - at,
{
    if at >= doc_path.len() {
        path_is_complete(path, path_marker, global_counter)
    } else {
        let node = doc_path[at as int];
        if !(node.1 is Known) && spec_is_ended_by::<T>(node.0, tag_id) {
            true
        } else if path_marker >= path.len() {
            false
        } else {
            match path[path_marker as int] {
                PathPart::Id(id) => id == node.0 && path_agrees::<T>(
                    tag_id,
                    path,
                    doc_path,
                    at + 1,
                    path_marker + 1,
                    global_counter,
                ),
                PathPart::Global((min, max)) => {
                    let counted = global_counter + 1;
                    if max is Some && counted > max->0 {
                        false
                    } else if path.len() > path_marker + 1 && path[path_marker as int + 1] == PathPart::Id(
                        node.0,
                    ) {
                        !(min is Some && counted < min->0) && path_agrees::<T>(
                            tag_id,
                            path,
                            doc_path,
                            at + 1,
                            path_marker + 2,
                            0,
                        )
                    } else {
                        path_agrees::<T>(tag_id, path, doc_path, at + 1, path_marker, counted)
                    }
                },
            }
        }
    }
}

/// Whether the tag `tag_id` may stand under the open tags `doc_path`,
/// outermost first: it is a root, which may stand anywhere, or the open tags
/// agree with its path.
pub open spec fn spec_validate_tag_path<T: EbmlSpecification>(
    tag_id: u64,
    doc_path: Seq<DocNode>,
) -> bool {
    spec_is_root::<T>(tag_id) || path_agrees::<T>(
        tag_id,
        T::spec_path_by_id(tag_id),
        doc_path,
        0,
        0,
        0,
    )
}

/// Whether every step of `path` names an id.
pub open spec fn is_plain_path(path: PathModel) -> bool {
    forall|i: int| 0 <= i < path.len() ==> (#[trigger] path[i]) is Id
}

/// Whether the open tags from the `at`-th on have the ids that the path names
/// from its `at`-th step on, one for one.
pub open spec fn names_exactly(path: PathModel, doc_path: Seq<DocNode>, at: nat) -> bool {
    path.len() == doc_path.len() && forall|i: int|
        at <= i < path.len() ==> #[trigger] path[i] == PathPart::Id(doc_path[i].0)
}

/// Under open tags of known size only, a path of ids is met by exactly the
/// open tags that it names, in its order.
pub proof fn lemma_plain_path_agrees<T: EbmlSpecification>(
    tag_id: u64,
    path: PathModel,
    doc_path: Seq<DocNode>,
    at: nat,
)
    requires
        is_plain_path(path),
        forall|i: int| 0 <= i < doc_path.len() ==> (#[trigger] doc_path[i]).1 is Known,
        at <= doc_path.len(),
        at <= path.len(),
    ensures
        path_agrees::<T>(tag_id, path, doc_path, at, at, 0) == names_exactly(path, doc_path, at),
    decreases doc_path.len() - at,
{
    if at >= doc_path.len() {
    } else {
        assert(doc_path[at as int].1 is Known);
        if at >= path.len() {
        } else {
            assert(path[at as int] is Id);
            let id = path[at as int]->Id_0;
            if id == doc_path[at as int].0 {
                lemma_plain_path_agrees::<T>(tag_id, path, doc_path, at + 1);
                if names_exactly(path, doc_path, at + 1) {
                    assert(path[at as int] == PathPart::Id(doc_path[at as int].0));
                    assert(names_exactly(path, doc_path, at));
                }
            } else {
                assert(path[at as int] != PathPart::Id(doc_path[at as int].0));
            }
        }
    }
}

/// A root may stand anywhere, and any other tag whose path names ids only
/// may stand where its parents are the open tags, all of known size.
pub proof fn lemma_validate_plain_path<T: EbmlSpecification>(tag_id: u64, doc_path: Seq<DocNode>)
    requires
        is_plain_path(T::spec_path_by_id(tag_id)),
        forall|i: int| 0 <= i < doc_path.len() ==> (#[trigger] doc_path[i]).1 is Known,
    ensures
        spec_validate_tag_path::<T>(tag_id, doc_path) == (spec_is_root::<T>(tag_id)
            || names_exactly(T::spec_path_by_id(tag_id), doc_path, 0)),
{
    lemma_plain_path_agrees::<T>(tag_id, T::spec_path_by_id(tag_id), doc_path, 0);
}

/// Whether two steps of a path are the same.
pub fn same_part(a: &PathPart, b: &PathPart) -> (r: bool)
    ensures
        r == (*a == *b),
{
    match (a, b) {
        (PathPart::Id(x), PathPart::Id(y)) => *x == *y,
        (PathPart::Global((min_a, max_a)), PathPart::Global((min_b, max_b))) => {
            let same_min: bool = match (min_a, min_b) {
                (Some(x), Some(y)) => *x == *y,
                (None, None) => true,
                _ => false,
            };
            let same_max: bool = match (max_a, max_b) {
                (Some(x), Some(y)) => *x == *y,
                (None, None) => true,
                _ => false,
            };
            same_min && same_max
        },
        _ => false,
    }
}

/// Whether `test_id` is a parent of `current_id`: one of the ancestors that the
/// specification gives it.
pub fn is_parent<T: EbmlSpecification + EbmlTag + Clone>(current_id: u64, test_id: u64) -> (r: bool)
    ensures
        r == spec_is_parent::<T>(current_id, test_id),
{
    let path: &[PathPart] = T::get_path_by_id(current_id);
    let wanted: PathPart = PathPart::Id(test_id);
    let mut i: usize = 0;
    while i < path.len()
        invariant
            i <= path@.len(),
            wanted == PathPart::Id(test_id),
            path@ == T::spec_path_by_id(current_id),
            forall|k: int| 0 <= k < i ==> path@[k] != wanted,
        decreases path@.len() - i,
    {
        if same_part(&path[i], &wanted) {
            return true;
        }
        i += 1;
    }
    false
}

/// Whether `test_id` is a sibling of `current_id`: the specification gives the
/// two the same path. Another tag with the id of the first is a sibling of it.
pub fn is_sibling<T: EbmlSpecification + EbmlTag + Clone>(current_id: u64, test_id: u64) -> (r:
    bool)
    ensures
        r == spec_is_sibling::<T>(current_id, test_id),
{
    let a: &[PathPart] = T::get_path_by_id(current_id);
    let b: &[PathPart] = T::get_path_by_id(test_id);
    if a.len() != b.len() {
        return false;
    }
    let mut i: usize = 0;
    while i < a.len()
        invariant
            i <= a@.len(),
            a@.len() == b@.len(),
            a@ == T::spec_path_by_id(current_id),
            b@ == T::spec_path_by_id(test_id),
            forall|k: int| 0 <= k < i ==> a@[k] == b@[k],
        decreases a@.len() - i,
    {
        if !same_part(&a[i], &b[i]) {
            return false;
        }
        i += 1;
    }
    proof {
        assert(a@ =~= b@);
    }
    true
}

/// Whether a tag `test_id` ends an open tag `current_id` of unknown size.
///
/// It does if it is a parent of the open tag, a sibling of it, or a root of
/// the specification. A tag of unknown size can end in other ways too, which
/// depend on where the tags stand and on their sizes; those are not looked
/// at here.
pub fn is_ended_by<T: EbmlSpecification + EbmlTag + Clone>(current_id: u64, test_id: u64) -> (r:
    bool)
    ensures
        r == spec_is_ended_by::<T>(current_id, test_id),
{
    is_parent::<T>(current_id, test_id) || is_sibling::<T>(current_id, test_id) || (
    T::get_tag_data_type(test_id).is_some() && T::get_path_by_id(test_id).len() == 0)
}

/// Whether the tag `tag_id` may stand under the open tags `doc_path`, which are
/// given outermost first.
///
/// The open tags are held against the path that the specification gives the
/// tag, step by step: see [`path_agrees`].
pub fn validate_tag_path<T: EbmlSpecification + EbmlTag + Clone>(
    tag_id: u64,
    doc_path: &[DocNode],
) -> (r: bool)
    ensures
        r == spec_validate_tag_path::<T>(tag_id, doc_path@),
{
    let path: &[PathPart] = T::get_path_by_id(tag_id);
    if T::get_tag_data_type(tag_id).is_some() && path.len() == 0 {
        return true;
    }
    let mut path_marker: usize = 0;
    let mut global_counter: u64 = 0;
    let mut at: usize = 0;
    while at < doc_path.len()
        invariant
            at <= doc_path@.len(),
            path@ == T::spec_path_by_id(tag_id),
            global_counter <= at,
            path_marker <= path@.len(),
            !spec_is_root::<T>(tag_id),
            spec_validate_tag_path::<T>(tag_id, doc_path@) == path_agrees::<T>(
                tag_id,
                path@,
                doc_path@,
                at as nat,
                path_marker as nat,
                global_counter as nat,
            ),
        decreases doc_path@.len() - at,
    {
        let node: DocNode = doc_path[at];
        if !node.1.is_known() && is_ended_by::<T>(node.0, tag_id) {
            return true;
        }
        if path_marker >= path.len() {
            return false;
        }
        match path[path_marker] {
            PathPart::Id(id) => {
                if id != node.0 {
                    return false;
                }
                path_marker += 1;
            },
            PathPart::Global((min, max)) => {
                global_counter += 1;
                match max {
                    Some(m) => {
                        if global_counter > m {
                            return false;
                        }
                    },
                    None => {},
                }
                let next_names_node: bool = path.len() - path_marker > 1 && same_part(
                    &path[path_marker + 1],
                    &PathPart::Id(node.0),
                );
                if next_names_node {
                    match min {
                        Some(m) => {
                            if global_counter < m {
                                return false;
                            }
                        },
                        None => {},
                    }
                    path_marker += 2;
                    global_counter = 0;
                }
            },
        }
        at += 1;
    }
    if path.len() == path_marker {
        return true;
    }
    if path.len() - 1 == path_marker {
        match path[path_marker] {
            PathPart::Global((min, _)) => {
                let least: u64 = match min {
                    Some(m) => m,
                    None => 0,
                };
                global_counter >= least
            },
            PathPart::Id(_) => false,
        }
    } else {
        false
    }
}

} // verus!
