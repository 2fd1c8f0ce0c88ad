//! The search for the attributes of a path in lists of patterns, which is the work of `gix`.
//!
//! A search goes with the collection of metadata that was at hand whenever a list was added to it:
//! there the attributes have the ids that the search knows them by.
use gix::attrs::search::{MetadataCollection, Outcome};
use gix::attrs::{Search, StateRef};
use gix::glob::pattern::Case;
use vstd::multiset::Multiset;
use vstd::prelude::*;

verus! {

/// The state that an attribute can be in.
#[derive(Debug, PartialEq, Eq)]
pub enum AttributeState {
    /// The attribute is listed.
    IsSet,
    /// The attribute was prefixed with a `-` sign.
    Unset,
    /// The attribute is set to the given value, which followed the `=` sign.
    Value(Vec<u8>),
    /// The attribute is explicitly unspecified, by the `!` sign.
    Unspecified,
}

/// An attribute and the state that is assigned to it.
#[derive(Debug, PartialEq, Eq)]
pub struct AttributeAssignment {
    /// The name of the attribute.
    pub name: String,
    /// The state of the attribute.
    pub state: AttributeState,
}

/// The mathematical form of an [`AttributeState`].
pub enum StateView {
    IsSet,
    Unset,
    Value(Seq<u8>),
    Unspecified,
}

impl View for AttributeState {
    type V = StateView;

    open spec fn view(&self) -> StateView {
        match self {
            AttributeState::IsSet => StateView::IsSet,
            AttributeState::Unset => StateView::Unset,
            AttributeState::Value(value) => StateView::Value(value@),
            AttributeState::Unspecified => StateView::Unspecified,
        }
    }
}

impl View for AttributeAssignment {
    type V = (Seq<char>, StateView);

    open spec fn view(&self) -> (Seq<char>, StateView) {
        (self.name@, self.state@)
    }
}

/// The assignments of `s`, in their mathematical form.
pub open spec fn assignment_views(s: Seq<AttributeAssignment>) -> Seq<(Seq<char>, StateView)> {
    s.map_values(|a: AttributeAssignment| a@)
}

/// No two of `assignments` are of different states to one attribute.
pub open spec fn is_consistent(assignments: Seq<(Seq<char>, StateView)>) -> bool {
    forall|i: int, j: int|
        0 <= i < assignments.len() && 0 <= j < assignments.len() && (#[trigger] assignments[i]).0
            == (#[trigger] assignments[j]).0 ==> assignments[i] == assignments[j]
}

/// `gix`'s lists of patterns with the attributes that they assign.
#[verifier::external_type_specification]
#[verifier::external_body]
pub struct ExSearch(Search);

/// `gix`'s ids of all attributes that were seen in lists of patterns.
#[verifier::external_type_specification]
#[verifier::external_body]
pub struct ExMetadataCollection(MetadataCollection);

/// The lists of patterns in `search`, from the first added to the last: the bytes of each, the path
/// of the file that it comes from, and whether macros are defined in it.
pub uninterp spec fn pattern_lists(search: Search) -> Seq<(Seq<u8>, Seq<char>, bool)>;

/// The lists of patterns from which the attributes in `search` have their ids: all lists that its
/// collection had seen when a list was last added to the search, from the first seen to the last.
pub uninterp spec fn id_lists(search: Search) -> Seq<(Seq<u8>, Seq<char>, bool)>;

/// The lists of patterns that `collection` has seen, from the first to the last.
pub uninterp spec fn lists_seen(collection: MetadataCollection) -> Seq<
    (Seq<u8>, Seq<char>, bool),
>;

/// What `lists` assign to `path`, which is or is not a directory.
pub uninterp spec fn matching_assignments(
    lists: Seq<(Seq<u8>, Seq<char>, bool)>,
    path: Seq<char>,
    is_dir: Option<bool>,
) -> Multiset<(Seq<char>, StateView)>;

/// The list that every search starts with. It makes `binary` a macro.
pub open spec fn builtin_list() -> (Seq<u8>, Seq<char>, bool) {
    (vstd::utf8::encode_utf8("[attr]binary -diff -merge -text"@), "[builtin]"@, true)
}

/// The attributes in `search` have the ids that `collection` gives them.
pub open spec fn ids_agree(search: Search, collection: MetadataCollection) -> bool {
    id_lists(search).is_prefix_of(lists_seen(collection))
}

/// `MetadataCollection::default`: a collection that has seen no list.
#[verifier::external_body]
pub(crate) fn new_collection() -> (r: MetadataCollection)
    ensures
        lists_seen(r) == Seq::<(Seq<u8>, Seq<char>, bool)>::empty(),
{
    MetadataCollection::default()
}

/// `Search::new_globals`, for no files: a search of the built-in list alone, which the collection
/// has then seen too. The call can fail only on reading a file.
#[verifier::external_body]
pub(crate) fn new_search(collection: &mut MetadataCollection) -> (r: Search)
    ensures
        pattern_lists(r) == seq![builtin_list()],
        lists_seen(*final(collection)) == lists_seen(*old(collection)).push(builtin_list()),
        id_lists(r) == lists_seen(*final(collection)),
{
    let mut buf: Vec<u8> = Vec::new();
    Search::new_globals(Vec::<std::path::PathBuf>::new(), &mut buf, collection).expect("No files to read")
}

/// `Search::add_patterns_buffer`, for no root directory: adds the list of patterns in `bytes`,
/// which come from the file at `source`, as the last one. Macros are to be skipped, as the
/// collection would keep a macro beyond the list that defines it.
#[verifier::external_body]
pub(crate) fn add_patterns_buffer(
    search: &mut Search,
    collection: &mut MetadataCollection,
    bytes: &[u8],
    source: &str,
    allow_macros: bool,
)
    requires
        ids_agree(*old(search), *old(collection)),
        !allow_macros,
    ensures
        pattern_lists(*final(search)) == pattern_lists(*old(search)).push(
            (bytes@, source@, allow_macros),
        ),
        lists_seen(*final(collection)) == lists_seen(*old(collection)).push(
            (bytes@, source@, allow_macros),
        ),
        id_lists(*final(search)) == lists_seen(*final(collection)),
{
    search.add_patterns_buffer(bytes, source.into(), None, collection, allow_macros);
}

/// `Search::pop_pattern_list`: removes the list of patterns that was added last, if there is one.
#[verifier::external_body]
pub(crate) fn pop_pattern_list(search: &mut Search)
    ensures
        pattern_lists(*final(search)) == if pattern_lists(*old(search)).len() > 0 {
            pattern_lists(*old(search)).drop_last()
        } else {
            pattern_lists(*old(search))
        },
        id_lists(*final(search)) == id_lists(*old(search)),
{
    let _ = search.pop_pattern_list();
}

/// `Search::pattern_matching_relative_path`, on an outcome that is made ready for all attributes of
/// `collection`, with the case of letters respected: what the lists of patterns assign to `path`.
///
/// An outcome holds one slot for each attribute, which is filled once at most, so no two assignments
/// give different states to one attribute. That none occurs twice is not said: an outcome stores
/// assignments by their hashes, and of two with the same hash it gives out the first in the place of
/// both.
///
/// The order of the assignments is that of the ids of their attributes. It is left open here, as it
/// depends on lists that are no longer searched.
#[verifier::external_body]
pub(crate) fn find_assignments(
    search: &Search,
    collection: &MetadataCollection,
    path: &str,
    is_dir: Option<bool>,
) -> (r: Vec<AttributeAssignment>)
    requires
        ids_agree(*search, *collection),
        path@.len() > 0 ==> path@[0] != '/',
    ensures
        assignment_views(r@).to_multiset() == matching_assignments(
            pattern_lists(*search),
            path@,
            is_dir,
        ),
        is_consistent(assignment_views(r@)),
{
    let mut outcome = Outcome::default();
    outcome.initialize(collection);
    search.pattern_matching_relative_path(path.into(), Case::default(), is_dir, &mut outcome);
    let convert = |state: StateRef<'_>| match state {
        StateRef::Set => AttributeState::IsSet,
        StateRef::Unset => AttributeState::Unset,
        StateRef::Value(value) => AttributeState::Value(value.as_bstr().to_vec()),
        StateRef::Unspecified => AttributeState::Unspecified,
    };
    let matches = outcome.iter().map(|m| m.assignment);
    matches.map(|a| AttributeAssignment { name: a.name.as_str().into(), state: convert(a.state) }).collect()
}

} // verus!
