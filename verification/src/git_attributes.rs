//! The attributes of files in a repository that bear on their line endings.
use crate::attribute_search::{
    add_patterns_buffer, assignment_views, builtin_list, find_assignments, ids_agree,
    is_consistent, matching_assignments, new_collection, new_search, pattern_lists, pop_pattern_list,
    AttributeAssignment, AttributeState, StateView,
};
use crate::repo_path::{common_ancestor, internal_string, lemma_common_ancestor, RepoPath};
use gix::attrs::search::MetadataCollection;
use gix::attrs::Search;
use vstd::multiset::Multiset;
use vstd::prelude::*;

verus! {

/// The attributes of a file.
#[derive(Debug)]
pub struct ResolvedAttributes {
    /// Whether the file is text.
    pub text: TextAttribute,
    /// The line ending of the file.
    pub eol: EolAttribute,
}

/// The state of the attribute `text`.
#[derive(Debug, Clone, Copy, PartialEq, Eq, Structural)]
pub enum TextAttribute {
    /// The file is text.
    IsSet,
    /// The file is not text.
    Unset,
    /// The contents of the file tell whether it is text.
    Auto,
    /// Nothing is said.
    Unspecified,
}

/// The state of the attribute `eol`.
#[derive(Debug, Clone, Copy, PartialEq, Eq, Structural)]
pub enum EolAttribute {
    /// Lines end in LF.
    Lf,
    /// Lines end in CRLF.
    Crlf,
    /// Nothing is said.
    Unspecified,
}

/// `text` after an assignment of `state` to it. An unknown value leaves it as it is.
pub open spec fn text_after(text: TextAttribute, state: StateView) -> TextAttribute {
    match state {
        StateView::IsSet => TextAttribute::IsSet,
        StateView::Unset => TextAttribute::Unset,
        StateView::Value(value) => if value == seq!['a' as u8, 'u' as u8, 't' as u8, 'o' as u8] {
            TextAttribute::Auto
        } else {
            text
        },
        StateView::Unspecified => text,
    }
}

/// `eol` after an assignment of `state` to it. Only a known value changes it.
pub open spec fn eol_after(eol: EolAttribute, state: StateView) -> EolAttribute {
    match state {
        StateView::Value(value) => if value == seq!['l' as u8, 'f' as u8] {
            EolAttribute::Lf
        } else if value == seq!['c' as u8, 'r' as u8, 'l' as u8, 'f' as u8] {
            EolAttribute::Crlf
        } else {
            eol
        },
        _ => eol,
    }
}

/// The states that `assignments` give to the attribute `name`, one after the other.
pub open spec fn states_of(
    assignments: Seq<(Seq<char>, StateView)>,
    name: Seq<char>,
) -> Seq<StateView>
    decreases assignments.len(),
{
    if assignments.len() == 0 {
        Seq::empty()
    } else {
        let before = states_of(assignments.drop_last(), name);
        if assignments.last().0 == name {
            before.push(assignments.last().1)
        } else {
            before
        }
    }
}

/// What `assignments` make of the attribute `text`, one after the other.
pub open spec fn text_of(assignments: Seq<(Seq<char>, StateView)>) -> TextAttribute {
    states_of(assignments, "text"@).fold_left(
        TextAttribute::Unspecified,
        |text: TextAttribute, state: StateView| text_after(text, state),
    )
}

/// What `assignments` make of the attribute `eol`, one after the other.
pub open spec fn eol_of(assignments: Seq<(Seq<char>, StateView)>) -> EolAttribute {
    states_of(assignments, "eol"@).fold_left(
        EolAttribute::Unspecified,
        |eol: EolAttribute, state: StateView| eol_after(eol, state),
    )
}

/// A file with a line ending of its own is text, unless something else is said.
pub open spec fn with_implied_text(text: TextAttribute, eol: EolAttribute) -> ResolvedAttributes {
    ResolvedAttributes {
        text: if text is Unspecified && eol !is Unspecified {
            TextAttribute::IsSet
        } else {
            text
        },
        eol,
    }
}

/// What `assignments`, one after the other, make of the attributes of a file.
pub open spec fn resolved(assignments: Seq<(Seq<char>, StateView)>) -> ResolvedAttributes {
    with_implied_text(text_of(assignments), eol_of(assignments))
}

/// No two of `assignments` are of different states to one attribute.
pub open spec fn is_single_valued(assignments: Multiset<(Seq<char>, StateView)>) -> bool {
    forall|a: (Seq<char>, StateView), b: (Seq<char>, StateView)| #[trigger]
        assignments.contains(a) && #[trigger] assignments.contains(b) && a.0 == b.0 ==> a == b
}

/// The state that `assignments`, no two of which disagree, give to the attribute `name`.
pub open spec fn state_in(
    assignments: Multiset<(Seq<char>, StateView)>,
    name: Seq<char>,
) -> StateView {
    if exists|state: StateView| assignments.contains((name, state)) {
        choose|state: StateView| assignments.contains((name, state))
    } else {
        StateView::Unspecified
    }
}

/// The attributes of a file to which `assignments`, no two of which disagree, apply.
pub open spec fn resolved_from_states(
    assignments: Multiset<(Seq<char>, StateView)>,
) -> ResolvedAttributes {
    with_implied_text(
        text_after(TextAttribute::Unspecified, state_in(assignments, "text"@)),
        eol_after(EolAttribute::Unspecified, state_in(assignments, "eol"@)),
    )
}

/// `assignment` gives to `text` or to `eol` a value that has no meaning there.
pub open spec fn is_unknown(assignment: (Seq<char>, StateView)) -> bool {
    assignment.1 matches StateView::Value(value) && {
        ||| assignment.0 == "text"@ && value != seq!['a' as u8, 'u' as u8, 't' as u8, 'o' as u8]
        ||| assignment.0 == "eol"@ && value != seq!['l' as u8, 'f' as u8] && value
            != seq!['c' as u8, 'r' as u8, 'l' as u8, 'f' as u8]
    }
}

/// What `lists` assign to the file at `file`.
pub open spec fn assignments_of(
    lists: Seq<(Seq<u8>, Seq<char>, bool)>,
    file: Seq<Seq<char>>,
) -> Multiset<(Seq<char>, StateView)> {
    matching_assignments(lists, internal_string(file), Some(false))
}

/// To append an assignment appends its state to those of its attribute.
proof fn lemma_states_of_push(
    s: Seq<(Seq<char>, StateView)>,
    assignment: (Seq<char>, StateView),
    name: Seq<char>,
)
    ensures
        states_of(s.push(assignment), name) == if assignment.0 == name {
            states_of(s, name).push(assignment.1)
        } else {
            states_of(s, name)
        },
{
    assert(s.push(assignment).drop_last() =~= s);
}

/// The states of an attribute are those that assignments give to it.
proof fn lemma_states_of(s: Seq<(Seq<char>, StateView)>, name: Seq<char>)
    ensures
        forall|state: StateView| #[trigger] states_of(s, name).contains(state) <==> s.contains(
            (name, state),
        ),
    decreases s.len(),
{
    if s.len() > 0 {
        let init = s.drop_last();
        let before = states_of(init, name);
        lemma_states_of(init, name);
        assert(s =~= init.push(s.last()));
        assert forall|state: StateView| #[trigger]
            states_of(s, name).contains(state) <==> s.contains((name, state)) by {
            vstd::seq_lib::lemma_seq_contains_after_push(init, s.last(), (name, state));
            vstd::seq_lib::lemma_seq_contains_after_push(before, s.last().1, state);
        }
    }
}

/// Where all states are the same, and to assign one of them twice is to assign it once, they make
/// of an attribute what one of them does.
proof fn lemma_fold_one_state<A>(
    states: Seq<StateView>,
    state: StateView,
    start: A,
    after: spec_fn(A, StateView) -> A,
)
    requires
        states.len() > 0,
        forall|i: int| 0 <= i < states.len() ==> #[trigger] states[i] == state,
        after(after(start, state), state) == after(start, state),
    ensures
        states.fold_left(start, after) == after(start, state),
    decreases states.len(),
{
    assert(states.last() == states[states.len() - 1]);
    let init = states.drop_last();
    if init.len() > 0 {
        assert forall|i: int| 0 <= i < init.len() implies #[trigger] init[i] == state by {
            assert(states[i] == init[i]);
        }
        lemma_fold_one_state(init, state, start, after);
    } else {
        assert(init.fold_left(start, after) == start);
    }
}

/// Assignments that do not disagree make of the attribute `name` what the state that they give to
/// it does.
proof fn lemma_fold_state_in<A>(
    s: Seq<(Seq<char>, StateView)>,
    name: Seq<char>,
    start: A,
    after: spec_fn(A, StateView) -> A,
)
    requires
        is_consistent(s),
        after(start, StateView::Unspecified) == start,
        forall|state: StateView| #[trigger]
            after(after(start, state), state) == after(start, state),
    ensures
        states_of(s, name).fold_left(start, after) == after(
            start,
            state_in(s.to_multiset(), name),
        ),
{
    let states = states_of(s, name);
    let m = s.to_multiset();
    s.to_multiset_ensures();
    lemma_states_of(s, name);
    if states.len() == 0 {
        assert forall|state: StateView| !m.contains((name, state)) by {
            assert(!states.contains(state));
        }
    } else {
        assert(states.contains(states[0]));
        assert(m.contains((name, states[0])));
        let state = state_in(m, name);
        assert(m.contains((name, state)));
        assert(s.contains((name, state)));
        let j = choose|j: int| 0 <= j < s.len() && s[j] == (name, state);
        assert forall|i: int| 0 <= i < states.len() implies #[trigger] states[i] == state by {
            assert(states.contains(states[i]));
            let k = choose|k: int| 0 <= k < s.len() && s[k] == (name, states[i]);
            assert(s[k].0 == s[j].0);
        }
        assert(after(after(start, state), state) == after(start, state));
        lemma_fold_one_state(states, state, start, after);
    }
}

/// Where no two assignments disagree, the attributes of the file follow from the states that they
/// give, in whatever order they come.
pub proof fn lemma_resolved_from_states(s: Seq<(Seq<char>, StateView)>)
    requires
        is_consistent(s),
    ensures
        resolved(s) == resolved_from_states(s.to_multiset()),
{
    lemma_fold_state_in(
        s,
        "text"@,
        TextAttribute::Unspecified,
        |text: TextAttribute, state: StateView| text_after(text, state),
    );
    lemma_fold_state_in(
        s,
        "eol"@,
        EolAttribute::Unspecified,
        |eol: EolAttribute, state: StateView| eol_after(eol, state),
    );
}

/// No two elements of a multiset disagree where no two of the sequence that it comes from do.
proof fn lemma_consistent_to_multiset(s: Seq<(Seq<char>, StateView)>)
    requires
        is_consistent(s),
    ensures
        is_single_valued(s.to_multiset()),
{
    let m = s.to_multiset();
    s.to_multiset_ensures();
    assert forall|a: (Seq<char>, StateView), b: (Seq<char>, StateView)| #[trigger]
        m.contains(a) && #[trigger] m.contains(b) && a.0 == b.0 implies a == b by {
        assert(s.contains(a) && s.contains(b));
        let i = choose|i: int| 0 <= i < s.len() && s[i] == a;
        let j = choose|j: int| 0 <= j < s.len() && s[j] == b;
        assert(s[i].0 == s[j].0);
    }
}

/// A sequence and the multiset of its elements have the same elements that meet `pred`.
proof fn lemma_filter_to_multiset<A>(s: Seq<A>, pred: spec_fn(A) -> bool)
    ensures
        s.filter(pred).to_multiset() == s.to_multiset().filter(pred),
    decreases s.len(),
{
    broadcast use vstd::multiset::group_multiset_axioms;

    reveal(Seq::filter);
    s.to_multiset_ensures();
    if s.len() == 0 {
        assert(s.to_multiset().filter(pred) =~= s.to_multiset());
    } else {
        let init = s.drop_last();
        lemma_filter_to_multiset(init, pred);
        init.to_multiset_ensures();
        init.filter(pred).to_multiset_ensures();
        assert(s =~= init.push(s.last()));
        assert(s.filter(pred).to_multiset() =~= s.to_multiset().filter(pred));
    }
}

/// Tells whether `a` and `b` are the same bytes.
fn same_bytes(a: &[u8], b: &[u8]) -> (r: bool)
    ensures
        r == (a@ == b@),
{
    if a.len() != b.len() {
        return false;
    }
    for i in 0..a.len()
        invariant
            a@.len() == b@.len(),
            forall|j: int| 0 <= j < i ==> a@[j] == b@[j],
    {
        if a[i] != b[i] {
            return false;
        }
    }
    assert(a@ =~= b@);
    true
}

/// `text` after an assignment of `state` to it.
fn assign_text(text: TextAttribute, state: &AttributeState) -> (r: TextAttribute)
    ensures
        r == text_after(text, state@),
{
    match state {
        AttributeState::IsSet => TextAttribute::IsSet,
        AttributeState::Unset => TextAttribute::Unset,
        AttributeState::Value(value) => {
            if same_bytes(value.as_slice(), &['a' as u8, 'u' as u8, 't' as u8, 'o' as u8]) {
                TextAttribute::Auto
            } else {
                text
            }
        },
        AttributeState::Unspecified => text,
    }
}

/// `eol` after an assignment of `state` to it.
fn assign_eol(eol: EolAttribute, state: &AttributeState) -> (r: EolAttribute)
    ensures
        r == eol_after(eol, state@),
{
    match state {
        AttributeState::Value(value) => {
            if same_bytes(value.as_slice(), &['l' as u8, 'f' as u8]) {
                EolAttribute::Lf
            } else if same_bytes(
                value.as_slice(),
                &['c' as u8, 'r' as u8, 'l' as u8, 'f' as u8],
            ) {
                EolAttribute::Crlf
            } else {
                eol
            }
        },
        _ => eol,
    }
}

/// What `assignments` make of the attributes of a file.
pub fn resolve_assignments(assignments: &[AttributeAssignment]) -> (r: ResolvedAttributes)
    ensures
        r == resolved(assignment_views(assignments@)),
{
    let mut text: TextAttribute = TextAttribute::Unspecified;
    let mut eol: EolAttribute = EolAttribute::Unspecified;
    let ghost views = assignment_views(assignments@);
    assert(views.take(0) =~= Seq::empty());
    for i in 0..assignments.len()
        invariant
            views == assignment_views(assignments@),
            text == text_of(views.take(i as int)),
            eol == eol_of(views.take(i as int)),
    {
        let assignment: &AttributeAssignment = &assignments[i];
        proof {
            reveal_strlit("text");
            reveal_strlit("eol");
            assert("text"@.len() == 4);
            assert("eol"@.len() == 3);
            let before = views.take(i as int);
            assert(views.take(i + 1) =~= before.push(assignment@));
            lemma_states_of_push(before, assignment@, "text"@);
            lemma_states_of_push(before, assignment@, "eol"@);
            let text_states = states_of(before, "text"@);
            let eol_states = states_of(before, "eol"@);
            assert(text_states.push(assignment@.1).drop_last() =~= text_states);
            assert(eol_states.push(assignment@.1).drop_last() =~= eol_states);
        }
        if assignment.name == "text".to_owned() {
            text = assign_text(text, &assignment.state);
        } else if assignment.name == "eol".to_owned() {
            eol = assign_eol(eol, &assignment.state);
        }
    }
    assert(views.take(views.len() as int) =~= views);
    if text == TextAttribute::Unspecified && eol != EolAttribute::Unspecified {
        text = TextAttribute::IsSet;
    }
    ResolvedAttributes { text, eol }
}

/// Tells whether `assignment` gives to `text` or to `eol` a value that has no meaning there.
fn has_unknown_value(assignment: &AttributeAssignment) -> (r: bool)
    ensures
        r == is_unknown(assignment@),
{
    proof {
        reveal_strlit("text");
        reveal_strlit("eol");
        assert("text"@.len() == 4);
        assert("eol"@.len() == 3);
    }
    match &assignment.state {
        AttributeState::Value(value) => {
            if assignment.name == "text".to_owned() {
                !same_bytes(value.as_slice(), &['a' as u8, 'u' as u8, 't' as u8, 'o' as u8])
            } else if assignment.name == "eol".to_owned() {
                !same_bytes(value.as_slice(), &['l' as u8, 'f' as u8]) && !same_bytes(
                    value.as_slice(),
                    &['c' as u8, 'r' as u8, 'l' as u8, 'f' as u8],
                )
            } else {
                false
            }
        },
        _ => false,
    }
}

/// Those of `assignments` that give to `text` or to `eol` a value that has no meaning there.
pub fn unknown_assignments(assignments: Vec<AttributeAssignment>) -> (r: Vec<AttributeAssignment>)
    ensures
        assignment_views(r@) == assignment_views(assignments@).filter(
            |a: (Seq<char>, StateView)| is_unknown(a),
        ),
{
    let mut unknown: Vec<AttributeAssignment> = Vec::new();
    let ghost views = assignment_views(assignments@);
    let ghost pred = |a: (Seq<char>, StateView)| is_unknown(a);
    proof {
        reveal(Seq::filter);
        assert(assignment_views(unknown@) =~= views.take(0).filter(pred));
    }
    for assignment in iter: assignments
        invariant
            views == assignment_views(assignments@),
            iter.seq() == assignments@,
            pred == |a: (Seq<char>, StateView)| is_unknown(a),
            assignment_views(unknown@) == views.take(iter.index() as int).filter(pred),
    {
        proof {
            reveal(Seq::filter);
            let i = iter.index() as int;
            assert(views.take(i + 1).drop_last() =~= views.take(i));
            assert(views.take(i + 1).last() == assignment@);
        }
        let ghost before = unknown@;
        if has_unknown_value(&assignment) {
            unknown.push(assignment);
            assert(assignment_views(unknown@) =~= assignment_views(before).push(assignment@));
        }
    }
    assert(views.take(views.len() as int) =~= views);
    unknown
}

/// What is at a path of a tree, where there is one value and no conflict.
#[derive(Debug, PartialEq, Eq)]
pub enum TreeValue {
    /// A regular file.
    File {
        /// What the store knows the contents of the file by.
        id: Vec<u8>,
        /// Whether the file is executable.
        executable: bool,
        /// What the store knows the origin of the file by.
        copy_id: Vec<u8>,
    },
    /// A directory, a symbolic link, or anything else that has no contents to read.
    Other,
}

/// What happens to a [`GitAttributesResolver`].
#[derive(Debug)]
pub enum ResolverEvent {
    /// The resolver is asked for something.
    Start,
    /// The value that was asked for, or `None` if there is none or more than one.
    Value(Option<TreeValue>),
    /// The contents that were asked for.
    Contents(Vec<u8>),
}

/// What a [`GitAttributesResolver`] asks of the tree and the store.
#[derive(Debug)]
pub enum FileRequest {
    /// Look up what is at the path.
    PathValue(RepoPath),
    /// Read the file with the id, which is at the path.
    ReadFile {
        /// The path of the file.
        path: RepoPath,
        /// The id of the file.
        id: Vec<u8>,
    },
}

/// How far a [`GitAttributesResolver`] has come with a file.
#[derive(Debug)]
pub enum Resolution {
    /// The answer to this request is needed first.
    Request(FileRequest),
    /// The file is resolved.
    Resolved {
        /// The attributes of the file.
        attributes: ResolvedAttributes,
        /// What is assigned to `text` and `eol` of the file with a value that has no meaning there.
        unknown: Vec<AttributeAssignment>,
    },
}

/// The mathematical form of a [`ResolverEvent`].
pub enum ResolverEventView {
    Start,
    /// There is no file to read.
    NoFile,
    /// There is a file with this id.
    File(Seq<u8>),
    Contents(Seq<u8>),
}

/// The mathematical form of a [`FileRequest`].
pub enum FileRequestView {
    PathValue(Seq<Seq<char>>),
    ReadFile(Seq<Seq<char>>, Seq<u8>),
}

impl View for ResolverEvent {
    type V = ResolverEventView;

    open spec fn view(&self) -> ResolverEventView {
        match self {
            ResolverEvent::Start => ResolverEventView::Start,
            ResolverEvent::Value(Some(TreeValue::File { id, executable: _, copy_id: _ })) => {
                ResolverEventView::File(id@)
            },
            ResolverEvent::Value(_) => ResolverEventView::NoFile,
            ResolverEvent::Contents(bytes) => ResolverEventView::Contents(bytes@),
        }
    }
}

impl View for FileRequest {
    type V = FileRequestView;

    open spec fn view(&self) -> FileRequestView {
        match self {
            FileRequest::PathValue(path) => FileRequestView::PathValue(path@),
            FileRequest::ReadFile { path, id } => FileRequestView::ReadFile(path@, id@),
        }
    }
}

/// The path of the file with the attributes for `dir`.
pub open spec fn gitattributes_path(dir: Seq<Seq<char>>) -> Seq<Seq<char>> {
    dir.push(".gitattributes"@)
}

/// The list of patterns in the file with the attributes for `dir`, which holds `contents`.
pub open spec fn attribute_list(dir: Seq<Seq<char>>, contents: Seq<u8>) -> (
    Seq<u8>,
    Seq<char>,
    bool,
) {
    (contents, internal_string(gitattributes_path(dir)), false)
}

/// What is left of `dirs` after the way up from `dir` to the closest directory that holds `target`:
/// each directory that is left takes the last one of `dirs` with it where that is the same.
pub open spec fn dirs_kept(
    dirs: Seq<Seq<Seq<char>>>,
    dir: Seq<Seq<char>>,
    target: Seq<Seq<char>>,
) -> Seq<Seq<Seq<char>>>
    decreases dir.len(),
{
    if dir.len() == 0 || dir.is_prefix_of(target) {
        dirs
    } else if dirs.len() > 0 && dirs.last() == dir {
        dirs_kept(dirs.drop_last(), dir.drop_last(), target)
    } else {
        dirs_kept(dirs, dir.drop_last(), target)
    }
}

/// On the way up from `dir` to the closest directory that holds `target`, no directory is left when
/// nothing is left of `dirs`.
pub open spec fn can_leave(
    dirs: Seq<Seq<Seq<char>>>,
    dir: Seq<Seq<char>>,
    target: Seq<Seq<char>>,
) -> bool
    decreases dir.len(),
{
    if dir.len() == 0 || dir.is_prefix_of(target) {
        true
    } else if dirs.len() > 0 && dirs.last() == dir {
        can_leave(dirs.drop_last(), dir.drop_last(), target)
    } else {
        dirs.len() > 0 && can_leave(dirs, dir.drop_last(), target)
    }
}

/// A way down to a directory, of which a part is left.
pub struct WayView {
    /// The directory at the end of the way.
    pub target: Seq<Seq<char>>,
    /// The depth of the next directory on the way.
    pub depth: nat,
}

/// The mathematical form of a [`GitAttributesResolver`].
pub struct ResolverView {
    /// The directory at the end of the last way that was not given up. At first there is none.
    pub current: Option<Seq<Seq<char>>>,
    /// The way that the resolver is on, or was on when it was given up.
    pub way: Option<WayView>,
    /// The directories whose attributes are known.
    pub dirs: Seq<Seq<Seq<char>>>,
    /// The lists of patterns that are searched: the built-in one, and that of each of `dirs`.
    pub lists: Seq<(Seq<u8>, Seq<char>, bool)>,
}

impl ResolverView {
    /// Each directory with attributes has its list of patterns, and a way has an end ahead.
    pub open spec fn wf(self) -> bool {
        &&& self.way matches Some(way) ==> way.depth <= way.target.len()
        &&& self.lists.len() == self.dirs.len() + 1
        &&& self.lists[0] == builtin_list()
        &&& forall|i: int|
            0 <= i < self.dirs.len() ==> #[trigger] self.lists[i + 1] == attribute_list(
                self.dirs[i],
                self.lists[i + 1].0,
            )
    }

    /// The way to `target` is open: the directories that lie between can be left.
    pub open spec fn can_change_dir(self, target: Seq<Seq<char>>) -> bool {
        self.current matches Some(current) ==> can_leave(self.dirs, current, target)
    }

    /// Drops the lists of patterns of the directories that are left on the way up from `dir` to the
    /// closest directory that holds `target`.
    pub open spec fn leave(self, dir: Seq<Seq<char>>, target: Seq<Seq<char>>) -> ResolverView {
        let dirs = dirs_kept(self.dirs, dir, target);
        ResolverView {
            current: self.current,
            way: self.way,
            dirs,
            lists: self.lists.take(dirs.len() as int + 1),
        }
    }

    /// Comes to the directory at `depth` on the way to `target`, which may be `target` itself.
    pub open spec fn reach(self, target: Seq<Seq<char>>, depth: nat) -> ResolverView {
        if depth < target.len() {
            ResolverView { way: Some(WayView { target, depth: depth + 1 }), ..self }
        } else {
            ResolverView { current: Some(target), way: None, ..self }
        }
    }

    /// Sets out for `target`, from the current directory or, where there is none, from outside the
    /// root.
    pub open spec fn set_out(self, target: Seq<Seq<char>>) -> ResolverView {
        match self.current {
            None => ResolverView { way: Some(WayView { target, depth: 0 }), ..self },
            Some(current) => self.leave(current, target).reach(
                target,
                common_ancestor(current, target).len(),
            ),
        }
    }

    /// The next directory on the way, or `None` where there is no way.
    pub open spec fn next_dir(self) -> Option<Seq<Seq<char>>> {
        match self.way {
            Some(way) => Some(way.target.take(way.depth as int)),
            None => None,
        }
    }

    /// Takes in what the file with the attributes for `dir` holds, if there is one.
    pub open spec fn add_gitattributes(
        self,
        dir: Seq<Seq<char>>,
        contents: Option<Seq<u8>>,
    ) -> ResolverView {
        match contents {
            None => self,
            Some(bytes) => ResolverView {
                current: self.current,
                way: self.way,
                dirs: self.dirs.push(dir),
                lists: self.lists.push(attribute_list(dir, bytes)),
            },
        }
    }

    /// Enters the next directory on the way, with what its file with attributes holds if it has one.
    pub open spec fn enter(self, contents: Option<Seq<u8>>) -> ResolverView {
        let way = self.way->0;
        self.add_gitattributes(self.next_dir()->0, contents).reach(way.target, way.depth)
    }

    /// What has to be known before the next directory on the way can be entered.
    pub open spec fn next_request(self) -> Option<FileRequestView> {
        match self.next_dir() {
            Some(dir) => Some(FileRequestView::PathValue(gitattributes_path(dir))),
            None => None,
        }
    }

    /// `event` can happen to a resolver that is asked for `target`: an answer is for the way there.
    pub open spec fn accepts(self, target: Seq<Seq<char>>, event: ResolverEventView) -> bool {
        if event is Start {
            self.can_change_dir(target)
        } else {
            self.way matches Some(way) && way.target == target
        }
    }

    /// What `event` leads to on the way to `target`: no request is left where it has ended.
    pub open spec fn change_dir(self, target: Seq<Seq<char>>, event: ResolverEventView) -> (
        ResolverView,
        Option<FileRequestView>,
    ) {
        match event {
            ResolverEventView::Start => {
                let next = self.set_out(target);
                (next, next.next_request())
            },
            ResolverEventView::NoFile => {
                let next = self.enter(None);
                (next, next.next_request())
            },
            ResolverEventView::File(id) => {
                (self, Some(FileRequestView::ReadFile(gitattributes_path(self.next_dir()->0), id)))
            },
            ResolverEventView::Contents(bytes) => {
                let next = self.enter(Some(bytes));
                (next, next.next_request())
            },
        }
    }
}

/// A way down to a directory, of which a part is left.
struct Way {
    /// The directory at the end of the way.
    target: RepoPath,
    /// The depth of the next directory on the way.
    depth: usize,
}

/// Finds the attributes of files, by the `.gitattributes` files in the directories from the root of
/// the repository to the one that holds the file.
///
/// The resolver goes from directory to directory, and keeps the lists of patterns that the
/// directories have in common. The tree and the store belong to the task that drives the resolver,
/// see [`Self::resolve`].
pub struct GitAttributesResolver {
    collection: MetadataCollection,
    search: Search,
    gitattributes_dirs: Vec<RepoPath>,
    current_dir: Option<RepoPath>,
    way: Option<Way>,
}

impl View for GitAttributesResolver {
    type V = ResolverView;

    closed spec fn view(&self) -> ResolverView {
        ResolverView {
            current: match self.current_dir {
                Some(dir) => Some(dir@),
                None => None,
            },
            way: match self.way {
                Some(way) => Some(WayView { target: way.target@, depth: way.depth as nat }),
                None => None,
            },
            dirs: self.gitattributes_dirs@.map_values(|d: RepoPath| d@),
            lists: pattern_lists(self.search),
        }
    }
}

/// A directory that does not hold `target` is not the root.
proof fn lemma_root_holds_all(dir: Seq<Seq<char>>, target: Seq<Seq<char>>)
    ensures
        dir.len() > 0 || dir.is_prefix_of(target),
{
    if dir.len() == 0 {
        assert(dir =~= target.subrange(0, 0));
    }
}

/// The path of the file with the attributes for `dir`.
fn gitattributes_file(dir: &RepoPath) -> (r: RepoPath)
    ensures
        r@ == gitattributes_path(dir@),
{
    proof {
        reveal_strlit(".gitattributes");
        let name = ".gitattributes"@;
        assert forall|i: int| 0 <= i < name.len() implies name[i] != '/' by {}
    }
    dir.join(".gitattributes")
}

impl GitAttributesResolver {
    /// The parts of the resolver fit together.
    pub closed spec fn wf(self) -> bool {
        &&& self@.wf()
        &&& ids_agree(self.search, self.collection)
    }

    /// The mathematical form of a resolver whose parts fit together is well-formed.
    pub proof fn lemma_view_is_wf(self)
        requires
            self.wf(),
        ensures
            self@.wf(),
    {
    }

    /// A resolver that is in no directory.
    pub fn new() -> (r: GitAttributesResolver)
        ensures
            r.wf(),
            r@ == (ResolverView {
                current: None,
                way: None,
                dirs: Seq::empty(),
                lists: seq![builtin_list()],
            }),
    {
        let mut collection: MetadataCollection = new_collection();
        let search: Search = new_search(&mut collection);
        let r = GitAttributesResolver {
            collection,
            search,
            gitattributes_dirs: Vec::new(),
            current_dir: None,
            way: None,
        };
        assert(r@.dirs =~= Seq::empty());
        r
    }

    /// Tells whether the way to `target_dir` is open.
    pub fn can_change_dir(&self, target_dir: &RepoPath) -> (r: bool)
        requires
            self.wf(),
        ensures
            r == self@.can_change_dir(target_dir@),
    {
        let mut dir: RepoPath = match &self.current_dir {
            None => {
                return true;
            },
            Some(current) => current.to_owned(),
        };
        let mut kept: usize = self.gitattributes_dirs.len();
        assert(self@.dirs.take(kept as int) =~= self@.dirs);
        while !target_dir.starts_with(&dir)
            invariant
                self@.current is Some,
                kept <= self.gitattributes_dirs@.len(),
                can_leave(self@.dirs.take(kept as int), dir@, target_dir@)
                    == self@.can_change_dir(target_dir@),
            decreases dir@.len(),
        {
            proof {
                lemma_root_holds_all(dir@, target_dir@);
                if kept > 0 {
                    let dirs = self@.dirs.take(kept as int);
                    assert(dirs.last() == self.gitattributes_dirs@[kept - 1]@);
                    assert(dirs.drop_last() =~= self@.dirs.take(kept - 1));
                }
            }
            if kept == 0 {
                return false;
            }
            if dir.is_same(&self.gitattributes_dirs[kept - 1]) {
                kept = kept - 1;
            }
            let ghost left = dir@;
            dir = dir.ancestor(dir.depth() - 1);
            assert(dir@ =~= left.drop_last());
        }
        true
    }

    /// Drops the lists of patterns of the directories that are left on the way up from `dir` to the
    /// closest directory that holds `target_dir`, which is given back.
    fn leave_dirs(&mut self, dir: RepoPath, target_dir: &RepoPath) -> (r: RepoPath)
        requires
            old(self).wf(),
        ensures
            final(self).wf(),
            final(self)@ == old(self)@.leave(dir@, target_dir@),
            r@ == common_ancestor(dir@, target_dir@),
    {
        let ghost before = self@;
        let ghost start = dir@;
        let mut dir: RepoPath = dir;
        assert(before.dirs.take(before.dirs.len() as int) =~= before.dirs);
        assert(before.lists.take(before.lists.len() as int) =~= before.lists);
        while !target_dir.starts_with(&dir)
            invariant
                before.wf(),
                self.wf(),
                self@.current == before.current,
                self@.way == before.way,
                self@.lists == before.lists.take(self@.dirs.len() as int + 1),
                self@.dirs.len() <= before.dirs.len(),
                dirs_kept(self@.dirs, dir@, target_dir@) == dirs_kept(
                    before.dirs,
                    start,
                    target_dir@,
                ),
                common_ancestor(dir@, target_dir@) == common_ancestor(start, target_dir@),
            decreases dir@.len(),
        {
            proof {
                lemma_root_holds_all(dir@, target_dir@);
            }
            let ghost inner = self@;
            let n: usize = self.gitattributes_dirs.len();
            assert(n > 0 ==> inner.dirs.last() == self.gitattributes_dirs@[n - 1]@);
            if n > 0 && dir.is_same(&self.gitattributes_dirs[n - 1]) {
                let _ = self.gitattributes_dirs.pop();
                pop_pattern_list(&mut self.search);
                assert(self@.dirs =~= inner.dirs.drop_last());
                assert(self@.lists =~= inner.lists.drop_last());
                assert(self@.lists =~= before.lists.take(self@.dirs.len() as int + 1));
            }
            let ghost left = dir@;
            dir = dir.ancestor(dir.depth() - 1);
            assert(dir@ =~= left.drop_last());
        }
        dir
    }

    /// Comes to the directory at `depth` on the way to `target_dir`, which may be `target_dir`
    /// itself. Only there the current directory changes.
    fn reach(&mut self, target_dir: RepoPath, depth: usize)
        requires
            old(self).wf(),
            depth <= target_dir@.len(),
        ensures
            final(self).wf(),
            final(self)@ == old(self)@.reach(target_dir@, depth as nat),
    {
        if depth < target_dir.depth() {
            self.way = Some(Way { target: target_dir, depth: depth + 1 });
        } else {
            self.current_dir = Some(target_dir);
            self.way = None;
        }
    }

    /// What has to be known before the next directory on the way can be entered.
    fn next_request(&self) -> (r: Option<FileRequest>)
        requires
            self.wf(),
        ensures
            r is Some <==> self@.next_request() is Some,
            r matches Some(request) ==> request@ == self@.next_request()->0,
    {
        match &self.way {
            Some(way) => Some(
                FileRequest::PathValue(gitattributes_file(&way.target.ancestor(way.depth))),
            ),
            None => None,
        }
    }

    /// Takes in what the file with the attributes for `dir` holds, if there is one. The resolver
    /// stays in the directory that it is in.
    fn add_gitattributes_for_dir(&mut self, dir: &RepoPath, contents: Option<Vec<u8>>)
        requires
            ids_agree(old(self).search, old(self).collection),
        ensures
            ids_agree(final(self).search, final(self).collection),
            final(self)@ == old(self)@.add_gitattributes(
                dir@,
                match contents {
                    Some(bytes) => Some(bytes@),
                    None => None,
                },
            ),
    {
        let ghost before = self@;
        match contents {
            Some(bytes) => {
                let path: RepoPath = gitattributes_file(dir);
                let source: String = path.as_internal_file_string();
                self.gitattributes_dirs.push(dir.to_owned());
                add_patterns_buffer(
                    &mut self.search,
                    &mut self.collection,
                    bytes.as_slice(),
                    source.as_str(),
                    false,
                );
                assert(self@.dirs =~= before.dirs.push(dir@));
            },
            None => {},
        }
    }

    /// Takes in `event` on the way to `target_dir`, and says what has to be known next, or `None`
    /// at the end of the way.
    ///
    /// The way starts with [`ResolverEvent::Start`]. It leads up from the current directory to the
    /// closest directory that holds `target_dir`, then down from there, and takes in the
    /// `.gitattributes` file of each directory that it enters. At its end `target_dir` becomes the
    /// current directory.
    ///
    /// A way may be given up where an answer is due, by [`ResolverEvent::Start`] on another one. The
    /// current directory is then still the one that the way set out from, and the other way sets out
    /// from there too. But the lists of patterns that were dropped on the way are gone, and those
    /// that were added stay. So the resolver may miss the attributes of a directory from there on,
    /// or keep those of one that it is not in. Every way is to be followed to its end.
    pub fn change_dir(&mut self, target_dir: &RepoPath, event: ResolverEvent) -> (r: Option<
        FileRequest,
    >)
        requires
            old(self).wf(),
            old(self)@.accepts(target_dir@, event@),
        ensures
            final(self).wf(),
            ({
                let (next, request) = old(self)@.change_dir(target_dir@, event@);
                &&& final(self)@ == next
                &&& r is Some <==> request is Some
                &&& r matches Some(r) ==> r@ == request->0
            }),
    {
        let contents: Option<Vec<u8>> = match event {
            ResolverEvent::Start => {
                match &self.current_dir {
                    Some(current) => {
                        let current: RepoPath = current.to_owned();
                        let common: RepoPath = self.leave_dirs(current, target_dir);
                        proof {
                            lemma_common_ancestor(Seq::empty(), current@, target_dir@);
                        }
                        self.reach(target_dir.to_owned(), common.depth());
                    },
                    None => {
                        self.way = Some(Way { target: target_dir.to_owned(), depth: 0 });
                    },
                }
                return self.next_request();
            },
            ResolverEvent::Value(Some(TreeValue::File { id, executable: _, copy_id: _ })) => {
                return match &self.way {
                    Some(way) => {
                        let path: RepoPath = gitattributes_file(&way.target.ancestor(way.depth));
                        Some(FileRequest::ReadFile { path, id })
                    },
                    None => None,
                };
            },
            ResolverEvent::Value(_) => None,
            ResolverEvent::Contents(bytes) => Some(bytes),
        };
        let depth: usize = match &self.way {
            Some(way) => way.depth,
            None => {
                return None;
            },
        };
        let dir: RepoPath = target_dir.ancestor(depth);
        self.add_gitattributes_for_dir(&dir, contents);
        self.reach(target_dir.to_owned(), depth);
        self.next_request()
    }

    /// Takes in `event` on the way to the attributes of `file_path`, and says what has to be known
    /// next, or what they are.
    ///
    /// The task that drives the resolver starts with [`ResolverEvent::Start`], and answers each
    /// [`FileRequest`] until it is given the attributes. What happens where it stops answering is
    /// said at [`Self::change_dir`].
    pub fn resolve(&mut self, file_path: &RepoPath, event: ResolverEvent) -> (r: Resolution)
        requires
            old(self).wf(),
            file_path@.len() > 0,
            old(self)@.accepts(file_path@.drop_last(), event@),
        ensures
            final(self).wf(),
            ({
                let (next, request) = old(self)@.change_dir(file_path@.drop_last(), event@);
                let assignments = matching_assignments(
                    next.lists,
                    internal_string(file_path@),
                    Some(false),
                );
                &&& final(self)@ == next
                &&& match r {
                    Resolution::Request(r) => request == Some(r@),
                    Resolution::Resolved { attributes, unknown } => {
                        &&& request is None
                        &&& is_single_valued(assignments)
                        &&& attributes == resolved_from_states(assignments)
                        &&& assignment_views(unknown@).to_multiset() == assignments.filter(
                            |a: (Seq<char>, StateView)| is_unknown(a),
                        )
                    },
                }
            }),
    {
        let dir: RepoPath = file_path.ancestor(file_path.depth() - 1);
        assert(dir@ =~= file_path@.drop_last());
        match self.change_dir(&dir, event) {
            Some(request) => Resolution::Request(request),
            None => {
                let path: String = file_path.as_internal_file_string();
                let assignments: Vec<AttributeAssignment> = find_assignments(
                    &self.search,
                    &self.collection,
                    path.as_str(),
                    Some(false),
                );
                proof {
                    let views = assignment_views(assignments@);
                    assert(views.to_multiset() == matching_assignments(
                        self@.lists,
                        internal_string(file_path@),
                        Some(false),
                    ));
                    lemma_resolved_from_states(views);
                    lemma_consistent_to_multiset(views);
                    lemma_filter_to_multiset(
                        views,
                        |a: (Seq<char>, StateView)| is_unknown(a),
                    );
                }
                let attributes: ResolvedAttributes = resolve_assignments(assignments.as_slice());
                Resolution::Resolved { attributes, unknown: unknown_assignments(assignments) }
            },
        }
    }
}

} // verus!
