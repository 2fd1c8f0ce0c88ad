//! Laws of attributes and of the way of a resolver through the directories of a repository.
use crate::attribute_search::{
    assignment_views, builtin_list, is_consistent, matching_assignments, AttributeAssignment,
    AttributeState, StateView,
};
use crate::git_attributes::{
    assignments_of, attribute_list, can_leave, dirs_kept, eol_after, gitattributes_path,
    is_single_valued, is_unknown, lemma_resolved_from_states, resolved, resolved_from_states,
    state_in, states_of, text_after, text_of, with_implied_text, EolAttribute, FileRequestView,
    ResolvedAttributes, ResolverEventView, ResolverView, TextAttribute,
};
use crate::repo_path::{common_ancestor, lemma_common_ancestor};
use crate::repo_path_laws::{law_string_follows_from_components, split_at_slashes};
use vstd::multiset::Multiset;
use vstd::prelude::*;

verus! {

/// Where no two assignments disagree, their order makes no difference.
pub proof fn law_order_is_irrelevant(
    s: Seq<(Seq<char>, StateView)>,
    t: Seq<(Seq<char>, StateView)>,
)
    requires
        is_consistent(s),
        s.to_multiset() == t.to_multiset(),
    ensures
        resolved(s) == resolved(t),
        resolved(s) == resolved_from_states(s.to_multiset()),
{
    s.to_multiset_ensures();
    t.to_multiset_ensures();
    assert forall|i: int, j: int|
        0 <= i < t.len() && 0 <= j < t.len() && (#[trigger] t[i]).0 == (
        #[trigger] t[j]).0 implies t[i] == t[j] by {
        assert(t.contains(t[i]));
        assert(t.contains(t[j]));
        assert(s.to_multiset().count(t[i]) > 0);
        assert(s.to_multiset().count(t[j]) > 0);
        let k = choose|k: int| 0 <= k < s.len() && s[k] == t[i];
        let l = choose|l: int| 0 <= l < s.len() && s[l] == t[j];
        assert(s[k].0 == s[l].0);
    }
    lemma_resolved_from_states(s);
    lemma_resolved_from_states(t);
}

/// Only assignments to `text` and to `eol` bear on the result, and their attributes do not mix: to
/// append one to another attribute changes nothing.
pub proof fn law_other_attributes_are_ignored(
    s: Seq<(Seq<char>, StateView)>,
    name: Seq<char>,
    state: StateView,
)
    requires
        name != "text"@,
        name != "eol"@,
    ensures
        resolved(s.push((name, state))) == resolved(s),
{
    assert(s.push((name, state)).drop_last() =~= s);
}

/// An assignment of a value that has no meaning changes nothing.
pub proof fn law_unknown_values_are_ignored(
    s: Seq<(Seq<char>, StateView)>,
    assignment: (Seq<char>, StateView),
)
    requires
        is_unknown(assignment),
    ensures
        resolved(s.push(assignment)) == resolved(s),
{
    let t = s.push(assignment);
    assert(t.drop_last() =~= s);
    assert(states_of(s, "text"@).push(assignment.1).drop_last() =~= states_of(s, "text"@));
    assert(states_of(s, "eol"@).push(assignment.1).drop_last() =~= states_of(s, "eol"@));
    reveal_strlit("text");
    reveal_strlit("eol");
    assert("text"@.len() == 4);
    assert("eol"@.len() == 3);
}

/// The values that a resolver reports as unknown are those that the assignments to the file give to
/// `text` and to `eol` and that have no meaning there, and no others.
pub proof fn law_unknown_values_are_reported(
    assignments: Multiset<(Seq<char>, StateView)>,
    unknown: Seq<(Seq<char>, StateView)>,
    assignment: (Seq<char>, StateView),
)
    requires
        unknown.to_multiset() == assignments.filter(|a: (Seq<char>, StateView)| is_unknown(a)),
    ensures
        unknown.contains(assignment) <==> assignments.contains(assignment) && is_unknown(
            assignment,
        ),
{
    broadcast use vstd::multiset::group_multiset_axioms;

    unknown.to_multiset_ensures();
    assert(unknown.contains(assignment) <==> unknown.to_multiset().count(assignment) > 0);
}

/// The state of an attribute is the one that is assigned to it, where no two assignments disagree,
/// and it is unspecified where none is.
pub proof fn law_assigned_states_decide(
    assignments: Multiset<(Seq<char>, StateView)>,
    text: StateView,
    eol: StateView,
)
    requires
        is_single_valued(assignments),
        assignments.contains(("text"@, text)) || (text is Unspecified && forall|state: StateView|
            !assignments.contains(("text"@, state))),
        assignments.contains(("eol"@, eol)) || (eol is Unspecified && forall|state: StateView|
            !assignments.contains(("eol"@, state))),
    ensures
        state_in(assignments, "text"@) == text,
        state_in(assignments, "eol"@) == eol,
        resolved_from_states(assignments) == with_implied_text(
            text_after(TextAttribute::Unspecified, text),
            eol_after(EolAttribute::Unspecified, eol),
        ),
{
    if assignments.contains(("text"@, text)) {
        assert(assignments.contains(("text"@, state_in(assignments, "text"@))));
    }
    if assignments.contains(("eol"@, eol)) {
        assert(assignments.contains(("eol"@, state_in(assignments, "eol"@))));
    }
}

/// What the assignments to a file make of it, where no two of them disagree. The line ending follows
/// from the state of `eol` alone: `lf` and `crlf` are its values. Whether the file is text follows
/// from the state of `text`, and where that says nothing, a file with a line ending is text.
pub proof fn law_attributes_follow_from_states(assignments: Multiset<(Seq<char>, StateView)>)
    requires
        is_single_valued(assignments),
    ensures
        ({
            let r = resolved_from_states(assignments);
            let text = seq!['t', 'e', 'x', 't'];
            let eol = seq!['e', 'o', 'l'];
            let lf = assignments.contains((eol, StateView::Value(seq![0x6cu8, 0x66u8])));
            let crlf = assignments.contains(
                (eol, StateView::Value(seq![0x63u8, 0x72u8, 0x6cu8, 0x66u8])),
            );
            let set = assignments.contains((text, StateView::IsSet));
            let unset = assignments.contains((text, StateView::Unset));
            let auto = assignments.contains(
                (text, StateView::Value(seq![0x61u8, 0x75u8, 0x74u8, 0x6fu8])),
            );
            &&& r.eol is Lf <==> lf
            &&& r.eol is Crlf <==> crlf
            &&& r.text is Unset <==> unset
            &&& r.text is Auto <==> auto
            &&& r.text is IsSet <==> set || ((lf || crlf) && !unset && !auto)
        }),
{
    lemma_names();
    let text = state_in(assignments, "text"@);
    let eol = state_in(assignments, "eol"@);
    if exists|state: StateView| assignments.contains(("text"@, state)) {
        assert(assignments.contains(("text"@, text)));
    }
    if exists|state: StateView| assignments.contains(("eol"@, state)) {
        assert(assignments.contains(("eol"@, eol)));
    }
    assert forall|state: StateView| assignments.contains(("text"@, state)) implies state
        == text by {
        assert(assignments.contains(("text"@, text)));
    }
    assert forall|state: StateView| assignments.contains(("eol"@, state)) implies state == eol by {
        assert(assignments.contains(("eol"@, eol)));
    }
    assert(seq![0x6cu8, 0x66u8].len() != seq![0x63u8, 0x72u8, 0x6cu8, 0x66u8].len());
}

/// The names of the attributes and their values, letter by letter.
proof fn lemma_names()
    ensures
        "text"@ == seq!['t', 'e', 'x', 't'],
        "eol"@ == seq!['e', 'o', 'l'],
        "text"@ != "eol"@,
        seq!['a' as u8, 'u' as u8, 't' as u8, 'o' as u8] == seq![0x61u8, 0x75u8, 0x74u8, 0x6fu8],
        seq!['l' as u8, 'f' as u8] == seq![0x6cu8, 0x66u8],
        seq!['c' as u8, 'r' as u8, 'l' as u8, 'f' as u8] == seq![0x63u8, 0x72u8, 0x6cu8, 0x66u8],
{
    reveal_strlit("text");
    reveal_strlit("eol");
    assert("text"@ =~= seq!['t', 'e', 'x', 't']);
    assert("eol"@ =~= seq!['e', 'o', 'l']);
    assert("text"@.len() == 4);
}

/// What one more assignment changes. One to `text` that sets it, unsets it or leaves it to the
/// contents decides whether the file is text, and nothing else. One to `eol` of `lf` or `crlf`
/// decides the line ending, and makes the file text where nothing was said. Any other changes
/// nothing. Without assignments nothing is said.
pub proof fn law_one_more_assignment(
    s: Seq<(Seq<char>, StateView)>,
    name: Seq<char>,
    state: StateView,
)
    ensures
        ({
            let before = resolved(s);
            let after = resolved(s.push((name, state)));
            let auto = StateView::Value(seq![0x61u8, 0x75u8, 0x74u8, 0x6fu8]);
            let lf = StateView::Value(seq![0x6cu8, 0x66u8]);
            let crlf = StateView::Value(seq![0x63u8, 0x72u8, 0x6cu8, 0x66u8]);
            if name == seq!['t', 'e', 'x', 't'] && (state is IsSet || state is Unset || state
                == auto) {
                &&& after.eol == before.eol
                &&& state is IsSet ==> after.text is IsSet
                &&& state is Unset ==> after.text is Unset
                &&& state == auto ==> after.text is Auto
            } else if name == seq!['e', 'o', 'l'] && (state == lf || state == crlf) {
                &&& state == lf ==> after.eol is Lf
                &&& state == crlf ==> after.eol is Crlf
                &&& before.text is Unspecified ==> after.text is IsSet
                &&& before.text !is Unspecified ==> after.text == before.text
            } else {
                after == before
            }
        }),
        resolved(Seq::empty()).text is Unspecified,
        resolved(Seq::empty()).eol is Unspecified,
{
    lemma_names();
    let t = s.push((name, state));
    assert(t.drop_last() =~= s);
    assert(states_of(s, "text"@).push(state).drop_last() =~= states_of(s, "text"@));
    assert(states_of(s, "eol"@).push(state).drop_last() =~= states_of(s, "eol"@));
    assert(seq![0x6cu8, 0x66u8].len() != seq![0x63u8, 0x72u8, 0x6cu8, 0x66u8].len());
}

/// The unknown assignments are those of a value to `text` or to `eol` that alone say nothing.
pub proof fn law_unknown_values_say_nothing(name: Seq<char>, state: StateView)
    ensures
        is_unknown((name, state)) <==> {
            &&& name == seq!['t', 'e', 'x', 't'] || name == seq!['e', 'o', 'l']
            &&& state is Value
            &&& resolved(seq![(name, state)]).text is Unspecified
            &&& resolved(seq![(name, state)]).eol is Unspecified
        },
{
    lemma_names();
    law_one_more_assignment(Seq::empty(), name, state);
    assert(seq![(name, state)] =~= Seq::empty().push((name, state)));
}

/// A file is searched for by its own path from the root, as a file: the string whose parts between
/// slashes are the components of the path.
pub proof fn law_file_is_searched_by_its_path(
    lists: Seq<(Seq<u8>, Seq<char>, bool)>,
    file: Seq<Seq<char>>,
    path: Seq<char>,
)
    requires
        split_at_slashes(path) == file,
    ensures
        assignments_of(lists, file) == matching_assignments(lists, path, Some(false)),
{
    law_string_follows_from_components(path);
}

/// Assignments are taken for what they are: each by its name and its state, in order.
pub proof fn law_assignments_and_states(s: Seq<AttributeAssignment>, i: int, value: Vec<u8>)
    requires
        0 <= i < s.len(),
    ensures
        assignment_views(s).len() == s.len(),
        assignment_views(s)[i].0 == s[i].name@,
        assignment_views(s)[i].1 == s[i].state@,
        AttributeState::IsSet@ is IsSet,
        AttributeState::Unset@ is Unset,
        AttributeState::Value(value)@ == StateView::Value(value@),
        AttributeState::Unspecified@ is Unspecified,
{
}

/// A file with a line ending of its own is never left without a state of `text`.
pub proof fn law_eol_implies_text(s: Seq<(Seq<char>, StateView)>)
    ensures
        resolved(s).eol !is Unspecified ==> resolved(s).text !is Unspecified,
        resolved(s).eol is Unspecified ==> resolved(s).text == text_of(s),
        text_of(s) !is Unspecified ==> resolved(s).text == text_of(s),
{
}

/// What the `.gitattributes` file of a directory holds, for each directory of a repository that has
/// such a file.
pub type AttributeFiles = spec_fn(Seq<Seq<char>>) -> Option<Seq<u8>>;

/// The directories from the root to `dir` that have a file with attributes.
pub open spec fn attribute_dirs(files: AttributeFiles, dir: Seq<Seq<char>>) -> Seq<Seq<Seq<char>>>
    decreases dir.len(),
{
    let above = if dir.len() == 0 {
        Seq::empty()
    } else {
        attribute_dirs(files, dir.drop_last())
    };
    if files(dir) is Some {
        above.push(dir)
    } else {
        above
    }
}

/// The lists of patterns for files in `dir`: the built-in one, then those from the root to `dir`.
pub open spec fn attribute_lists(files: AttributeFiles, dir: Seq<Seq<char>>) -> Seq<
    (Seq<u8>, Seq<char>, bool),
>
    decreases dir.len(),
{
    let above = if dir.len() == 0 {
        seq![builtin_list()]
    } else {
        attribute_lists(files, dir.drop_last())
    };
    match files(dir) {
        Some(contents) => above.push(attribute_list(dir, contents)),
        None => above,
    }
}

/// The attributes of the file at `file`.
pub open spec fn attributes_of(
    files: AttributeFiles,
    file: Seq<Seq<char>>,
) -> ResolvedAttributes {
    resolved_from_states(assignments_of(attribute_lists(files, file.drop_last()), file))
}

/// A resolver that is in no directory.
pub open spec fn nowhere() -> ResolverView {
    ResolverView { current: None, way: None, dirs: Seq::empty(), lists: seq![builtin_list()] }
}

/// A resolver that is in `dir` and knows all that `files` say about it.
pub open spec fn arrived(files: AttributeFiles, dir: Seq<Seq<char>>) -> ResolverView {
    ResolverView {
        current: Some(dir),
        way: None,
        dirs: attribute_dirs(files, dir),
        lists: attribute_lists(files, dir),
    }
}

/// The resolver knows what `files` say about the directories that it has entered on its way or, at
/// the end of the way, about the directory that it is in; and nothing else.
pub open spec fn reflects(v: ResolverView, files: AttributeFiles) -> bool {
    match v.way {
        Some(way) => {
            &&& way.depth <= way.target.len()
            &&& if way.depth == 0 {
                v.dirs == nowhere().dirs && v.lists == nowhere().lists
            } else {
                let last = way.target.take(way.depth - 1);
                v.dirs == attribute_dirs(files, last) && v.lists == attribute_lists(files, last)
            }
        },
        None => match v.current {
            None => v == nowhere(),
            Some(dir) => v == arrived(files, dir),
        },
    }
}

/// `event` tells what `files` say about the next directory on the way.
pub open spec fn is_true(
    event: ResolverEventView,
    v: ResolverView,
    files: AttributeFiles,
) -> bool {
    match event {
        ResolverEventView::Start => true,
        ResolverEventView::NoFile => files(v.next_dir()->0) is None,
        ResolverEventView::File(_) => files(v.next_dir()->0) is Some,
        ResolverEventView::Contents(bytes) => files(v.next_dir()->0) == Some(bytes),
    }
}

/// `event` gives no way up: a resolver sets out only where it has come to the end of a way.
pub open spec fn follows_way(event: ResolverEventView, v: ResolverView) -> bool {
    event is Start ==> v.way is None
}

/// The event that takes a resolver into the next directory on the way.
pub open spec fn answer(v: ResolverView, files: AttributeFiles) -> ResolverEventView {
    match files(v.next_dir()->0) {
        Some(contents) => ResolverEventView::Contents(contents),
        None => ResolverEventView::NoFile,
    }
}

/// The number of directories that are left on the way.
pub open spec fn dirs_ahead(v: ResolverView) -> nat {
    match v.way {
        Some(way) => if way.depth <= way.target.len() {
            (way.target.len() - way.depth + 1) as nat
        } else {
            1
        },
        None => 0,
    }
}

/// The resolver after all directories that are left on the way.
pub open spec fn walk(v: ResolverView, files: AttributeFiles) -> ResolverView
    decreases dirs_ahead(v),
{
    match v.way {
        Some(way) => walk(v.change_dir(way.target, answer(v, files)).0, files),
        None => v,
    }
}

/// The resolver after it has resolved the file at `file`.
pub open spec fn visit(
    v: ResolverView,
    file: Seq<Seq<char>>,
    files: AttributeFiles,
) -> ResolverView {
    walk(v.change_dir(file.drop_last(), ResolverEventView::Start).0, files)
}

/// A new resolver after it has resolved the files at `paths`, one after the other.
pub open spec fn visit_all(paths: Seq<Seq<Seq<char>>>, files: AttributeFiles) -> ResolverView
    decreases paths.len(),
{
    if paths.len() == 0 {
        nowhere()
    } else {
        visit(visit_all(paths.drop_last(), files), paths.last(), files)
    }
}

/// The path that `request` is about.
pub open spec fn requested_path(request: FileRequestView) -> Seq<Seq<char>> {
    match request {
        FileRequestView::PathValue(path) => path,
        FileRequestView::ReadFile(path, _) => path,
    }
}

/// What is known about a directory fits together, and is of directories no deeper than it.
proof fn lemma_attribute_dirs(files: AttributeFiles, dir: Seq<Seq<char>>)
    ensures
        attribute_lists(files, dir).len() == attribute_dirs(files, dir).len() + 1,
        forall|i: int|
            0 <= i < attribute_dirs(files, dir).len() ==> (#[trigger] attribute_dirs(
                files,
                dir,
            )[i]).len() <= dir.len(),
    decreases dir.len(),
{
    if dir.len() > 0 {
        lemma_attribute_dirs(files, dir.drop_last());
    }
}

/// A resolver that goes up from a directory keeps exactly what it knows about the one it comes to.
proof fn lemma_leave(files: AttributeFiles, dir: Seq<Seq<char>>, target: Seq<Seq<char>>)
    ensures
        ({
            let kept = dirs_kept(attribute_dirs(files, dir), dir, target);
            let common = common_ancestor(dir, target);
            &&& kept == attribute_dirs(files, common)
            &&& attribute_lists(files, dir).take(kept.len() as int + 1) == attribute_lists(
                files,
                common,
            )
        }),
    decreases dir.len(),
{
    let dirs = attribute_dirs(files, dir);
    let lists = attribute_lists(files, dir);
    lemma_attribute_dirs(files, dir);
    if dir.len() == 0 || dir.is_prefix_of(target) {
        assert(lists.take(lists.len() as int) =~= lists);
    } else {
        let above = dir.drop_last();
        lemma_attribute_dirs(files, above);
        lemma_leave(files, above, target);
        let kept = dirs_kept(attribute_dirs(files, above), above, target);
        lemma_dirs_kept_bound(attribute_dirs(files, above), above, target);
        if files(dir) is Some {
            assert(dirs.drop_last() =~= attribute_dirs(files, above));
        } else if dirs.len() > 0 {
            assert(dirs[dirs.len() - 1].len() <= above.len());
        }
        assert(lists.take(kept.len() as int + 1) =~= attribute_lists(files, above).take(
            kept.len() as int + 1,
        ));
    }
}

proof fn lemma_dirs_kept_bound(
    dirs: Seq<Seq<Seq<char>>>,
    dir: Seq<Seq<char>>,
    target: Seq<Seq<char>>,
)
    ensures
        dirs_kept(dirs, dir, target).len() <= dirs.len(),
    decreases dir.len(),
{
    if dir.len() > 0 && !dir.is_prefix_of(target) {
        lemma_dirs_kept_bound(dirs, dir.drop_last(), target);
        if dirs.len() > 0 {
            lemma_dirs_kept_bound(dirs.drop_last(), dir.drop_last(), target);
        }
    }
}

/// A new resolver knows nothing yet of any repository.
pub proof fn law_start(files: AttributeFiles)
    ensures
        reflects(nowhere(), files),
        forall|target: Seq<Seq<char>>| #[trigger] nowhere().can_change_dir(target),
{
}

/// Whatever happens to a resolver that is told the truth and follows its ways to their ends, it
/// knows what the repository says about the directories on the way that it has entered, and nothing
/// else.
pub proof fn law_resolver_reflects_files(
    v: ResolverView,
    target: Seq<Seq<char>>,
    event: ResolverEventView,
    files: AttributeFiles,
)
    requires
        reflects(v, files),
        v.accepts(target, event),
        is_true(event, v, files),
        follows_way(event, v),
    ensures
        reflects(v.change_dir(target, event).0, files),
{
    assert(target.take(target.len() as int) =~= target);
    match event {
        ResolverEventView::Start => {
            if let Some(current) = v.current {
                let common = common_ancestor(current, target);
                lemma_leave(files, current, target);
                lemma_common_ancestor(Seq::empty(), current, target);
                assert(common =~= target.take(common.len() as int));
            }
        },
        ResolverEventView::File(_) => {},
        _ => {
            let depth = v.way->0.depth as int;
            if depth > 0 {
                assert(target.take(depth).drop_last() =~= target.take(depth - 1));
            }
        },
    }
}

/// A resolver that was asked for a directory is on the way to it: it takes a reply to its request,
/// and has none left exactly at the end of the way. Only there the current directory changes.
pub proof fn law_way_leads_to_target(
    v: ResolverView,
    target: Seq<Seq<char>>,
    event: ResolverEventView,
)
    requires
        v.accepts(target, event),
    ensures
        ({
            let (next, request) = v.change_dir(target, event);
            &&& request is None <==> next.way is None
            &&& request is None ==> next.current == Some(target)
            &&& request is Some ==> next.current == v.current
            &&& request is Some ==> forall|reply: ResolverEventView|
                reply !is Start ==> #[trigger] next.accepts(target, reply)
        }),
{
}

/// A way that is given up leaves nothing behind but the attributes that were dropped and taken in:
/// the next way sets out as if there had been none.
pub proof fn law_given_up_way_is_forgotten(v: ResolverView, target: Seq<Seq<char>>)
    ensures
        v.can_change_dir(target) == (ResolverView { way: None, ..v }).can_change_dir(target),
        v.change_dir(target, ResolverEventView::Start) == (ResolverView {
            way: None,
            ..v
        }).change_dir(target, ResolverEventView::Start),
{
}

/// A resolver on the way to a directory arrives there once it is told about all directories on
/// the way.
proof fn lemma_walk_arrives(v: ResolverView, files: AttributeFiles)
    requires
        reflects(v, files),
    ensures
        v.way matches Some(way) ==> walk(v, files) == arrived(files, way.target),
    decreases dirs_ahead(v),
{
    if let Some(way) = v.way {
        let event = answer(v, files);
        let next = v.change_dir(way.target, event).0;
        law_resolver_reflects_files(v, way.target, event, files);
        lemma_walk_arrives(next, files);
    }
}

/// The way that a resolver came does not matter: once it has changed to a directory, it searches the
/// lists of patterns from the root to that directory, just as a new resolver would.
pub proof fn law_history_is_irrelevant(
    v: ResolverView,
    target: Seq<Seq<char>>,
    files: AttributeFiles,
)
    requires
        reflects(v, files),
        v.way is None,
        v.can_change_dir(target),
    ensures
        ({
            let arrival = walk(v.change_dir(target, ResolverEventView::Start).0, files);
            &&& arrival == arrived(files, target)
            &&& arrival == walk(nowhere().change_dir(target, ResolverEventView::Start).0, files)
        }),
{
    let start = ResolverEventView::Start;
    law_resolver_reflects_files(v, target, start, files);
    lemma_walk_arrives(v.change_dir(target, start).0, files);
    law_resolver_reflects_files(nowhere(), target, start, files);
    lemma_walk_arrives(nowhere().change_dir(target, start).0, files);
}

/// A resolver that is asked for the directory that it is in needs to know nothing and changes
/// nothing, but that it gives up a way that it is on.
pub proof fn law_same_dir_is_free(v: ResolverView, target: Seq<Seq<char>>)
    requires
        v.wf(),
        v.current == Some(target),
    ensures
        v.can_change_dir(target),
        v.change_dir(target, ResolverEventView::Start) == (
            (ResolverView { way: None, ..v }),
            None::<FileRequestView>,
        ),
{
    assert(target =~= target.subrange(0, target.len() as int));
    assert(v.lists.take(v.lists.len() as int) =~= v.lists);
}

/// The attributes of a file follow from its path and the files with attributes in the directories
/// above it alone: a resolver that was told the truth, and has no request left, gives just these.
pub proof fn law_attributes_follow_from_files(
    v: ResolverView,
    file: Seq<Seq<char>>,
    event: ResolverEventView,
    files: AttributeFiles,
)
    requires
        reflects(v, files),
        file.len() > 0,
        v.accepts(file.drop_last(), event),
        is_true(event, v, files),
        follows_way(event, v),
        v.change_dir(file.drop_last(), event).1 is None,
    ensures
        ({
            let assignments = assignments_of(v.change_dir(file.drop_last(), event).0.lists, file);
            &&& assignments == assignments_of(attribute_lists(files, file.drop_last()), file)
            &&& resolved_from_states(assignments) == attributes_of(files, file)
        }),
{
    law_resolver_reflects_files(v, file.drop_last(), event, files);
    law_way_leads_to_target(v, file.drop_last(), event);
}

/// The files that a resolver has resolved before do not matter, in whatever order they came and
/// whether or not `file` is one of them: where the root of the repository has a file with
/// attributes, the resolver can go on to every file, and gives it the attributes that a new
/// resolver gives it.
pub proof fn law_earlier_files_do_not_matter(
    paths: Seq<Seq<Seq<char>>>,
    file: Seq<Seq<char>>,
    files: AttributeFiles,
)
    requires
        files(Seq::empty()) is Some,
        file.len() > 0,
        forall|i: int| 0 <= i < paths.len() ==> (#[trigger] paths[i]).len() > 0,
    ensures
        ({
            let v = visit_all(paths, files);
            &&& v.can_change_dir(file.drop_last())
            &&& visit(v, file, files) == visit(nowhere(), file, files)
            &&& visit(v, file, files) == arrived(files, file.drop_last())
            &&& resolved_from_states(assignments_of(visit(v, file, files).lists, file))
                == attributes_of(files, file)
        }),
{
    let v = visit_all(paths, files);
    lemma_visit_all_reflects_files(paths, files);
    law_root_attributes_open_all_ways(v, file.drop_last(), files);
    law_history_is_irrelevant(v, file.drop_last(), files);
    law_history_is_irrelevant(nowhere(), file.drop_last(), files);
}

proof fn lemma_visit_all_reflects_files(paths: Seq<Seq<Seq<char>>>, files: AttributeFiles)
    requires
        files(Seq::empty()) is Some,
    ensures
        reflects(visit_all(paths, files), files),
        visit_all(paths, files).way is None,
    decreases paths.len(),
{
    if paths.len() > 0 {
        let v = visit_all(paths.drop_last(), files);
        let dir = paths.last().drop_last();
        lemma_visit_all_reflects_files(paths.drop_last(), files);
        law_root_attributes_open_all_ways(v, dir, files);
        law_history_is_irrelevant(v, dir, files);
    }
}

/// Files that are not in the directories from the root to that of `file` have no influence on its
/// attributes: in two repositories with the same files with attributes there, they are the same.
pub proof fn law_files_elsewhere_have_no_influence(
    files: AttributeFiles,
    others: AttributeFiles,
    file: Seq<Seq<char>>,
)
    requires
        file.len() > 0,
        forall|n: int|
            0 <= n < file.len() ==> files(#[trigger] file.take(n)) == others(file.take(n)),
    ensures
        attribute_lists(files, file.drop_last()) == attribute_lists(others, file.drop_last()),
        attributes_of(files, file) == attributes_of(others, file),
{
    assert(file.drop_last() =~= file.take(file.len() - 1));
    lemma_lists_follow_from_files(files, others, file, file.len() - 1);
}

proof fn lemma_lists_follow_from_files(
    files: AttributeFiles,
    others: AttributeFiles,
    file: Seq<Seq<char>>,
    n: int,
)
    requires
        0 <= n < file.len(),
        forall|n: int|
            0 <= n < file.len() ==> files(#[trigger] file.take(n)) == others(file.take(n)),
    ensures
        attribute_lists(files, file.take(n)) == attribute_lists(others, file.take(n)),
    decreases n,
{
    if n > 0 {
        assert(file.take(n).drop_last() =~= file.take(n - 1));
        lemma_lists_follow_from_files(files, others, file, n - 1);
    }
}

/// On the way to a directory, a resolver asks for nothing but the files with attributes of the
/// directories from the root to there.
pub proof fn law_only_attribute_files_are_requested(
    v: ResolverView,
    target: Seq<Seq<char>>,
    event: ResolverEventView,
)
    requires
        v.wf(),
        v.accepts(target, event),
    ensures
        v.change_dir(target, event).1 matches Some(request) ==> exists|n: int|
            0 <= n <= target.len() && requested_path(request) == gitattributes_path(
                #[trigger] target.take(n),
            ),
{
    let (next, request) = v.change_dir(target, event);
    if let Some(current) = v.current {
        lemma_common_ancestor(Seq::empty(), current, target);
    }
    if let Some(way) = next.way {
        assert(requested_path(request->0) == gitattributes_path(target.take(way.depth as int)));
    }
}

/// Where the root of the repository has a file with attributes, every way is open.
pub proof fn law_root_attributes_open_all_ways(
    v: ResolverView,
    target: Seq<Seq<char>>,
    files: AttributeFiles,
)
    requires
        reflects(v, files),
        v.way is None,
        files(Seq::empty()) is Some,
    ensures
        v.can_change_dir(target),
{
    if let Some(current) = v.current {
        lemma_root_is_first(files, current);
        lemma_can_leave_for_root(v.dirs, current, target);
    }
}

/// All directories can be left where the attributes of the root are known.
proof fn lemma_can_leave_for_root(
    dirs: Seq<Seq<Seq<char>>>,
    dir: Seq<Seq<char>>,
    target: Seq<Seq<char>>,
)
    requires
        dirs.len() > 0,
        dirs[0].len() == 0,
    ensures
        can_leave(dirs, dir, target),
    decreases dir.len(),
{
    if dir.len() > 0 && !dir.is_prefix_of(target) {
        if dirs.last() == dir {
            assert(dirs.drop_last()[0] == dirs[0]);
            lemma_can_leave_for_root(dirs.drop_last(), dir.drop_last(), target);
        } else {
            lemma_can_leave_for_root(dirs, dir.drop_last(), target);
        }
    }
}

proof fn lemma_root_is_first(files: AttributeFiles, dir: Seq<Seq<char>>)
    requires
        files(Seq::empty()) is Some,
    ensures
        attribute_dirs(files, dir).len() > 0,
        attribute_dirs(files, dir)[0].len() == 0,
    decreases dir.len(),
{
    if dir.len() == 0 {
        assert(dir =~= Seq::empty());
    } else {
        lemma_root_is_first(files, dir.drop_last());
    }
}

/// A way that only leads down is always open.
pub proof fn law_way_down_is_open(v: ResolverView, target: Seq<Seq<char>>)
    requires
        v.current matches Some(current) ==> current.is_prefix_of(target),
    ensures
        v.can_change_dir(target),
{
}

} // verus!
