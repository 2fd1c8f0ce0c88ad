//! Laws of each step of a resolver, whatever it knows and whatever ways were given up before.
use crate::git_attributes::{
    attribute_list, can_leave, dirs_kept, gitattributes_path, FileRequest, FileRequestView,
    ResolverEvent, ResolverEventView, ResolverView, TreeValue, WayView,
};
use crate::git_attributes_laws::requested_path;
use crate::repo_path::{common_ancestor, lemma_common_ancestor, RepoPath};
use crate::repo_path_laws::{law_string_holds_components, split_at_slashes};
use vstd::prelude::*;

verus! {

/// The name of the file with the attributes for a directory.
pub open spec fn gitattributes_name() -> Seq<char> {
    seq!['.', 'g', 'i', 't', 'a', 't', 't', 'r', 'i', 'b', 'u', 't', 'e', 's']
}

/// The components of `path` are free of slashes.
pub open spec fn has_no_slashes(path: Seq<Seq<char>>) -> bool {
    forall|i: int, j: int|
        0 <= i < path.len() && 0 <= j < path[i].len() ==> #[trigger] path[i][j] != '/'
}

/// The file with the attributes for a directory lies in it, and is named `.gitattributes`.
pub proof fn law_attributes_lie_in_directory(dir: Seq<Seq<char>>)
    ensures
        gitattributes_path(dir).len() == dir.len() + 1,
        gitattributes_path(dir).drop_last() == dir,
        gitattributes_path(dir).last() == gitattributes_name(),
{
    reveal_strlit(".gitattributes");
    assert(".gitattributes"@ =~= gitattributes_name());
    assert(gitattributes_path(dir).drop_last() =~= dir);
}

/// The list of patterns of a directory holds all that its file with attributes holds, says that it
/// comes from there, and defines no macros.
pub proof fn law_list_holds_file(dir: Seq<Seq<char>>, contents: Seq<u8>)
    requires
        has_no_slashes(dir),
    ensures
        attribute_list(dir, contents).0 == contents,
        split_at_slashes(attribute_list(dir, contents).1) == dir.push(gitattributes_name()),
        !attribute_list(dir, contents).2,
{
    law_attributes_lie_in_directory(dir);
    let path = gitattributes_path(dir);
    assert(path =~= dir.push(gitattributes_name()));
    assert forall|i: int, j: int| 0 <= i < path.len() && 0 <= j < path[i].len() implies
        #[trigger] path[i][j] != '/' by {
        if i < dir.len() {
            assert(path[i][j] == dir[i][j]);
        }
    }
    law_string_holds_components(path);
}

/// Every request is for the file named `.gitattributes` in the directory that is next on the way to
/// `target`: its value first and, where that is a file, the contents by the id of that file.
pub proof fn law_requests_are_for_next_directory(
    v: ResolverView,
    target: Seq<Seq<char>>,
    event: ResolverEventView,
)
    requires
        v.wf(),
        v.accepts(target, event),
    ensures
        ({
            let (next, request) = v.change_dir(target, event);
            &&& request is Some <==> next.way is Some
            &&& next.way matches Some(way) ==> {
                &&& way.target == target
                &&& way.depth <= target.len()
                &&& requested_path(request->0).last() == gitattributes_name()
                &&& requested_path(request->0).drop_last() == target.take(way.depth as int)
                &&& match event {
                    ResolverEventView::File(id) => request->0
                        == FileRequestView::ReadFile(requested_path(request->0), id),
                    _ => request->0 is PathValue,
                }
            }
        }),
{
    let (next, request) = v.change_dir(target, event);
    if let Some(current) = v.current {
        lemma_common_ancestor(Seq::empty(), current, target);
    }
    if let Some(way) = next.way {
        law_attributes_lie_in_directory(target.take(way.depth as int));
    }
}

/// An answer moves the resolver into the next directory on its way. The contents of a file become
/// the last list of patterns, whole; without a file no list is added. The resolver is in the
/// directory that it was asked for once it has entered that, and stays where it was until then. That
/// there is a file only leads to a request for its contents.
pub proof fn law_answer_enters_next_directory(
    v: ResolverView,
    target: Seq<Seq<char>>,
    event: ResolverEventView,
)
    requires
        v.wf(),
        v.accepts(target, event),
        event !is Start,
        has_no_slashes(target),
    ensures
        ({
            let next = v.change_dir(target, event).0;
            let depth = v.way->0.depth;
            match event {
                ResolverEventView::Contents(bytes) => {
                    &&& next.dirs == v.dirs.push(target.take(depth as int))
                    &&& next.lists.len() == v.lists.len() + 1
                    &&& next.lists.drop_last() == v.lists
                    &&& next.lists.last().0 == bytes
                    &&& split_at_slashes(next.lists.last().1) == target.take(depth as int).push(
                        gitattributes_name(),
                    )
                    &&& !next.lists.last().2
                },
                _ => next.dirs == v.dirs && next.lists == v.lists,
            }
        }),
        ({
            let next = v.change_dir(target, event).0;
            let depth = v.way->0.depth;
            if event is File {
                next == v
            } else if depth == target.len() {
                next.current == Some(target) && next.way is None
            } else {
                next.current == v.current && next.way == Some(
                    WayView { target, depth: depth + 1 },
                )
            }
        }),
{
    let next = v.change_dir(target, event).0;
    let dir = target.take(v.way->0.depth as int);
    assert forall|i: int, j: int| 0 <= i < dir.len() && 0 <= j < dir[i].len() implies
        #[trigger] dir[i][j] != '/' by {
        assert(target[i][j] == dir[i][j]);
    }
    if let ResolverEventView::Contents(bytes) = event {
        law_list_holds_file(dir, bytes);
        assert(next.lists.drop_last() =~= v.lists);
    }
}

/// `dir` is left on the way up from `start` to the closest directory that holds `target`.
pub open spec fn is_left(
    dir: Seq<Seq<char>>,
    start: Seq<Seq<char>>,
    target: Seq<Seq<char>>,
) -> bool {
    dir.is_prefix_of(start) && !dir.is_prefix_of(target)
}

/// From `n` on, `dirs` are left on the way up from `start` to the closest directory that holds
/// `target`, and each is deeper than the one before it.
pub open spec fn is_run_of_left(
    dirs: Seq<Seq<Seq<char>>>,
    n: int,
    start: Seq<Seq<char>>,
    target: Seq<Seq<char>>,
) -> bool {
    &&& forall|i: int| n <= i < dirs.len() ==> is_left(#[trigger] dirs[i], start, target)
    &&& forall|i: int, j: int|
        n <= i < j < dirs.len() ==> (#[trigger] dirs[i]).len() < (#[trigger] dirs[j]).len()
}

/// On the way up the resolver drops the longest run of directories at the end of those it knows
/// that are left, each deeper than the one before it. The others it keeps.
pub proof fn law_run_of_left_directories_is_dropped(
    dirs: Seq<Seq<Seq<char>>>,
    start: Seq<Seq<char>>,
    target: Seq<Seq<char>>,
)
    ensures
        ({
            let kept = dirs_kept(dirs, start, target);
            let n = kept.len() as int;
            &&& n <= dirs.len()
            &&& kept == dirs.take(n)
            &&& is_run_of_left(dirs, n, start, target)
            &&& n > 0 ==> !is_run_of_left(dirs, n - 1, start, target)
        }),
    decreases start.len(),
{
    let kept = dirs_kept(dirs, start, target);
    let n = kept.len() as int;
    if start.len() == 0 || start.is_prefix_of(target) {
        assert(dirs.take(dirs.len() as int) =~= dirs);
        if n > 0 && is_run_of_left(dirs, n - 1, start, target) {
            let dir = dirs[n - 1];
            assert(is_left(dir, start, target));
            assert(dir =~= target.subrange(0, dir.len() as int)) by {
                if start.len() == 0 {
                    assert(dir =~= start);
                }
            }
        }
    } else {
        let above = start.drop_last();
        let rest = if dirs.len() > 0 && dirs.last() == start {
            dirs.drop_last()
        } else {
            dirs
        };
        law_run_of_left_directories_is_dropped(rest, above, target);
        assert(kept =~= dirs.take(n));
        assert forall|i: int| n <= i < dirs.len() implies is_left(
            #[trigger] dirs[i],
            start,
            target,
        ) by {
            if i < rest.len() {
                assert(is_left(rest[i], above, target));
                assert(dirs[i] =~= start.subrange(0, dirs[i].len() as int));
            } else {
                assert(start =~= start.subrange(0, start.len() as int));
            }
        }
        assert forall|i: int, j: int| n <= i < j < dirs.len() implies (#[trigger] dirs[i]).len() < (
        #[trigger] dirs[j]).len() by {
            assert(is_left(rest[i], above, target));
            if j < rest.len() {
                assert(rest[i].len() < rest[j].len());
            }
        }
        if n > 0 && is_run_of_left(dirs, n - 1, start, target) {
            assert forall|i: int| n - 1 <= i < rest.len() implies is_left(
                #[trigger] rest[i],
                above,
                target,
            ) by {
                assert(is_left(dirs[i], start, target));
                assert(is_left(dirs[dirs.len() - 1], start, target));
                if i < dirs.len() - 1 {
                    assert(dirs[i].len() < dirs[dirs.len() - 1].len());
                } else if dirs[i].len() == start.len() {
                    assert(dirs[i] =~= start);
                }
                assert(rest[i] =~= above.subrange(0, rest[i].len() as int));
            }
            assert forall|i: int, j: int| n - 1 <= i < j < rest.len() implies (
            #[trigger] rest[i]).len() < (#[trigger] rest[j]).len() by {
                assert(dirs[i].len() < dirs[j].len());
            }
            assert(is_run_of_left(rest, n - 1, above, target));
        }
    }
}

/// The way up is open exactly where no directory has to be left, where a known directory is kept, or
/// where the first known directory is at most one deeper than the one that the way up leads to.
pub proof fn law_way_up_is_open(
    dirs: Seq<Seq<Seq<char>>>,
    start: Seq<Seq<char>>,
    target: Seq<Seq<char>>,
)
    ensures
        can_leave(dirs, start, target) <==> {
            ||| start.is_prefix_of(target)
            ||| dirs.len() > 0 && dirs_kept(dirs, start, target).len() > 0
            ||| dirs.len() > 0 && dirs[0].len() <= common_ancestor(start, target).len() + 1
        },
    decreases start.len(),
{
    if start.len() == 0 {
        assert(start =~= target.subrange(0, 0));
    } else if !start.is_prefix_of(target) {
        let above = start.drop_last();
        let rest = if dirs.len() > 0 && dirs.last() == start {
            dirs.drop_last()
        } else {
            dirs
        };
        law_way_up_is_open(rest, above, target);
        law_run_of_left_directories_is_dropped(rest, above, target);
        lemma_common_ancestor(Seq::empty(), above, target);
        lemma_common_ancestor(Seq::empty(), start, target);
        if above.is_prefix_of(target) {
            lemma_common_ancestor(above, above, target);
            assert(above =~= above.subrange(0, above.len() as int));
            assert(common_ancestor(above, target) == above);
        }
        if dirs.len() > 0 {
            if rest.len() > 0 {
                assert(rest[0] == dirs[0]);
            } else {
                assert(dirs[0] == start);
            }
        }
    }
}

/// Where a resolver sets out: from outside the root at first, and later from the directory that it
/// is in, up to the closest one that holds `target`. It asks for nothing where that is `target`. All
/// lists of patterns but those of the directories that it drops stay.
pub proof fn law_resolver_sets_out(v: ResolverView, target: Seq<Seq<char>>)
    ensures
        v.accepts(target, ResolverEventView::Start) <==> v.can_change_dir(target),
        v.can_change_dir(target) <==> (v.current matches Some(current) ==> can_leave(
            v.dirs,
            current,
            target,
        )),
        ({
            let (next, request) = v.change_dir(target, ResolverEventView::Start);
            match v.current {
                None => {
                    &&& next.current is None
                    &&& next.way == Some(WayView { target, depth: 0 })
                    &&& next.dirs == v.dirs
                    &&& next.lists == v.lists
                },
                Some(current) => {
                    let common = common_ancestor(current, target);
                    &&& next.dirs == dirs_kept(v.dirs, current, target)
                    &&& next.lists == v.lists.take(next.dirs.len() as int + 1)
                    &&& if common == target {
                        next.current == Some(target) && next.way is None && request is None
                    } else {
                        next.current == v.current && next.way == Some(
                            WayView { target, depth: common.len() + 1 },
                        )
                    }
                },
            }
        }),
{
    if let Some(current) = v.current {
        let common = common_ancestor(current, target);
        lemma_common_ancestor(Seq::empty(), current, target);
        if common.len() == target.len() {
            assert(common =~= target);
        }
    }
}

/// Events and requests are taken for what they are. A file is a file whether or not it is
/// executable and wherever it comes from; anything else is none.
pub proof fn law_events_and_requests(
    id: Vec<u8>,
    executable: bool,
    copy_id: Vec<u8>,
    bytes: Vec<u8>,
    path: RepoPath,
)
    ensures
        ResolverEvent::Start@ is Start,
        ResolverEvent::Value(None)@ is NoFile,
        ResolverEvent::Value(Some(TreeValue::Other))@ is NoFile,
        ResolverEvent::Value(Some(TreeValue::File { id, executable, copy_id }))@
            == ResolverEventView::File(id@),
        ResolverEvent::Contents(bytes)@ == ResolverEventView::Contents(bytes@),
        FileRequest::PathValue(path)@ == FileRequestView::PathValue(path@),
        (FileRequest::ReadFile { path, id })@ == FileRequestView::ReadFile(path@, id@),
{
}

} // verus!
