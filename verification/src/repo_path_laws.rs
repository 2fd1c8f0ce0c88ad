//! Laws of paths within a repository.
use crate::repo_path::{common_ancestor, internal_string, is_component, lemma_common_ancestor};
use vstd::prelude::*;

verus! {

/// The parts of `s` before, between and after its slashes.
pub open spec fn split_at_slashes(s: Seq<char>) -> Seq<Seq<char>>
    decreases s.len(),
{
    if s.len() == 0 {
        seq![Seq::empty()]
    } else {
        let before = split_at_slashes(s.drop_last());
        if s.last() == '/' {
            before.push(Seq::empty())
        } else {
            before.drop_last().push(before.last().push(s.last()))
        }
    }
}

/// A component is a word without slashes that is not empty, and every such word is one.
pub proof fn law_components(c: Seq<char>)
    ensures
        is_component(c) <==> c.len() > 0 && forall|i: int| 0 <= i < c.len() ==> c[i] != '/',
{
    if is_component(c) {
        assert forall|i: int| 0 <= i < c.len() implies c[i] != '/' by {
            assert(c.contains(c[i]));
        }
    }
}

/// There is always a part.
proof fn lemma_parts(s: Seq<char>)
    ensures
        split_at_slashes(s).len() > 0,
    decreases s.len(),
{
    if s.len() > 0 {
        lemma_parts(s.drop_last());
    }
}

/// Text without slashes goes to the last part.
proof fn lemma_split_after_text(s: Seq<char>, text: Seq<char>)
    requires
        forall|i: int| 0 <= i < text.len() ==> text[i] != '/',
    ensures
        split_at_slashes(s + text) == split_at_slashes(s).drop_last().push(
            split_at_slashes(s).last() + text,
        ),
    decreases text.len(),
{
    let parts = split_at_slashes(s);
    lemma_parts(s);
    if text.len() == 0 {
        assert(s + text =~= s);
        assert(parts.last() + text =~= parts.last());
        assert(parts =~= parts.drop_last().push(parts.last()));
    } else {
        let init = text.drop_last();
        lemma_split_after_text(s, init);
        assert((s + text).drop_last() =~= s + init);
        let before = split_at_slashes(s + init);
        assert(before.drop_last() =~= parts.drop_last());
        assert((parts.last() + init).push(text.last()) =~= parts.last() + text);
    }
}

/// The components of a path come back from its string: it holds them in order, with a single slash
/// between each and the next. The root has no string.
pub proof fn law_string_holds_components(path: Seq<Seq<char>>)
    requires
        forall|i: int, j: int|
            0 <= i < path.len() && 0 <= j < path[i].len() ==> #[trigger] path[i][j] != '/',
    ensures
        path.len() > 0 ==> split_at_slashes(internal_string(path)) == path,
        path.len() == 0 ==> internal_string(path).len() == 0,
    decreases path.len(),
{
    if path.len() > 0 {
        let last = path.last();
        let empty = Seq::<char>::empty();
        assert forall|j: int| 0 <= j < last.len() implies last[j] != '/' by {
            assert(path[path.len() - 1][j] != '/');
        }
        if path.len() == 1 {
            lemma_split_after_text(empty, last);
            assert(empty + last =~= last);
            assert(seq![empty].drop_last().push(last) =~= path);
        } else {
            let init = path.drop_last();
            assert forall|i: int, j: int|
                0 <= i < init.len() && 0 <= j < init[i].len() implies #[trigger] init[i][j]
                != '/' by {
                assert(path[i][j] == init[i][j]);
            }
            law_string_holds_components(init);
            let dir = internal_string(init);
            let start = dir + seq!['/'];
            assert(start.drop_last() =~= dir);
            assert(split_at_slashes(start) == init.push(empty));
            lemma_split_after_text(start, last);
            assert(init.push(empty).drop_last() =~= init);
            assert(empty + last =~= last);
            assert(init.push(last) =~= path);
        }
    }
}

/// There is one string with given components.
pub proof fn law_string_follows_from_components(s: Seq<char>)
    ensures
        internal_string(split_at_slashes(s)) == s,
    decreases s.len(),
{
    let parts = split_at_slashes(s);
    if s.len() > 0 {
        let init = s.drop_last();
        let before = split_at_slashes(init);
        lemma_parts(init);
        law_string_follows_from_components(init);
        if s.last() == '/' {
            assert(parts.drop_last() =~= before);
            assert(init + seq!['/'] + Seq::<char>::empty() =~= s);
        } else {
            assert(parts.drop_last() =~= before.drop_last());
            assert(internal_string(parts) =~= internal_string(before).push(s.last()));
            assert(init.push(s.last()) =~= s);
        }
    }
}

/// The common ancestor is the longest path that both paths start with.
pub proof fn law_common_ancestor_is_longest(path: Seq<Seq<char>>, target: Seq<Seq<char>>, n: int)
    requires
        0 <= n <= path.len(),
        n <= target.len(),
    ensures
        ({
            let common = common_ancestor(path, target);
            &&& common.len() <= path.len() && common == path.take(common.len() as int)
            &&& common.len() <= target.len() && common == target.take(common.len() as int)
            &&& path.take(n) == target.take(n) <==> n <= common.len()
        }),
{
    let common = common_ancestor(path, target);
    lemma_common_ancestor(path.take(n), path, target);
    assert(common =~= path.take(common.len() as int));
    assert(common =~= target.take(common.len() as int));
    assert(path.take(n) =~= path.subrange(0, n));
    if path.take(n) == target.take(n) {
        assert(path.take(n) =~= target.subrange(0, n));
    }
    if n <= common.len() {
        assert(path.take(n) =~= common.take(n));
        assert(target.take(n) =~= common.take(n));
    }
}

} // verus!
