//! Paths within a repository.
use vstd::prelude::*;
use vstd::string::*;

verus! {

/// `c` can be the name of a file or a directory in a path.
pub open spec fn is_component(c: Seq<char>) -> bool {
    &&& c.len() > 0
    &&& !c.contains('/')
}

/// The components of `path` with a slash between each and the next.
pub open spec fn internal_string(path: Seq<Seq<char>>) -> Seq<char>
    decreases path.len(),
{
    if path.len() == 0 {
        Seq::empty()
    } else if path.len() == 1 {
        path[0]
    } else {
        internal_string(path.drop_last()) + seq!['/'] + path.last()
    }
}

/// The longest path that `path` and `target` both start with.
pub open spec fn common_ancestor(path: Seq<Seq<char>>, target: Seq<Seq<char>>) -> Seq<Seq<char>>
    decreases path.len(),
{
    if path.len() == 0 || path.is_prefix_of(target) {
        path
    } else {
        common_ancestor(path.drop_last(), target)
    }
}

/// What two paths both start with, their longest common ancestor starts with; and both start with
/// that.
pub proof fn lemma_common_ancestor(a: Seq<Seq<char>>, path: Seq<Seq<char>>, target: Seq<Seq<char>>)
    ensures
        common_ancestor(path, target).is_prefix_of(path),
        common_ancestor(path, target).is_prefix_of(target),
        a.is_prefix_of(path) && a.is_prefix_of(target) ==> a.is_prefix_of(
            common_ancestor(path, target),
        ),
    decreases path.len(),
{
    if path.len() == 0 {
        assert(path =~= target.subrange(0, 0));
        assert(path =~= path.subrange(0, 0));
    } else if path.is_prefix_of(target) {
        assert(path =~= path.subrange(0, path.len() as int));
    } else {
        lemma_common_ancestor(a, path.drop_last(), target);
        let common = common_ancestor(path, target);
        assert(common =~= path.subrange(0, common.len() as int));
        if a.is_prefix_of(path) && a.is_prefix_of(target) {
            if a.len() == path.len() {
                assert(a =~= path);
            }
            assert(a =~= path.drop_last().subrange(0, a.len() as int));
        }
    }
}

/// A path relative to the root of the repository, as the names that lead from the root to it.
///
/// The root has no names.
#[derive(Debug)]
pub struct RepoPath {
    components: Vec<String>,
}

impl View for RepoPath {
    type V = Seq<Seq<char>>;

    closed spec fn view(&self) -> Seq<Seq<char>> {
        self.components@.map_values(|c: String| c@)
    }
}

/// Tells whether `name` can be a component of a path.
pub fn is_valid_component(name: &str) -> (r: bool)
    ensures
        r == is_component(name@),
{
    for c in it: name.chars()
        invariant
            it.seq() == name@,
            forall|j: int| 0 <= j < it.index() ==> name@[j] != '/',
    {
        if c == '/' {
            assert(name@[it.index()] == '/');
            return false;
        }
    }
    !name.is_empty()
}

impl RepoPath {
    /// Every component is a name.
    #[verifier::type_invariant]
    spec fn has_valid_components(self) -> bool {
        forall|i: int| 0 <= i < self.components@.len() ==> is_component(
            #[trigger] self.components@[i]@,
        )
    }

    /// The root of the repository.
    pub fn root() -> (r: RepoPath)
        ensures
            r@ == Seq::<Seq<char>>::empty(),
    {
        let r = RepoPath { components: Vec::new() };
        assert(r@ =~= Seq::empty());
        r
    }

    /// The path that `components` lead to from the root, or `None` if one of them is not a name.
    pub fn from_components(components: Vec<String>) -> (r: Option<RepoPath>)
        ensures
            r is Some <==> forall|i: int|
                0 <= i < components@.len() ==> is_component(#[trigger] components@[i]@),
            r matches Some(path) ==> path@ == components@.map_values(|c: String| c@),
    {
        for i in 0..components.len()
            invariant
                forall|j: int| 0 <= j < i ==> is_component(#[trigger] components@[j]@),
        {
            if !is_valid_component(components[i].as_str()) {
                return None;
            }
        }
        Some(RepoPath { components })
    }

    /// The number of components.
    pub fn depth(&self) -> (n: usize)
        ensures
            n == self@.len(),
    {
        self.components.len()
    }

    /// The path of the first `depth` components.
    pub fn ancestor(&self, depth: usize) -> (r: RepoPath)
        requires
            depth <= self@.len(),
        ensures
            r@ == self@.take(depth as int),
    {
        proof {
            use_type_invariant(self);
        }
        let mut components: Vec<String> = Vec::new();
        for i in 0..depth
            invariant
                self.has_valid_components(),
                depth <= self@.len(),
                components@.len() == i,
                forall|j: int|
                    0 <= j < i ==> #[trigger] components@[j]@ == self.components@[j]@,
        {
            components.push(self.components[i].clone());
        }
        let r = RepoPath { components };
        assert(r@ =~= self@.take(depth as int));
        r
    }

    /// A copy of the path.
    pub fn to_owned(&self) -> (r: RepoPath)
        ensures
            r@ == self@,
    {
        let r = self.ancestor(self.depth());
        assert(r@ =~= self@);
        r
    }

    /// The directory that holds the path, or `None` for the root.
    pub fn parent(&self) -> (r: Option<RepoPath>)
        ensures
            r is Some <==> self@.len() > 0,
            r matches Some(dir) ==> dir@ == self@.drop_last(),
    {
        if self.depth() == 0 {
            None
        } else {
            let r = self.ancestor(self.depth() - 1);
            assert(r@ =~= self@.drop_last());
            Some(r)
        }
    }

    /// The path of `name` in the directory that this path is.
    pub fn join(&self, name: &str) -> (r: RepoPath)
        requires
            is_component(name@),
        ensures
            r@ == self@.push(name@),
    {
        proof {
            use_type_invariant(self);
        }
        let mut components: Vec<String> = Vec::new();
        for i in 0..self.components.len()
            invariant
                self.has_valid_components(),
                components@.len() == i,
                forall|j: int|
                    0 <= j < i ==> #[trigger] components@[j]@ == self.components@[j]@,
        {
            components.push(self.components[i].clone());
        }
        components.push(name.to_owned());
        let r = RepoPath { components };
        assert(r@ =~= self@.push(name@));
        r
    }

    /// Tells whether the path is `base` or lies under it.
    pub fn starts_with(&self, base: &RepoPath) -> (r: bool)
        ensures
            r == base@.is_prefix_of(self@),
    {
        if base.components.len() > self.components.len() {
            return false;
        }
        for i in 0..base.components.len()
            invariant
                base@.len() <= self@.len(),
                forall|j: int| 0 <= j < i ==> base@[j] == self@[j],
        {
            if self.components[i] != base.components[i] {
                assert(base@[i as int] != self@[i as int]);
                assert(self@.take(base@.len() as int)[i as int] != base@[i as int]);
                return false;
            }
        }
        assert(base@ =~= self@.subrange(0, base@.len() as int));
        true
    }

    /// Tells whether the path is `other`.
    pub fn is_same(&self, other: &RepoPath) -> (r: bool)
        ensures
            r == (self@ == other@),
    {
        let r = self.depth() == other.depth() && self.starts_with(other);
        assert(r ==> self@ =~= other@);
        assert(self@ =~= self@.subrange(0, self@.len() as int));
        r
    }

    /// The path in the form in which it is stored, with slashes.
    pub fn as_internal_file_string(&self) -> (r: String)
        ensures
            r@ == internal_string(self@),
            r@.len() > 0 ==> r@[0] != '/',
    {
        let mut r: String = String::new();
        proof {
            use_type_invariant(self);
            reveal_strlit("/");
            assert("/"@ =~= seq!['/']);
            assert(self@.take(0) =~= Seq::empty());
        }
        for i in 0..self.components.len()
            invariant
                self.has_valid_components(),
                "/"@ == seq!['/'],
                r@ == internal_string(self@.take(i as int)),
                r@.len() > 0 ==> r@[0] != '/',
                i > 0 ==> r@.len() > 0,
        {
            assert(is_component(self.components@[i as int]@));
            assert(self@[i as int].contains(self@[i as int][0]));
            assert(self@.take(i + 1).drop_last() =~= self@.take(i as int));
            if i > 0 {
                r.append("/");
            }
            r.append(self.components[i].as_str());
            assert(r@ =~= internal_string(self@.take(i + 1)));
        }
        assert(self@.take(self@.len() as int) =~= self@);
        r
    }
}

} // verus!
