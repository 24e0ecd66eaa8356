//! Paths in a repository, and matchers that pick some of them.

use vstd::prelude::*;

verus! {

/// A path in a repository: the names from the root down.
#[derive(Debug)]
pub struct RepoPath {
    pub components: Vec<String>,
}

impl View for RepoPath {
    type V = Seq<Seq<char>>;

    open spec fn view(&self) -> Seq<Seq<char>> {
        self.components@.map_values(|name: String| name@)
    }
}

impl Clone for RepoPath {
    fn clone(&self) -> (path: Self)
        ensures
            path@ == self@,
    {
        let mut components: Vec<String> = Vec::with_capacity(self.components.len());
        for i in 0..self.components.len()
            invariant
                components@.len() == i,
                forall|j: int| 0 <= j < i ==> (#[trigger] components@[j])@ == self.components@[j]@,
        {
            components.push(self.components[i].clone());
        }
        let path = RepoPath { components };
        assert(path@ =~= self@);
        path
    }
}

impl RepoPath {
    /// The path with the given names.
    pub fn from_components(components: Vec<String>) -> (path: Self)
        ensures
            path@ == components@.map_values(|name: String| name@),
    {
        RepoPath { components }
    }

    /// Whether the path is `prefix`, or is below it.
    pub fn starts_with(&self, prefix: &RepoPath) -> (below: bool)
        ensures
            below == prefix@.is_prefix_of(self@),
    {
        if self.components.len() < prefix.components.len() {
            return false;
        }
        for i in 0..prefix.components.len()
            invariant
                prefix@.len() <= self@.len(),
                prefix@.len() == prefix.components@.len(),
                forall|j: int| 0 <= j < i ==> prefix@[j] == self@[j],
        {
            if self.components[i] != prefix.components[i] {
                assert(prefix@[i as int] != self@.subrange(0, prefix@.len() as int)[i as int]);
                return false;
            }
            assert(prefix@[i as int] == self@[i as int]);
        }
        assert(prefix@ =~= self@.subrange(0, prefix@.len() as int));
        true
    }

    /// Whether the paths are the same.
    pub fn same_as(&self, other: &RepoPath) -> (same: bool)
        ensures
            same == (self@ == other@),
    {
        if self.components.len() != other.components.len() {
            return false;
        }
        let same = self.starts_with(other);
        assert(self@.subrange(0, other@.len() as int) =~= self@);
        same
    }
}

/// Picks every path.
#[derive(Debug)]
pub struct EverythingMatcher;

/// Picks the given paths and what is below them.
#[derive(Debug)]
pub struct PrefixMatcher {
    prefixes: Vec<RepoPath>,
}

/// Whether one of the paths is `path`, or has it below.
pub open spec fn is_below_any(prefixes: Seq<RepoPath>, path: Seq<Seq<char>>) -> bool {
    exists|i: int| 0 <= i < prefixes.len() && (#[trigger] prefixes[i])@.is_prefix_of(path)
}

impl PrefixMatcher {
    /// Whether the path is picked.
    pub closed spec fn accepts(&self, path: Seq<Seq<char>>) -> bool {
        is_below_any(self.prefixes@, path)
    }

    /// A matcher for the given paths and what is below them.
    pub fn new(prefixes: &Vec<RepoPath>) -> (matcher: Self)
        ensures
            forall|path: Seq<Seq<char>>| #[trigger]
                matcher.accepts(path) == is_below_any(prefixes@, path),
    {
        let mut copies: Vec<RepoPath> = Vec::with_capacity(prefixes.len());
        for i in 0..prefixes.len()
            invariant
                copies@.len() == i,
                forall|j: int| 0 <= j < i ==> (#[trigger] copies@[j])@ == prefixes@[j]@,
        {
            copies.push(prefixes[i].clone());
        }
        let matcher = PrefixMatcher { prefixes: copies };
        assert forall|path: Seq<Seq<char>>| #[trigger]
            matcher.accepts(path) == is_below_any(prefixes@, path) by {
            if matcher.accepts(path) {
                let i = choose|i: int|
                    0 <= i < copies@.len() && (#[trigger] copies@[i])@.is_prefix_of(path);
                assert(prefixes@[i]@.is_prefix_of(path));
            }
            if is_below_any(prefixes@, path) {
                let i = choose|i: int|
                    0 <= i < prefixes@.len() && (#[trigger] prefixes@[i])@.is_prefix_of(path);
                assert(copies@[i]@.is_prefix_of(path));
            }
        }
        matcher
    }

    /// Whether the path is picked.
    pub fn matches(&self, path: &RepoPath) -> (picked: bool)
        ensures
            picked == self.accepts(path@),
    {
        for i in 0..self.prefixes.len()
            invariant
                forall|j: int|
                    0 <= j < i ==> !(#[trigger] self.prefixes@[j])@.is_prefix_of(path@),
        {
            if path.starts_with(&self.prefixes[i]) {
                return true;
            }
        }
        false
    }
}

/// Picks some of the paths.
#[derive(Debug)]
pub enum Matcher {
    Everything(EverythingMatcher),
    Prefix(PrefixMatcher),
}

impl Matcher {
    /// Whether the path is picked.
    pub open spec fn accepts(&self, path: Seq<Seq<char>>) -> bool {
        match self {
            Matcher::Everything(_) => true,
            Matcher::Prefix(matcher) => matcher.accepts(path),
        }
    }

    /// Whether the path is picked.
    pub fn matches(&self, path: &RepoPath) -> (picked: bool)
        ensures
            picked == self.accepts(path@),
    {
        match self {
            Matcher::Everything(_) => true,
            Matcher::Prefix(matcher) => matcher.matches(path),
        }
    }
}

} // verus!
