//! Revset expressions.

use crate::matchers::RepoPath;
use crate::object_id::CommitId;
use core::ops::Range;
use std::rc::Rc;
use vstd::prelude::*;

verus! {

/// What can go wrong in the evaluation of a revset.
#[derive(Debug, PartialEq, Eq)]
pub enum RevsetError {
    /// There is no such revision.
    NoSuchRevision(String),
    /// The prefix stands for more than one commit or change.
    AmbiguousIdPrefix(String),
    /// The store could not be read.
    StoreError(String),
}

/// A condition on a single commit.
#[derive(Debug)]
pub enum RevsetFilterPredicate {
    /// Commits with a number of parents in the range.
    ParentCount(Range<u32>),
    /// Commits with description containing the needle.
    Description(String),
    /// Commits with author's name or email containing the needle.
    Author(String),
    /// Commits with committer's name or email containing the needle.
    Committer(String),
    /// Commits modifying the paths specified by the pattern.
    File(Option<Vec<RepoPath>>),
}

/// A description of a set of commits.
#[derive(Debug)]
pub enum RevsetExpression {
    /// No commits.
    Empty,
    /// The visible commits.
    All,
    /// The given commits.
    Commits(Vec<CommitId>),
    /// What the symbol stands for.
    Symbol(String),
    /// The visible children.
    Children(Rc<RevsetExpression>),
    /// The ancestors of the heads at a distance in the range.
    Ancestors { heads: Rc<RevsetExpression>, generation: Range<u64> },
    /// Commits that are ancestors of "heads" but not ancestors of "roots"
    Range { roots: Rc<RevsetExpression>, heads: Rc<RevsetExpression>, generation: Range<u64> },
    /// Commits that are descendants of "roots" and ancestors of "heads"
    DagRange { roots: Rc<RevsetExpression>, heads: Rc<RevsetExpression> },
    /// Commits of the set that are not ancestors of others.
    Heads(Rc<RevsetExpression>),
    /// Commits of the set that are not descendants of others.
    Roots(Rc<RevsetExpression>),
    /// The commits that are visible without being ancestors of visible ones.
    VisibleHeads,
    /// The targets of the branches with a name containing the needle.
    Branches(String),
    /// The targets of the remote branches with names containing the needles.
    RemoteBranches { branch_needle: String, remote_needle: String },
    /// The targets of the tags.
    Tags,
    /// The targets of the Git refs.
    GitRefs,
    /// The target of the Git head.
    GitHead,
    /// The latest commits of the set, by the time of the committer.
    Latest { candidates: Rc<RevsetExpression>, count: usize },
    /// The visible commits that meet the condition.
    Filter(RevsetFilterPredicate),
    /// Marker for subtree that should be intersected as filter.
    AsFilter(Rc<RevsetExpression>),
    /// The set, or no commits where the set does not exist.
    Present(Rc<RevsetExpression>),
    /// The visible commits that are not in the set.
    NotIn(Rc<RevsetExpression>),
    /// The commits of either set.
    Union(Rc<RevsetExpression>, Rc<RevsetExpression>),
    /// The commits of both sets.
    Intersection(Rc<RevsetExpression>, Rc<RevsetExpression>),
    /// The commits of the first set that are not in the second.
    Difference(Rc<RevsetExpression>, Rc<RevsetExpression>),
}

/// The first distance of the range of all distances.
pub const GENERATION_RANGE_FULL_START: u64 = 0;

/// The end of the range of all distances.
pub const GENERATION_RANGE_FULL_END: u64 = u64::MAX;

/// The range of all distances.
pub open spec fn is_full_range(generation: Range<u64>) -> bool {
    generation.start == GENERATION_RANGE_FULL_START && generation.end == GENERATION_RANGE_FULL_END
}

impl RevsetExpression {
    /// No commits.
    pub fn none() -> (expression: Rc<RevsetExpression>)
        ensures
            *expression is Empty,
    {
        Rc::new(RevsetExpression::Empty)
    }

    /// The commits that are visible without being ancestors of visible ones.
    pub fn visible_heads() -> (expression: Rc<RevsetExpression>)
        ensures
            *expression is VisibleHeads,
    {
        Rc::new(RevsetExpression::VisibleHeads)
    }

    /// Ancestors of `self`, including `self`.
    pub fn ancestors(self: &Rc<RevsetExpression>) -> (expression: Rc<RevsetExpression>)
        ensures
            *expression matches RevsetExpression::Ancestors { heads, generation } && heads == self
                && is_full_range(generation),
    {
        let generation = GENERATION_RANGE_FULL_START..GENERATION_RANGE_FULL_END;
        Rc::new(RevsetExpression::Ancestors { heads: self.clone(), generation })
    }

    /// Connects any ancestors and descendants in the set by adding the commits
    /// between them.
    pub fn connected(self: &Rc<RevsetExpression>) -> (expression: Rc<RevsetExpression>)
        ensures
            *expression matches RevsetExpression::DagRange { roots, heads } && roots == self && heads
                == self,
    {
        Rc::new(RevsetExpression::DagRange { roots: self.clone(), heads: self.clone() })
    }

    /// Descendants of `self`, including `self`.
    pub fn descendants(self: &Rc<RevsetExpression>) -> (expression: Rc<RevsetExpression>)
        ensures
            *expression matches RevsetExpression::DagRange { roots, heads } && roots == self
                && *heads is VisibleHeads,
    {
        Rc::new(
            RevsetExpression::DagRange {
                roots: self.clone(),
                heads: RevsetExpression::visible_heads(),
            },
        )
    }
}

} // verus!
