//! Conditions on single commits.

use crate::expression::RevsetFilterPredicate;
use crate::graph::IndexedCommit;
use crate::index::IndexEntry;
use crate::matchers;
use crate::matchers::{EverythingMatcher, Matcher, PrefixMatcher};
use crate::predicate::{PredicateMatch, PurePredicate};
use crate::store::{Signature, Store};
use core::ops::Range;
use vstd::prelude::*;

verus! {

/// Whether the needle occurs in the text.
pub open spec fn contains_text(text: Seq<char>, needle: Seq<char>) -> bool {
    exists|start: int|
        0 <= start <= text.len() - needle.len() && #[trigger] text.subrange(
            start,
            start + needle.len(),
        ) == needle
}

/// Calls `str::contains` with a string as the pattern, which says whether the pattern matches a
/// sub-slice of the text.
#[verifier::external_body]
fn str_contains(text: &str, needle: &str) -> (found: bool)
    ensures
        found == contains_text(text@, needle@),
{
    text.contains(needle)
}

/// Whether the needle occurs in the name or in the email address.
pub open spec fn signature_contains(signature: Signature, needle: Seq<char>) -> bool {
    contains_text(signature.name@, needle) || contains_text(signature.email@, needle)
}

/// Whether the needle occurs in the name or in the email address.
fn matches_signature(signature: &Signature, needle: &String) -> (found: bool)
    ensures
        found == signature_contains(*signature, needle@),
{
    str_contains(signature.name.as_str(), needle.as_str()) || str_contains(
        signature.email.as_str(),
        needle.as_str(),
    )
}

/// Whether the path is one of the given, or below one; without any given, every path is.
pub open spec fn is_path_of(
    paths: Option<Vec<matchers::RepoPath>>,
    path: Seq<Seq<char>>,
) -> bool {
    match paths {
        Some(paths) => matchers::is_below_any(paths@, path),
        None => true,
    }
}

/// Whether the commit meets the condition.
pub open spec fn filter_holds(
    store: &Store,
    condition: RevsetFilterPredicate,
    indexed: IndexedCommit,
) -> bool {
    let commit = store.commit(indexed.commit_id);
    match condition {
        RevsetFilterPredicate::ParentCount(range) => range.start <= indexed.parents.len()
            < range.end,
        RevsetFilterPredicate::Description(needle) => contains_text(
            commit.description@,
            needle@,
        ),
        RevsetFilterPredicate::Author(needle) => signature_contains(commit.author, needle@),
        RevsetFilterPredicate::Committer(needle) => signature_contains(commit.committer, needle@),
        RevsetFilterPredicate::File(paths) => exists|path: Seq<Seq<char>>|
            is_path_of(paths, path) && #[trigger] commit.parent_tree.value_at(path)
                != commit.tree.value_at(path),
    }
}

/// Whether what is stored of a commit has to be read to decide the condition.
pub open spec fn reads_store(condition: RevsetFilterPredicate) -> bool {
    !(condition is ParentCount)
}

/// A condition on a single entry, ready to be tested.
pub enum PurePredicateFn<'index> {
    ParentCount { range: Range<u32> },
    Description { store: &'index Store, needle: String },
    Author { store: &'index Store, needle: String },
    Committer { store: &'index Store, needle: String },
    File { store: &'index Store, matcher: Matcher },
}

impl<'index> PurePredicate<'index> for PurePredicateFn<'index> {
    open spec fn is_defined_at(&self, entry: IndexEntry<'index>) -> bool {
        match self {
            PurePredicateFn::ParentCount { .. } => true,
            PurePredicateFn::Description { store, .. } => store.has_commit(
                entry.commit().commit_id,
            ),
            PurePredicateFn::Author { store, .. } => store.has_commit(entry.commit().commit_id),
            PurePredicateFn::Committer { store, .. } => store.has_commit(entry.commit().commit_id),
            PurePredicateFn::File { store, .. } => store.has_commit(entry.commit().commit_id),
        }
    }

    open spec fn accepts(&self, entry: IndexEntry<'index>) -> bool {
        let id = entry.commit().commit_id;
        match self {
            PurePredicateFn::ParentCount { range } => range.start <= entry.commit().parents.len()
                < range.end,
            PurePredicateFn::Description { store, needle } => contains_text(
                store.commit(id).description@,
                needle@,
            ),
            PurePredicateFn::Author { store, needle } => signature_contains(
                store.commit(id).author,
                needle@,
            ),
            PurePredicateFn::Committer { store, needle } => signature_contains(
                store.commit(id).committer,
                needle@,
            ),
            PurePredicateFn::File { store, matcher } => store.commit(id).parent_tree.differs_from(
                &store.commit(id).tree,
                matcher,
            ),
        }
    }

    fn test(&self, entry: &IndexEntry<'index>) -> (result: PredicateMatch) {
        match self {
            PurePredicateFn::ParentCount { range } => {
                let num_parents = entry.num_parents();
                PredicateMatch::from_boolean(range.start <= num_parents && num_parents < range.end)
            },
            PurePredicateFn::Description { store, needle } => {
                let commit = store.get_commit(&entry.commit_id()).unwrap();
                PredicateMatch::from_boolean(
                    str_contains(commit.description.as_str(), needle.as_str()),
                )
            },
            PurePredicateFn::Author { store, needle } => {
                let commit = store.get_commit(&entry.commit_id()).unwrap();
                PredicateMatch::from_boolean(matches_signature(&commit.author, needle))
            },
            PurePredicateFn::Committer { store, needle } => {
                let commit = store.get_commit(&entry.commit_id()).unwrap();
                PredicateMatch::from_boolean(matches_signature(&commit.committer, needle))
            },
            PurePredicateFn::File { store, matcher } => {
                PredicateMatch::from_boolean(has_diff_from_parent(store, entry, matcher))
            },
        }
    }
}

/// Whether the commit changes its parents at a path that the matcher picks.
pub fn has_diff_from_parent<'index>(
    store: &Store,
    entry: &IndexEntry<'index>,
    matcher: &Matcher,
) -> (differs: bool)
    requires
        entry.wf(),
        store.has_commit(entry.commit().commit_id),
    ensures
        ({
            let commit = store.commit(entry.commit().commit_id);
            differs == commit.parent_tree.differs_from(&commit.tree, matcher)
        }),
{
    let commit = store.get_commit(&entry.commit_id()).unwrap();
    let from_tree = &commit.parent_tree;
    let to_tree = &commit.tree;
    from_tree.has_diff(to_tree, matcher)
}

/// The test of a condition.
pub fn build_predicate_fn<'index>(
    store: &'index Store,
    condition: &RevsetFilterPredicate,
) -> (test: PurePredicateFn<'index>)
    ensures
        forall|entry: IndexEntry<'index>| #[trigger]
            test.accepts(entry) == filter_holds(store, *condition, entry.commit()),
        forall|entry: IndexEntry<'index>| #[trigger]
            test.is_defined_at(entry) == (reads_store(*condition) ==> store.has_commit(
                entry.commit().commit_id,
            )),
{
    match condition {
        RevsetFilterPredicate::ParentCount(parent_count_range) => {
            let range = parent_count_range.start..parent_count_range.end;
            PurePredicateFn::ParentCount { range }
        },
        RevsetFilterPredicate::Description(needle) => {
            PurePredicateFn::Description { store, needle: needle.clone() }
        },
        RevsetFilterPredicate::Author(needle) => {
            PurePredicateFn::Author { store, needle: needle.clone() }
        },
        RevsetFilterPredicate::Committer(needle) => {
            PurePredicateFn::Committer { store, needle: needle.clone() }
        },
        RevsetFilterPredicate::File(paths) => {
            let matcher = match paths {
                Some(paths) => Matcher::Prefix(PrefixMatcher::new(paths)),
                None => Matcher::Everything(EverythingMatcher),
            };
            let test = PurePredicateFn::File { store, matcher };
            assert forall|entry: IndexEntry<'index>| #[trigger]
                test.accepts(entry) == filter_holds(store, *condition, entry.commit()) by {
                let commit = store.commit(entry.commit().commit_id);
                assert forall|path: Seq<Seq<char>>| #[trigger]
                    matcher.accepts(path) == is_path_of(*paths, path) by {}
                if commit.parent_tree.differs_from(&commit.tree, &matcher) {
                    let path = choose|path: Seq<Seq<char>>|
                        matcher.accepts(path) && #[trigger] commit.parent_tree.value_at(path)
                            != commit.tree.value_at(path);
                    assert(is_path_of(*paths, path));
                }
                if filter_holds(store, *condition, entry.commit()) {
                    let path = choose|path: Seq<Seq<char>>|
                        is_path_of(*paths, path) && #[trigger] commit.parent_tree.value_at(path)
                            != commit.tree.value_at(path);
                    assert(matcher.accepts(path));
                }
            }
            test
        },
    }
}

} // verus!
