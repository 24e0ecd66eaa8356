//! Laws of the conditions on single commits, in terms of what is recorded and stored of the commits.

use crate::expression::RevsetFilterPredicate;
use crate::filter;
use crate::filter::PurePredicateFn;
use crate::graph::IndexedCommit;
use crate::index::IndexEntry;
use crate::matchers;
use crate::matchers::{EverythingMatcher, Matcher, PrefixMatcher, RepoPath};
use crate::predicate::PurePredicate;
use crate::store;
use crate::store::{Store, Tree, TreeEntry};
use core::ops::Range;
use vstd::prelude::*;

verus! {

/// A text contains what stands in it, with whatever before and after it.
pub proof fn law_text_contains(
    text: Seq<char>,
    before: Seq<char>,
    needle: Seq<char>,
    after: Seq<char>,
)
    requires
        text == before + needle + after,
    ensures
        filter::contains_text(text, needle),
{
    let start = before.len() as int;
    assert(text.subrange(start, start + needle.len()) =~= needle);
}

/// What a text contains stands somewhere in it.
pub proof fn law_text_splits(text: Seq<char>, needle: Seq<char>) -> (around: (Seq<char>, Seq<char>))
    requires
        filter::contains_text(text, needle),
    ensures
        text == around.0 + needle + around.1,
{
    let start = choose|start: int|
        0 <= start <= text.len() - needle.len() && #[trigger] text.subrange(
            start,
            start + needle.len(),
        ) == needle;
    let before = text.take(start);
    let after = text.skip(start + needle.len());
    assert(text =~= before + text.subrange(start, start + needle.len()) + after);
    (before, after)
}

/// A commit meets a condition on its number of parents if that number is in the range, and only
/// then.
pub proof fn law_parent_count(store: &Store, range: Range<u32>, indexed: IndexedCommit)
    ensures
        filter::filter_holds(store, RevsetFilterPredicate::ParentCount(range), indexed) <==> {
            &&& range.start <= indexed.parents.len()
            &&& indexed.parents.len() < range.end
        },
{
}

/// A commit whose description has the needle in it meets the condition.
pub proof fn law_description_with_needle(
    store: &Store,
    needle: String,
    indexed: IndexedCommit,
    before: Seq<char>,
    after: Seq<char>,
)
    requires
        store.commit(indexed.commit_id).description@ == before + needle@ + after,
    ensures
        filter::filter_holds(store, RevsetFilterPredicate::Description(needle), indexed),
{
    law_text_contains(store.commit(indexed.commit_id).description@, before, needle@, after);
}

/// A commit that meets a condition on its description has the needle in its description, and not
/// just somewhere else.
pub proof fn law_needle_in_description(store: &Store, needle: String, indexed: IndexedCommit) -> (
    around: (Seq<char>, Seq<char>))
    requires
        filter::filter_holds(store, RevsetFilterPredicate::Description(needle), indexed),
    ensures
        store.commit(indexed.commit_id).description@ == around.0 + needle@ + around.1,
{
    law_text_splits(store.commit(indexed.commit_id).description@, needle@)
}

/// Whether a commit meets a condition on its description depends on the description alone.
pub proof fn law_description_alone(
    store1: &Store,
    store2: &Store,
    needle: String,
    indexed1: IndexedCommit,
    indexed2: IndexedCommit,
)
    requires
        store1.commit(indexed1.commit_id).description@ == store2.commit(
            indexed2.commit_id,
        ).description@,
    ensures
        filter::filter_holds(store1, RevsetFilterPredicate::Description(needle), indexed1)
            == filter::filter_holds(store2, RevsetFilterPredicate::Description(needle), indexed2),
{
}

/// A commit whose author has the needle in the name or in the email address meets the condition.
pub proof fn law_author_with_needle(
    store: &Store,
    needle: String,
    indexed: IndexedCommit,
    before: Seq<char>,
    after: Seq<char>,
)
    requires
        ({
            let author = store.commit(indexed.commit_id).author;
            ||| author.name@ == before + needle@ + after
            ||| author.email@ == before + needle@ + after
        }),
    ensures
        filter::filter_holds(store, RevsetFilterPredicate::Author(needle), indexed),
{
    law_text_contains(before + needle@ + after, before, needle@, after);
}

/// A commit that meets a condition on its author has the needle in the name or in the email address
/// of the author.
pub proof fn law_needle_in_author(store: &Store, needle: String, indexed: IndexedCommit) -> (around:
    (Seq<char>, Seq<char>))
    requires
        filter::filter_holds(store, RevsetFilterPredicate::Author(needle), indexed),
    ensures
        ({
            let author = store.commit(indexed.commit_id).author;
            ||| author.name@ == around.0 + needle@ + around.1
            ||| author.email@ == around.0 + needle@ + around.1
        }),
{
    let author = store.commit(indexed.commit_id).author;
    if filter::contains_text(author.name@, needle@) {
        law_text_splits(author.name@, needle@)
    } else {
        law_text_splits(author.email@, needle@)
    }
}

/// Whether a commit meets a condition on its author depends on the name and the email address of
/// the author alone.
pub proof fn law_author_alone(
    store1: &Store,
    store2: &Store,
    needle: String,
    indexed1: IndexedCommit,
    indexed2: IndexedCommit,
)
    requires
        ({
            let author1 = store1.commit(indexed1.commit_id).author;
            let author2 = store2.commit(indexed2.commit_id).author;
            author1.name@ == author2.name@ && author1.email@ == author2.email@
        }),
    ensures
        filter::filter_holds(store1, RevsetFilterPredicate::Author(needle), indexed1)
            == filter::filter_holds(store2, RevsetFilterPredicate::Author(needle), indexed2),
{
}

/// A commit whose committer has the needle in the name or in the email address meets the condition.
pub proof fn law_committer_with_needle(
    store: &Store,
    needle: String,
    indexed: IndexedCommit,
    before: Seq<char>,
    after: Seq<char>,
)
    requires
        ({
            let committer = store.commit(indexed.commit_id).committer;
            ||| committer.name@ == before + needle@ + after
            ||| committer.email@ == before + needle@ + after
        }),
    ensures
        filter::filter_holds(store, RevsetFilterPredicate::Committer(needle), indexed),
{
    law_text_contains(before + needle@ + after, before, needle@, after);
}

/// A commit that meets a condition on its committer has the needle in the name or in the email
/// address of the committer.
pub proof fn law_needle_in_committer(store: &Store, needle: String, indexed: IndexedCommit) -> (
    around: (Seq<char>, Seq<char>))
    requires
        filter::filter_holds(store, RevsetFilterPredicate::Committer(needle), indexed),
    ensures
        ({
            let committer = store.commit(indexed.commit_id).committer;
            ||| committer.name@ == around.0 + needle@ + around.1
            ||| committer.email@ == around.0 + needle@ + around.1
        }),
{
    let committer = store.commit(indexed.commit_id).committer;
    if filter::contains_text(committer.name@, needle@) {
        law_text_splits(committer.name@, needle@)
    } else {
        law_text_splits(committer.email@, needle@)
    }
}

/// Whether a commit meets a condition on its committer depends on the name and the email address of
/// the committer alone.
pub proof fn law_committer_alone(
    store1: &Store,
    store2: &Store,
    needle: String,
    indexed1: IndexedCommit,
    indexed2: IndexedCommit,
)
    requires
        ({
            let committer1 = store1.commit(indexed1.commit_id).committer;
            let committer2 = store2.commit(indexed2.commit_id).committer;
            committer1.name@ == committer2.name@ && committer1.email@ == committer2.email@
        }),
    ensures
        filter::filter_holds(store1, RevsetFilterPredicate::Committer(needle), indexed1)
            == filter::filter_holds(store2, RevsetFilterPredicate::Committer(needle), indexed2),
{
}

/// The names of a path are its components, in their order.
pub proof fn law_names_of_path(path: RepoPath)
    ensures
        path@.len() == path.components@.len(),
        forall|i: int| 0 <= i < path@.len() ==> #[trigger] path@[i] == path.components@[i]@,
{
}

/// A path that begins with the names of one of the given paths is below them.
pub proof fn law_below_given_path(prefixes: Seq<RepoPath>, path: Seq<Seq<char>>, k: int)
    requires
        0 <= k < prefixes.len(),
        prefixes[k]@.len() <= path.len(),
        forall|i: int| 0 <= i < prefixes[k]@.len() ==> #[trigger] prefixes[k]@[i] == path[i],
    ensures
        matchers::is_below_any(prefixes, path),
{
    assert(prefixes[k]@ =~= path.subrange(0, prefixes[k]@.len() as int));
}

/// A path that is below the given ones begins with the names of one of them.
pub proof fn law_given_path_above(prefixes: Seq<RepoPath>, path: Seq<Seq<char>>) -> (k: int)
    requires
        matchers::is_below_any(prefixes, path),
    ensures
        0 <= k < prefixes.len(),
        prefixes[k]@.len() <= path.len(),
        forall|i: int| 0 <= i < prefixes[k]@.len() ==> #[trigger] prefixes[k]@[i] == path[i],
{
    let k = choose|k: int| 0 <= k < prefixes.len() && (#[trigger] prefixes[k])@.is_prefix_of(path);
    let n = prefixes[k]@.len() as int;
    assert(prefixes[k]@ == path.subrange(0, n));
    assert forall|i: int| 0 <= i < n implies #[trigger] prefixes[k]@[i] == path[i] by {
        assert(path.subrange(0, n)[i] == path[i]);
    }
    k
}

/// A tree has at a path what its first entry with the path holds.
pub proof fn law_value_of_first_entry(tree: Tree, i: int)
    requires
        0 <= i < tree.entries@.len(),
        forall|j: int| 0 <= j < i ==> (#[trigger] tree.entries@[j]).path@ != tree.entries@[i].path@,
    ensures
        tree.value_at(tree.entries@[i].path@) == Some(tree.entries@[i].value@),
{
    lemma_first_value(tree.entries@, i);
}

proof fn lemma_first_value(entries: Seq<TreeEntry>, i: int)
    requires
        0 <= i < entries.len(),
        forall|j: int| 0 <= j < i ==> (#[trigger] entries[j]).path@ != entries[i].path@,
    ensures
        store::first_value_at(entries, entries[i].path@) == Some(entries[i].value@),
    decreases i,
{
    if i > 0 {
        let rest = entries.skip(1);
        assert(entries[0].path@ != entries[i].path@);
        assert(rest[i - 1] == entries[i]);
        assert forall|j: int| 0 <= j < i - 1 implies (#[trigger] rest[j]).path@
            != rest[i - 1].path@ by {
            assert(rest[j] == entries[j + 1]);
        }
        lemma_first_value(rest, i - 1);
    }
}

/// A tree has nothing at a path that none of its entries has.
pub proof fn law_no_value_without_entry(tree: Tree, path: Seq<Seq<char>>)
    requires
        forall|j: int| 0 <= j < tree.entries@.len() ==> (#[trigger] tree.entries@[j]).path@ != path,
    ensures
        tree.value_at(path) is None,
{
    lemma_no_value(tree.entries@, path);
}

proof fn lemma_no_value(entries: Seq<TreeEntry>, path: Seq<Seq<char>>)
    requires
        forall|j: int| 0 <= j < entries.len() ==> (#[trigger] entries[j]).path@ != path,
    ensures
        store::first_value_at(entries, path) is None,
    decreases entries.len(),
{
    if entries.len() > 0 {
        let rest = entries.skip(1);
        assert(entries[0].path@ != path);
        assert forall|j: int| 0 <= j < rest.len() implies (#[trigger] rest[j]).path@ != path by {
            assert(rest[j] == entries[j + 1]);
        }
        lemma_no_value(rest, path);
    }
}

/// Trees that do not have the same at a path that the matcher picks differ, also where one of them
/// has nothing there.
pub proof fn law_different_value(from: Tree, to: Tree, matcher: Matcher, path: Seq<Seq<char>>)
    requires
        matcher.accepts(path),
        from.value_at(path) != to.value_at(path),
    ensures
        from.differs_from(&to, &matcher),
{
}

/// Trees that differ do not have the same at a path that the matcher picks.
pub proof fn law_path_of_difference(from: Tree, to: Tree, matcher: Matcher) -> (path: Seq<Seq<char>>)
    requires
        from.differs_from(&to, &matcher),
    ensures
        matcher.accepts(path),
        from.value_at(path) != to.value_at(path),
{
    choose|path: Seq<Seq<char>>|
        matcher.accepts(path) && #[trigger] from.value_at(path) != to.value_at(path)
}

/// A tree differs from another if and only if the other differs from it, and no tree differs from
/// itself. Where all paths are picked, trees differ if and only if they do somewhere.
pub proof fn law_difference_is_symmetric(from: Tree, to: Tree, matcher: Matcher, all: Matcher)
    requires
        all is Everything,
    ensures
        from.differs_from(&to, &matcher) == to.differs_from(&from, &matcher),
        !from.differs_from(&from, &matcher),
        from.differs_from(&to, &matcher) ==> from.differs_from(&to, &all),
{
    if from.differs_from(&to, &matcher) {
        let path = law_path_of_difference(from, to, matcher);
        law_different_value(to, from, matcher, path);
        assert(all.accepts(path));
        law_different_value(from, to, all, path);
    }
    if to.differs_from(&from, &matcher) {
        let path = law_path_of_difference(to, from, matcher);
        law_different_value(from, to, matcher, path);
    }
}

/// A commit that does not have the same as its parents at a path that is one of the given, or is
/// below one, meets the condition on files: whether it adds, changes or deletes what stands there.
/// Without given paths, any path will do.
pub proof fn law_changed_path(
    store: &Store,
    paths: Option<Vec<RepoPath>>,
    indexed: IndexedCommit,
    path: Seq<Seq<char>>,
    k: int,
)
    requires
        ({
            let commit = store.commit(indexed.commit_id);
            commit.parent_tree.value_at(path) != commit.tree.value_at(path)
        }),
        paths matches Some(given) ==> {
            &&& 0 <= k < given@.len()
            &&& given@[k]@.len() <= path.len()
            &&& forall|i: int| 0 <= i < given@[k]@.len() ==> #[trigger] given@[k]@[i] == path[i]
        },
    ensures
        filter::filter_holds(store, RevsetFilterPredicate::File(paths), indexed),
{
    if let Some(given) = paths {
        law_below_given_path(given@, path, k);
    }
    assert(filter::is_path_of(paths, path));
}

/// A commit that meets a condition on files does not have the same as its parents at a path that is
/// one of the given, or is below one.
pub proof fn law_path_of_change(
    store: &Store,
    paths: Option<Vec<RepoPath>>,
    indexed: IndexedCommit,
) -> (found: (Seq<Seq<char>>, int))
    requires
        filter::filter_holds(store, RevsetFilterPredicate::File(paths), indexed),
    ensures
        ({
            let commit = store.commit(indexed.commit_id);
            let (path, k) = found;
            &&& commit.parent_tree.value_at(path) != commit.tree.value_at(path)
            &&& paths matches Some(given) ==> {
                &&& 0 <= k < given@.len()
                &&& given@[k]@.len() <= path.len()
                &&& forall|i: int|
                    0 <= i < given@[k]@.len() ==> #[trigger] given@[k]@[i] == path[i]
            }
        }),
{
    let commit = store.commit(indexed.commit_id);
    let path = choose|path: Seq<Seq<char>>|
        filter::is_path_of(paths, path) && #[trigger] commit.parent_tree.value_at(path)
            != commit.tree.value_at(path);
    match paths {
        Some(given) => (path, law_given_path_above(given@, path)),
        None => (path, 0),
    }
}

/// To exchange the tree of a commit and that of its parents does not change whether it meets a
/// condition on files: what one change does, the opposite change does too.
pub proof fn law_change_either_way(
    store1: &Store,
    store2: &Store,
    paths: Option<Vec<RepoPath>>,
    indexed1: IndexedCommit,
    indexed2: IndexedCommit,
)
    requires
        ({
            let commit1 = store1.commit(indexed1.commit_id);
            let commit2 = store2.commit(indexed2.commit_id);
            &&& forall|path: Seq<Seq<char>>| #[trigger]
                commit1.parent_tree.value_at(path) == commit2.tree.value_at(path)
            &&& forall|path: Seq<Seq<char>>| #[trigger]
                commit1.tree.value_at(path) == commit2.parent_tree.value_at(path)
        }),
    ensures
        filter::filter_holds(store1, RevsetFilterPredicate::File(paths), indexed1)
            == filter::filter_holds(store2, RevsetFilterPredicate::File(paths), indexed2),
{
    let commit1 = store1.commit(indexed1.commit_id);
    let commit2 = store2.commit(indexed2.commit_id);
    if filter::filter_holds(store1, RevsetFilterPredicate::File(paths), indexed1) {
        let (path, k) = law_path_of_change(store1, paths, indexed1);
        assert(commit1.parent_tree.value_at(path) == commit2.tree.value_at(path));
        assert(commit1.tree.value_at(path) == commit2.parent_tree.value_at(path));
        law_changed_path(store2, paths, indexed2, path, k);
    }
    if filter::filter_holds(store2, RevsetFilterPredicate::File(paths), indexed2) {
        let (path, k) = law_path_of_change(store2, paths, indexed2);
        assert(commit1.parent_tree.value_at(path) == commit2.tree.value_at(path));
        assert(commit1.tree.value_at(path) == commit2.parent_tree.value_at(path));
        law_changed_path(store1, paths, indexed1, path, k);
    }
}

/// The matcher for everything picks every path, and that for prefixes what its prefixes pick.
pub proof fn law_picked_paths(
    everything: EverythingMatcher,
    prefixes: PrefixMatcher,
    path: Seq<Seq<char>>,
)
    ensures
        Matcher::Everything(everything).accepts(path),
        Matcher::Prefix(prefixes).accepts(path) <==> prefixes.accepts(path),
{
}

/// A test that is ready accepts an entry if and only if the commit of the entry meets the condition
/// that the test is of.
pub proof fn law_tests_of_conditions<'index>(
    store: &'index Store,
    range: Range<u32>,
    needle: String,
    entry: IndexEntry<'index>,
)
    ensures
        ({
            let test = PurePredicateFn::ParentCount { range };
            test.accepts(entry) <==> range.start <= entry.index@[entry.pos.0 as int].parents.len()
                < range.end
        }),
        ({
            let test = PurePredicateFn::Description { store, needle };
            test.accepts(entry) <==> filter::filter_holds(
                store,
                RevsetFilterPredicate::Description(needle),
                entry.index@[entry.pos.0 as int],
            )
        }),
        ({
            let test = PurePredicateFn::Author { store, needle };
            test.accepts(entry) <==> filter::filter_holds(
                store,
                RevsetFilterPredicate::Author(needle),
                entry.index@[entry.pos.0 as int],
            )
        }),
        ({
            let test = PurePredicateFn::Committer { store, needle };
            test.accepts(entry) <==> filter::filter_holds(
                store,
                RevsetFilterPredicate::Committer(needle),
                entry.index@[entry.pos.0 as int],
            )
        }),
{
}

/// A test for changed files accepts a commit that does not have the same as its parents at a path
/// that the matcher picks: it has added, changed or deleted what is there.
pub proof fn law_test_of_changed_path<'index>(
    store: &'index Store,
    matcher: Matcher,
    entry: IndexEntry<'index>,
    path: Seq<Seq<char>>,
)
    requires
        ({
            let commit = store.commit(entry.index@[entry.pos.0 as int].commit_id);
            &&& matcher.accepts(path)
            &&& commit.parent_tree.value_at(path) != commit.tree.value_at(path)
        }),
    ensures
        (PurePredicateFn::File { store, matcher }).accepts(entry),
{
}

/// A commit that a test for changed files accepts does not have the same as its parents at a path
/// that the matcher picks.
pub proof fn law_path_of_tested_change<'index>(
    store: &'index Store,
    matcher: Matcher,
    entry: IndexEntry<'index>,
) -> (path: Seq<Seq<char>>)
    requires
        (PurePredicateFn::File { store, matcher }).accepts(entry),
    ensures
        ({
            let commit = store.commit(entry.index@[entry.pos.0 as int].commit_id);
            &&& matcher.accepts(path)
            &&& commit.parent_tree.value_at(path) != commit.tree.value_at(path)
        }),
{
    let commit = store.commit(entry.index@[entry.pos.0 as int].commit_id);
    law_path_of_difference(commit.parent_tree, commit.tree, matcher)
}

} // verus!
