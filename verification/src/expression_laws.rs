//! Laws of what the commits of a set have to satisfy, in terms of the parents that the graph records
//! and of what is stored. Where a law speaks of a path, this is a sequence of positions in which each
//! commit but the first is a parent of the one before it.

use crate::expression::{RevsetExpression, RevsetFilterPredicate};
use crate::filter;
use crate::graph::IndexedCommit;
use crate::laws;
use crate::object_id::CommitId;
use crate::path_laws;
use crate::semantics;
use crate::store::Store;
use core::ops::Range;
use std::rc::Rc;
use vstd::prelude::*;

verus! {

/// A path from one of the heads leads to an ancestor, where the number of its steps is in the range.
pub proof fn law_ancestors_by_path(
    store: &Store,
    graph: Seq<IndexedCommit>,
    visible_heads: Set<u32>,
    heads: Rc<RevsetExpression>,
    generation: Range<u64>,
    path: Seq<u32>,
)
    requires
        path.len() > 0,
        generation.start <= path.len() - 1 < generation.end,
        semantics::denotation(store, graph, visible_heads, &*heads).contains(path[0]),
        forall|i: int| 0 <= i < path.len() - 1 ==> (#[trigger] path[i]) < graph.len(),
        forall|i: int, j: int|
            #![trigger path[i], path[j]]
            0 <= i < j < path.len() && j < i + 2
                ==> graph[path[i] as int].parents.contains(path[j]),
    ensures
        semantics::denotation(
            store,
            graph,
            visible_heads,
            &RevsetExpression::Ancestors { heads, generation },
        ).contains(path.last()),
{
    path_laws::law_path_leads_to_ancestor(
        graph,
        semantics::denotation(store, graph, visible_heads, &*heads),
        generation.start as nat,
        generation.end as nat,
        path,
    );
}

/// To each of the ancestors a path from one of the heads leads, with a number of steps in the range.
pub proof fn law_path_to_each_ancestor(
    store: &Store,
    graph: Seq<IndexedCommit>,
    visible_heads: Set<u32>,
    heads: Rc<RevsetExpression>,
    generation: Range<u64>,
    p: u32,
) -> (path: Seq<u32>)
    requires
        semantics::denotation(
            store,
            graph,
            visible_heads,
            &RevsetExpression::Ancestors { heads, generation },
        ).contains(p),
    ensures
        generation.start <= path.len() - 1 < generation.end,
        semantics::denotation(store, graph, visible_heads, &*heads).contains(path[0]),
        path.last() == p,
        forall|i: int| 0 <= i < path.len() - 1 ==> (#[trigger] path[i]) < graph.len(),
        forall|i: int, j: int|
            #![trigger path[i], path[j]]
            0 <= i < j < path.len() && j < i + 2
                ==> graph[path[i] as int].parents.contains(path[j]),
{
    path_laws::law_ancestor_within_has_path(
        graph,
        semantics::denotation(store, graph, visible_heads, &*heads),
        generation.start as nat,
        generation.end as nat,
        p,
    )
}

/// What a path from a visible head leads to is visible, however long the path is.
pub proof fn law_visible_by_path(
    store: &Store,
    graph: Seq<IndexedCommit>,
    visible_heads: Set<u32>,
    path: Seq<u32>,
)
    requires
        path.len() > 0,
        visible_heads.contains(path[0]),
        forall|i: int| 0 <= i < path.len() - 1 ==> (#[trigger] path[i]) < graph.len(),
        forall|i: int, j: int|
            #![trigger path[i], path[j]]
            0 <= i < j < path.len() && j < i + 2
                ==> graph[path[i] as int].parents.contains(path[j]),
    ensures
        semantics::denotation(
            store,
            graph,
            visible_heads,
            &RevsetExpression::All,
        ).contains(path.last()),
{
    path_laws::law_path_leads_to_ancestor(graph, visible_heads, 0, 0, path);
}

/// To each visible commit a path from a visible head leads.
pub proof fn law_path_to_each_visible(
    store: &Store,
    graph: Seq<IndexedCommit>,
    visible_heads: Set<u32>,
    p: u32,
) -> (path: Seq<u32>)
    requires
        semantics::denotation(store, graph, visible_heads, &RevsetExpression::All).contains(p),
    ensures
        path.len() > 0,
        visible_heads.contains(path[0]),
        path.last() == p,
        forall|i: int| 0 <= i < path.len() - 1 ==> (#[trigger] path[i]) < graph.len(),
        forall|i: int, j: int|
            #![trigger path[i], path[j]]
            0 <= i < j < path.len() && j < i + 2
                ==> graph[path[i] as int].parents.contains(path[j]),
{
    path_laws::law_ancestor_has_path(graph, visible_heads, p)
}

/// To each commit of a range a path from one of its heads leads, with a number of steps in the
/// range of distances.
pub proof fn law_path_to_each_of_range(
    store: &Store,
    graph: Seq<IndexedCommit>,
    visible_heads: Set<u32>,
    roots: Rc<RevsetExpression>,
    heads: Rc<RevsetExpression>,
    generation: Range<u64>,
    p: u32,
) -> (path: Seq<u32>)
    requires
        semantics::denotation(
            store,
            graph,
            visible_heads,
            &RevsetExpression::Range { roots, heads, generation },
        ).contains(p),
    ensures
        generation.start <= path.len() - 1 < generation.end,
        semantics::denotation(store, graph, visible_heads, &*heads).contains(path[0]),
        path.last() == p,
        forall|i: int| 0 <= i < path.len() - 1 ==> (#[trigger] path[i]) < graph.len(),
        forall|i: int, j: int|
            #![trigger path[i], path[j]]
            0 <= i < j < path.len() && j < i + 2
                ==> graph[path[i] as int].parents.contains(path[j]),
{
    path_laws::law_ancestor_within_has_path(
        graph,
        semantics::denotation(store, graph, visible_heads, &*heads),
        generation.start as nat,
        generation.end as nat,
        p,
    )
}

/// What a path from one of its roots leads to is not in a range, however long the path is.
pub proof fn law_range_leaves_out(
    store: &Store,
    graph: Seq<IndexedCommit>,
    visible_heads: Set<u32>,
    roots: Rc<RevsetExpression>,
    heads: Rc<RevsetExpression>,
    generation: Range<u64>,
    path: Seq<u32>,
)
    requires
        path.len() > 0,
        semantics::denotation(store, graph, visible_heads, &*roots).contains(path[0]),
        forall|i: int| 0 <= i < path.len() - 1 ==> (#[trigger] path[i]) < graph.len(),
        forall|i: int, j: int|
            #![trigger path[i], path[j]]
            0 <= i < j < path.len() && j < i + 2
                ==> graph[path[i] as int].parents.contains(path[j]),
    ensures
        !semantics::denotation(
            store,
            graph,
            visible_heads,
            &RevsetExpression::Range { roots, heads, generation },
        ).contains(path.last()),
{
    path_laws::law_path_leads_to_ancestor(
        graph,
        semantics::denotation(store, graph, visible_heads, &*roots),
        0,
        0,
        path,
    );
}

/// Where a path from one of the heads, with a number of steps in the range of distances, leads to a
/// commit that is not in the range, a path from one of the roots leads to it too.
pub proof fn law_what_a_range_misses(
    store: &Store,
    graph: Seq<IndexedCommit>,
    visible_heads: Set<u32>,
    roots: Rc<RevsetExpression>,
    heads: Rc<RevsetExpression>,
    generation: Range<u64>,
    path: Seq<u32>,
) -> (other: Seq<u32>)
    requires
        path.len() > 0,
        generation.start <= path.len() - 1 < generation.end,
        semantics::denotation(store, graph, visible_heads, &*heads).contains(path[0]),
        !semantics::denotation(
            store,
            graph,
            visible_heads,
            &RevsetExpression::Range { roots, heads, generation },
        ).contains(path.last()),
        forall|i: int| 0 <= i < path.len() - 1 ==> (#[trigger] path[i]) < graph.len(),
        forall|i: int, j: int|
            #![trigger path[i], path[j]]
            0 <= i < j < path.len() && j < i + 2
                ==> graph[path[i] as int].parents.contains(path[j]),
    ensures
        other.len() > 0,
        semantics::denotation(store, graph, visible_heads, &*roots).contains(other[0]),
        other.last() == path.last(),
        forall|i: int| 0 <= i < other.len() - 1 ==> (#[trigger] other[i]) < graph.len(),
        forall|i: int, j: int|
            #![trigger other[i], other[j]]
            0 <= i < j < other.len() && j < i + 2
                ==> graph[other[i] as int].parents.contains(other[j]),
{
    path_laws::law_path_leads_to_ancestor(
        graph,
        semantics::denotation(store, graph, visible_heads, &*heads),
        generation.start as nat,
        generation.end as nat,
        path,
    );
    path_laws::law_ancestor_has_path(
        graph,
        semantics::denotation(store, graph, visible_heads, &*roots),
        path.last(),
    )
}

/// A commit that one path leads to from a head, and from which another leads to a root, is between the
/// roots and the heads.
pub proof fn law_dag_range_by_paths(
    store: &Store,
    graph: Seq<IndexedCommit>,
    visible_heads: Set<u32>,
    roots: Rc<RevsetExpression>,
    heads: Rc<RevsetExpression>,
    above: Seq<u32>,
    below: Seq<u32>,
)
    requires
        above.len() > 0,
        below.len() > 0,
        semantics::denotation(store, graph, visible_heads, &*heads).contains(above[0]),
        above.last() == below[0],
        semantics::denotation(store, graph, visible_heads, &*roots).contains(below.last()),
        forall|i: int| 0 <= i < above.len() - 1 ==> (#[trigger] above[i]) < graph.len(),
        forall|i: int, j: int|
            #![trigger above[i], above[j]]
            0 <= i < j < above.len() && j < i + 2
                ==> graph[above[i] as int].parents.contains(above[j]),
        forall|i: int| 0 <= i < below.len() - 1 ==> (#[trigger] below[i]) < graph.len(),
        forall|i: int, j: int|
            #![trigger below[i], below[j]]
            0 <= i < j < below.len() && j < i + 2
                ==> graph[below[i] as int].parents.contains(below[j]),
    ensures
        semantics::denotation(
            store,
            graph,
            visible_heads,
            &RevsetExpression::DagRange { roots, heads },
        ).contains(below[0]),
{
    path_laws::law_between_by_paths(
        graph,
        semantics::denotation(store, graph, visible_heads, &*roots),
        semantics::denotation(store, graph, visible_heads, &*heads),
        above,
        below,
    );
}

/// To each commit between the roots and the heads a path leads from a head, and from it one leads to
/// a root.
pub proof fn law_paths_of_dag_range(
    store: &Store,
    graph: Seq<IndexedCommit>,
    visible_heads: Set<u32>,
    roots: Rc<RevsetExpression>,
    heads: Rc<RevsetExpression>,
    p: u32,
) -> (paths: (Seq<u32>, Seq<u32>))
    requires
        semantics::denotation(
            store,
            graph,
            visible_heads,
            &RevsetExpression::DagRange { roots, heads },
        ).contains(p),
    ensures
        ({
            let (above, below) = paths;
            &&& above.len() > 0
            &&& below.len() > 0
            &&& semantics::denotation(store, graph, visible_heads, &*heads).contains(above[0])
            &&& above.last() == p
            &&& below[0] == p
            &&& semantics::denotation(store, graph, visible_heads, &*roots).contains(below.last())
            &&& forall|i: int| 0 <= i < above.len() - 1 ==> (#[trigger] above[i]) < graph.len()
            &&& forall|i: int, j: int|
                #![trigger above[i], above[j]]
                0 <= i < j < above.len() && j < i + 2 ==> graph[above[i] as int].parents.contains(
                    above[j],
                )
            &&& forall|i: int| 0 <= i < below.len() - 1 ==> (#[trigger] below[i]) < graph.len()
            &&& forall|i: int, j: int|
                #![trigger below[i], below[j]]
                0 <= i < j < below.len() && j < i + 2 ==> graph[below[i] as int].parents.contains(
                    below[j],
                )
        }),
{
    path_laws::law_paths_of_between(
        graph,
        semantics::denotation(store, graph, visible_heads, &*roots),
        semantics::denotation(store, graph, visible_heads, &*heads),
        p,
    )
}

/// A visible commit with a parent among the roots, at whatever place in its list of parents, is a
/// child of the roots.
pub proof fn law_children_by_any_parent(
    store: &Store,
    graph: Seq<IndexedCommit>,
    visible_heads: Set<u32>,
    roots: Rc<RevsetExpression>,
    p: u32,
    k: int,
)
    requires
        p < graph.len(),
        semantics::denotation(store, graph, visible_heads, &RevsetExpression::All).contains(p),
        0 <= k < graph[p as int].parents.len(),
        semantics::denotation(
            store,
            graph,
            visible_heads,
            &*roots,
        ).contains(graph[p as int].parents[k]),
    ensures
        semantics::denotation(
            store,
            graph,
            visible_heads,
            &RevsetExpression::Children(roots),
        ).contains(p),
{
    path_laws::law_parent_among_roots(
        graph,
        semantics::denotation(store, graph, visible_heads, &*roots),
        semantics::denotation(store, graph, visible_heads, &RevsetExpression::All),
        p,
        k,
    );
}

/// A child of the roots is visible, and has one of them as a parent.
pub proof fn law_parent_of_each_child(
    store: &Store,
    graph: Seq<IndexedCommit>,
    visible_heads: Set<u32>,
    roots: Rc<RevsetExpression>,
    p: u32,
) -> (k: int)
    requires
        semantics::denotation(
            store,
            graph,
            visible_heads,
            &RevsetExpression::Children(roots),
        ).contains(p),
    ensures
        p < graph.len(),
        semantics::denotation(store, graph, visible_heads, &RevsetExpression::All).contains(p),
        0 <= k < graph[p as int].parents.len(),
        semantics::denotation(
            store,
            graph,
            visible_heads,
            &*roots,
        ).contains(graph[p as int].parents[k]),
{
    path_laws::law_child_has_parent_among_roots(
        graph,
        semantics::denotation(store, graph, visible_heads, &*roots),
        semantics::denotation(store, graph, visible_heads, &RevsetExpression::All),
        p,
    )
}

/// No head of a set is a proper ancestor of a commit of the set, at whatever distance: no path leads
/// from another commit of the set to it.
pub proof fn law_heads_are_apart(
    store: &Store,
    graph: Seq<IndexedCommit>,
    visible_heads: Set<u32>,
    set: Rc<RevsetExpression>,
    path: Seq<u32>,
)
    requires
        path.len() > 0,
        semantics::denotation(store, graph, visible_heads, &*set).contains(path[0]),
        path[0] != path.last(),
        forall|i: int| 0 <= i < path.len() - 1 ==> (#[trigger] path[i]) < graph.len(),
        forall|i: int, j: int|
            #![trigger path[i], path[j]]
            0 <= i < j < path.len() && j < i + 2
                ==> graph[path[i] as int].parents.contains(path[j]),
    ensures
        !semantics::denotation(
            store,
            graph,
            visible_heads,
            &RevsetExpression::Heads(set),
        ).contains(path.last()),
{
    path_laws::law_no_path_to_head(
        graph,
        semantics::denotation(store, graph, visible_heads, &*set),
        path,
    );
}

/// Heads of a set are commits of it. To a commit of the set that is no head a path leads from another
/// commit of the set.
pub proof fn law_what_is_not_among_heads(
    store: &Store,
    graph: Seq<IndexedCommit>,
    visible_heads: Set<u32>,
    set: Rc<RevsetExpression>,
    p: u32,
) -> (path: Seq<u32>)
    ensures
        semantics::denotation(
            store,
            graph,
            visible_heads,
            &RevsetExpression::Heads(set),
        ).contains(p) ==> semantics::denotation(store, graph, visible_heads, &*set).contains(p),
        semantics::denotation(store, graph, visible_heads, &*set).contains(p) && !semantics::denotation(
            store,
            graph,
            visible_heads,
            &RevsetExpression::Heads(set),
        ).contains(p) ==> {
            &&& path.len() > 0
            &&& path[0] != p
            &&& path.last() == p
            &&& semantics::denotation(store, graph, visible_heads, &*set).contains(path[0])
            &&& forall|i: int| 0 <= i < path.len() - 1 ==> (#[trigger] path[i]) < graph.len()
            &&& forall|i: int, j: int|
                #![trigger path[i], path[j]]
                0 <= i < j < path.len() && j < i + 2 ==> graph[path[i] as int].parents.contains(
                    path[j],
                )
        },
{
    path_laws::law_path_to_non_head(
        graph,
        semantics::denotation(store, graph, visible_heads, &*set),
        p,
    )
}

/// No root of a set is a proper descendant of a commit of the set, at whatever distance: no path leads
/// from it to another commit of the set.
pub proof fn law_roots_are_apart(
    store: &Store,
    graph: Seq<IndexedCommit>,
    visible_heads: Set<u32>,
    set: Rc<RevsetExpression>,
    path: Seq<u32>,
)
    requires
        path.len() > 0,
        semantics::denotation(store, graph, visible_heads, &*set).contains(path.last()),
        path[0] != path.last(),
        forall|i: int| 0 <= i < path.len() - 1 ==> (#[trigger] path[i]) < graph.len(),
        forall|i: int, j: int|
            #![trigger path[i], path[j]]
            0 <= i < j < path.len() && j < i + 2
                ==> graph[path[i] as int].parents.contains(path[j]),
    ensures
        !semantics::denotation(
            store,
            graph,
            visible_heads,
            &RevsetExpression::Roots(set),
        ).contains(path[0]),
{
    path_laws::law_no_path_from_root(
        graph,
        semantics::denotation(store, graph, visible_heads, &*set),
        path,
    );
}

/// Roots of a set are commits of it. From a commit of the set that is no root a path leads to another
/// commit of the set.
pub proof fn law_what_is_not_among_roots(
    store: &Store,
    graph: Seq<IndexedCommit>,
    visible_heads: Set<u32>,
    set: Rc<RevsetExpression>,
    p: u32,
) -> (path: Seq<u32>)
    ensures
        semantics::denotation(
            store,
            graph,
            visible_heads,
            &RevsetExpression::Roots(set),
        ).contains(p) ==> semantics::denotation(store, graph, visible_heads, &*set).contains(p),
        semantics::denotation(store, graph, visible_heads, &*set).contains(p) && !semantics::denotation(
            store,
            graph,
            visible_heads,
            &RevsetExpression::Roots(set),
        ).contains(p) ==> {
            &&& path.len() > 0
            &&& path[0] == p
            &&& path.last() != p
            &&& semantics::denotation(store, graph, visible_heads, &*set).contains(path.last())
            &&& forall|i: int| 0 <= i < path.len() - 1 ==> (#[trigger] path[i]) < graph.len()
            &&& forall|i: int, j: int|
                #![trigger path[i], path[j]]
                0 <= i < j < path.len() && j < i + 2 ==> graph[path[i] as int].parents.contains(
                    path[j],
                )
        },
{
    path_laws::law_path_from_non_root(
        graph,
        semantics::denotation(store, graph, visible_heads, &*set),
        p,
    )
}

/// What is in the sets that are put together from others, by what is in these.
pub proof fn law_members_of_combinations(
    store: &Store,
    graph: Seq<IndexedCommit>,
    visible_heads: Set<u32>,
    set1: Rc<RevsetExpression>,
    set2: Rc<RevsetExpression>,
    p: u32,
)
    ensures
        ({
            let all = semantics::denotation(store, graph, visible_heads, &RevsetExpression::All);
            let first = semantics::denotation(store, graph, visible_heads, &*set1);
            let second = semantics::denotation(store, graph, visible_heads, &*set2);
            let nothing = semantics::denotation(
                store,
                graph,
                visible_heads,
                &RevsetExpression::Empty,
            );
            let heads = semantics::denotation(
                store,
                graph,
                visible_heads,
                &RevsetExpression::VisibleHeads,
            );
            let union = semantics::denotation(
                store,
                graph,
                visible_heads,
                &RevsetExpression::Union(set1, set2),
            );
            let common = semantics::denotation(
                store,
                graph,
                visible_heads,
                &RevsetExpression::Intersection(set1, set2),
            );
            let difference = semantics::denotation(
                store,
                graph,
                visible_heads,
                &RevsetExpression::Difference(set1, set2),
            );
            let complement = semantics::denotation(
                store,
                graph,
                visible_heads,
                &RevsetExpression::NotIn(set1),
            );
            let present = semantics::denotation(
                store,
                graph,
                visible_heads,
                &RevsetExpression::Present(set1),
            );
            let marked = semantics::denotation(
                store,
                graph,
                visible_heads,
                &RevsetExpression::AsFilter(set1),
            );
            &&& !nothing.contains(p)
            &&& heads.contains(p) <==> visible_heads.contains(p)
            &&& union.contains(p) <==> first.contains(p) || second.contains(p)
            &&& common.contains(p) <==> first.contains(p) && second.contains(p)
            &&& difference.contains(p) <==> first.contains(p) && !second.contains(p)
            &&& complement.contains(p) <==> all.contains(p) && !first.contains(p)
            &&& present.contains(p) <==> first.contains(p)
            &&& marked.contains(p) <==> first.contains(p)
        }),
{
}

/// A commit with one of the identifiers is in their set.
pub proof fn law_commit_by_id(
    store: &Store,
    graph: Seq<IndexedCommit>,
    visible_heads: Set<u32>,
    commit_ids: Vec<CommitId>,
    p: u32,
    i: int,
)
    requires
        p < graph.len(),
        0 <= i < commit_ids@.len(),
        commit_ids@[i]@ == graph[p as int].commit_id,
    ensures
        semantics::denotation(
            store,
            graph,
            visible_heads,
            &RevsetExpression::Commits(commit_ids),
        ).contains(p),
{
}

/// Each commit of a set of identifiers has one of them.
pub proof fn law_id_of_each_commit(
    store: &Store,
    graph: Seq<IndexedCommit>,
    visible_heads: Set<u32>,
    commit_ids: Vec<CommitId>,
    p: u32,
) -> (i: int)
    requires
        semantics::denotation(
            store,
            graph,
            visible_heads,
            &RevsetExpression::Commits(commit_ids),
        ).contains(p),
    ensures
        p < graph.len(),
        0 <= i < commit_ids@.len(),
        commit_ids@[i]@ == graph[p as int].commit_id,
{
    choose|i: int|
        0 <= i < commit_ids@.len() && (#[trigger] commit_ids@[i])@ == graph[p as int].commit_id
}

/// Of the latest commits there are as many as are asked for, or all candidates where there are fewer.
/// Each of them has a later time than each other candidate, in milliseconds since the epoch, or the
/// same time and a higher position. Nothing else of a commit counts.
pub proof fn law_latest_by_time(
    store: &Store,
    graph: Seq<IndexedCommit>,
    visible_heads: Set<u32>,
    candidates: Rc<RevsetExpression>,
    count: usize,
    p: u32,
    q: u32,
)
    ensures
        ({
            let all = semantics::denotation(store, graph, visible_heads, &*candidates);
            let latest = semantics::denotation(
                store,
                graph,
                visible_heads,
                &RevsetExpression::Latest { candidates, count },
            );
            let time_p = store.commit(graph[p as int].commit_id).committer.timestamp.timestamp.0;
            let time_q = store.commit(graph[q as int].commit_id).committer.timestamp.timestamp.0;
            &&& latest.contains(p) ==> all.contains(p)
            &&& latest.len() == if count < all.len() {
                count as nat
            } else {
                all.len()
            }
            &&& latest.contains(p) && all.contains(q) && !latest.contains(q) ==> time_p > time_q || (
            time_p == time_q && p > q)
        }),
{
    let set = semantics::denotation(store, graph, visible_heads, &*candidates);
    laws::law_number_of_latest(store, graph, set, count as nat);
    let latest = semantics::latest(store, graph, set, count as nat);
    if latest.contains(p) && set.contains(q) && !latest.contains(q) {
        laws::law_latest_are_later(store, graph, set, count as nat, p, q);
    }
}

/// What a condition picks is visible and meets the condition, and all that does is picked.
pub proof fn law_members_of_filter(
    store: &Store,
    graph: Seq<IndexedCommit>,
    visible_heads: Set<u32>,
    condition: RevsetFilterPredicate,
    p: u32,
)
    ensures
        ({
            let all = semantics::denotation(store, graph, visible_heads, &RevsetExpression::All);
            let picked = semantics::denotation(
                store,
                graph,
                visible_heads,
                &RevsetExpression::Filter(condition),
            );
            &&& picked.contains(p) <==> all.contains(p) && filter::filter_holds(
                store,
                condition,
                graph[p as int],
            )
        }),
{
}

} // verus!
