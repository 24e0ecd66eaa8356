//! Laws of the graph of commits in terms of paths: sequences of positions in which each commit but
//! the first is a parent of the one before it.

use crate::graph;
use crate::graph::IndexedCommit;
use vstd::prelude::*;

verus! {

/// A path of `n` steps from one of the heads leads to what is at generation `n`.
proof fn lemma_path_to_generation(graph: Seq<IndexedCommit>, heads: Set<u32>, path: Seq<u32>)
    requires
        path.len() > 0,
        heads.contains(path[0]),
        forall|i: int| 0 <= i < path.len() - 1 ==> (#[trigger] path[i]) < graph.len(),
        forall|i: int, j: int|
            #![trigger path[i], path[j]]
            0 <= i < j < path.len() && j < i + 2
                ==> graph[path[i] as int].parents.contains(path[j]),
    ensures
        graph::at_generation(graph, heads, (path.len() - 1) as nat, path.last()),
    decreases path.len(),
{
    if path.len() > 1 {
        let shorter = path.drop_last();
        assert(shorter.last() == path[path.len() - 2]);
        assert(path.last() == path[path.len() - 1]);
        lemma_path_to_generation(graph, heads, shorter);
        assert(graph::is_parent(graph, shorter.last(), path.last()));
    }
}

/// To what is at generation `n` a path of `n` steps leads.
proof fn lemma_generation_to_path(
    graph: Seq<IndexedCommit>,
    heads: Set<u32>,
    n: nat,
    p: u32,
) -> (path: Seq<u32>)
    requires
        graph::at_generation(graph, heads, n, p),
    ensures
        path.len() == n + 1,
        heads.contains(path[0]),
        path.last() == p,
        forall|i: int| 0 <= i < path.len() - 1 ==> (#[trigger] path[i]) < graph.len(),
        forall|i: int, j: int|
            #![trigger path[i], path[j]]
            0 <= i < j < path.len() && j < i + 2
                ==> graph[path[i] as int].parents.contains(path[j]),
    decreases n,
{
    if n == 0 {
        seq![p]
    } else {
        let child = choose|child: u32|
            graph::at_generation(graph, heads, (n - 1) as nat, child) && #[trigger] graph::is_parent(
                graph,
                child,
                p,
            );
        let shorter = lemma_generation_to_path(graph, heads, (n - 1) as nat, child);
        let path = shorter.push(p);
        assert forall|i: int| 0 <= i < path.len() - 1 implies (#[trigger] path[i]) < graph.len() by {
            assert(path[i] == shorter[i]);
            if i == shorter.len() - 1 {
                assert(shorter[i] == shorter.last());
            }
        }
        assert forall|i: int, j: int|
            #![trigger path[i], path[j]]
            0 <= i < j < path.len() && j < i + 2 implies graph[path[i] as int].parents.contains(
            path[j],
        ) by {
            assert(path[i] == shorter[i]);
            if j < shorter.len() {
                assert(path[j] == shorter[j]);
            } else {
                assert(shorter[i] == shorter.last());
            }
        }
        path
    }
}

/// Every commit that a path from a head leads to is an ancestor, at the distance of the number of
/// steps.
pub proof fn law_path_leads_to_ancestor(
    graph: Seq<IndexedCommit>,
    heads: Set<u32>,
    start: nat,
    end: nat,
    path: Seq<u32>,
)
    requires
        path.len() > 0,
        heads.contains(path[0]),
        forall|i: int| 0 <= i < path.len() - 1 ==> (#[trigger] path[i]) < graph.len(),
        forall|i: int, j: int|
            #![trigger path[i], path[j]]
            0 <= i < j < path.len() && j < i + 2
                ==> graph[path[i] as int].parents.contains(path[j]),
    ensures
        graph::ancestors(graph, heads).contains(path.last()),
        start <= path.len() - 1 < end ==> graph::ancestors_within(
            graph,
            heads,
            start,
            end,
        ).contains(path.last()),
{
    lemma_path_to_generation(graph, heads, path);
    let n = (path.len() - 1) as nat;
    assert(graph::at_generation(graph, heads, n, path.last()));
}

/// To every ancestor a path from a head leads.
pub proof fn law_ancestor_has_path(graph: Seq<IndexedCommit>, heads: Set<u32>, p: u32) -> (path:
    Seq<u32>)
    requires
        graph::ancestors(graph, heads).contains(p),
    ensures
        path.len() > 0,
        heads.contains(path[0]),
        path.last() == p,
        forall|i: int| 0 <= i < path.len() - 1 ==> (#[trigger] path[i]) < graph.len(),
        forall|i: int, j: int|
            #![trigger path[i], path[j]]
            0 <= i < j < path.len() && j < i + 2
                ==> graph[path[i] as int].parents.contains(path[j]),
{
    let n = choose|n: nat| graph::at_generation(graph, heads, n, p);
    lemma_generation_to_path(graph, heads, n, p)
}

/// To every ancestor at a distance in a range a path of such a number of steps leads.
pub proof fn law_ancestor_within_has_path(
    graph: Seq<IndexedCommit>,
    heads: Set<u32>,
    start: nat,
    end: nat,
    p: u32,
) -> (path: Seq<u32>)
    requires
        graph::ancestors_within(graph, heads, start, end).contains(p),
    ensures
        start <= path.len() - 1 < end,
        heads.contains(path[0]),
        path.last() == p,
        forall|i: int| 0 <= i < path.len() - 1 ==> (#[trigger] path[i]) < graph.len(),
        forall|i: int, j: int|
            #![trigger path[i], path[j]]
            0 <= i < j < path.len() && j < i + 2
                ==> graph[path[i] as int].parents.contains(path[j]),
{
    let n = choose|n: nat| start <= n < end && graph::at_generation(graph, heads, n, p);
    lemma_generation_to_path(graph, heads, n, p)
}

/// What a path leads to is an ancestor of the commit that it starts from.
pub proof fn law_is_ancestor_by_path(graph: Seq<IndexedCommit>, path: Seq<u32>)
    requires
        path.len() > 0,
        forall|i: int| 0 <= i < path.len() - 1 ==> (#[trigger] path[i]) < graph.len(),
        forall|i: int, j: int|
            #![trigger path[i], path[j]]
            0 <= i < j < path.len() && j < i + 2
                ==> graph[path[i] as int].parents.contains(path[j]),
    ensures
        graph::is_ancestor(graph, path.last(), path[0]),
{
    law_path_leads_to_ancestor(graph, set![path[0]], 0, 0, path);
}

/// From a commit a path leads to each of its ancestors.
pub proof fn law_path_to_ancestor(graph: Seq<IndexedCommit>, a: u32, d: u32) -> (path: Seq<u32>)
    requires
        graph::is_ancestor(graph, a, d),
    ensures
        path.len() > 0,
        path[0] == d,
        path.last() == a,
        forall|i: int| 0 <= i < path.len() - 1 ==> (#[trigger] path[i]) < graph.len(),
        forall|i: int, j: int|
            #![trigger path[i], path[j]]
            0 <= i < j < path.len() && j < i + 2
                ==> graph[path[i] as int].parents.contains(path[j]),
{
    law_ancestor_has_path(graph, set![d], a)
}

/// No path leads from a commit of a set to a head of the set, other than from the head itself.
pub proof fn law_no_path_to_head(graph: Seq<IndexedCommit>, set: Set<u32>, path: Seq<u32>)
    requires
        path.len() > 0,
        set.contains(path[0]),
        path[0] != path.last(),
        forall|i: int| 0 <= i < path.len() - 1 ==> (#[trigger] path[i]) < graph.len(),
        forall|i: int, j: int|
            #![trigger path[i], path[j]]
            0 <= i < j < path.len() && j < i + 2
                ==> graph[path[i] as int].parents.contains(path[j]),
    ensures
        !graph::heads_of(graph, set).contains(path.last()),
{
    law_is_ancestor_by_path(graph, path);
}

/// To a commit of a set that is no head of it a path from another commit of the set leads. Heads
/// are commits of the set.
pub proof fn law_path_to_non_head(graph: Seq<IndexedCommit>, set: Set<u32>, p: u32) -> (path:
    Seq<u32>)
    ensures
        graph::heads_of(graph, set).contains(p) ==> set.contains(p),
        set.contains(p) && !graph::heads_of(graph, set).contains(p) ==> {
            &&& path.len() > 0
            &&& set.contains(path[0])
            &&& path[0] != p
            &&& path.last() == p
            &&& forall|i: int| 0 <= i < path.len() - 1 ==> (#[trigger] path[i]) < graph.len()
            &&& forall|i: int, j: int|
                #![trigger path[i], path[j]]
                0 <= i < j < path.len() && j < i + 2 ==> graph[path[i] as int].parents.contains(
                    path[j],
                )
        },
{
    if set.contains(p) && !graph::heads_of(graph, set).contains(p) {
        let q = choose|q: u32| #[trigger]
            set.contains(q) && graph::is_ancestor(graph, p, q) && p != q;
        law_path_to_ancestor(graph, p, q)
    } else {
        seq![p]
    }
}

/// No path leads from a root of a set to a commit of the set, other than to the root itself.
pub proof fn law_no_path_from_root(graph: Seq<IndexedCommit>, set: Set<u32>, path: Seq<u32>)
    requires
        path.len() > 0,
        set.contains(path.last()),
        path[0] != path.last(),
        forall|i: int| 0 <= i < path.len() - 1 ==> (#[trigger] path[i]) < graph.len(),
        forall|i: int, j: int|
            #![trigger path[i], path[j]]
            0 <= i < j < path.len() && j < i + 2
                ==> graph[path[i] as int].parents.contains(path[j]),
    ensures
        !graph::roots_of(graph, set).contains(path[0]),
{
    law_is_ancestor_by_path(graph, path);
}

/// From a commit of a set that is no root of it a path leads to another commit of the set. Roots
/// are commits of the set.
pub proof fn law_path_from_non_root(graph: Seq<IndexedCommit>, set: Set<u32>, p: u32) -> (path:
    Seq<u32>)
    ensures
        graph::roots_of(graph, set).contains(p) ==> set.contains(p),
        set.contains(p) && !graph::roots_of(graph, set).contains(p) ==> {
            &&& path.len() > 0
            &&& path[0] == p
            &&& path.last() != p
            &&& set.contains(path.last())
            &&& forall|i: int| 0 <= i < path.len() - 1 ==> (#[trigger] path[i]) < graph.len()
            &&& forall|i: int, j: int|
                #![trigger path[i], path[j]]
                0 <= i < j < path.len() && j < i + 2 ==> graph[path[i] as int].parents.contains(
                    path[j],
                )
        },
{
    if set.contains(p) && !graph::roots_of(graph, set).contains(p) {
        let q = choose|q: u32| #[trigger]
            set.contains(q) && graph::is_ancestor(graph, q, p) && p != q;
        law_path_to_ancestor(graph, q, p)
    } else {
        seq![p]
    }
}

/// What a path from a head to a root passes lies between them.
pub proof fn law_between_by_paths(
    graph: Seq<IndexedCommit>,
    roots: Set<u32>,
    heads: Set<u32>,
    above: Seq<u32>,
    below: Seq<u32>,
)
    requires
        above.len() > 0,
        below.len() > 0,
        heads.contains(above[0]),
        above.last() == below[0],
        roots.contains(below.last()),
        forall|i: int| 0 <= i < above.len() - 1 ==> (#[trigger] above[i]) < graph.len(),
        forall|i: int, j: int|
            #![trigger above[i], above[j]]
            0 <= i < j < above.len() && j < i + 2
                ==> graph[above[i] as int].parents.contains(above[j]),
        forall|i: int| 0 <= i < below.len() - 1 ==> (#[trigger] below[i]) < graph.len(),
        forall|i: int, j: int|
            #![trigger below[i], below[j]]
            0 <= i < j < below.len() && j < i + 2
                ==> graph[below[i] as int].parents.contains(below[j]),
    ensures
        graph::dag_range(graph, roots, heads).contains(below[0]),
{
    law_path_leads_to_ancestor(graph, heads, 0, 0, above);
    law_is_ancestor_by_path(graph, below);
    assert(roots.contains(below.last()) && graph::is_ancestor(graph, below.last(), below[0]));
}

/// Through what lies between roots and heads a path leads from a head to a root.
pub proof fn law_paths_of_between(
    graph: Seq<IndexedCommit>,
    roots: Set<u32>,
    heads: Set<u32>,
    p: u32,
) -> (paths: (Seq<u32>, Seq<u32>))
    requires
        graph::dag_range(graph, roots, heads).contains(p),
    ensures
        ({
            let (above, below) = paths;
            &&& above.len() > 0
            &&& below.len() > 0
            &&& heads.contains(above[0])
            &&& above.last() == p
            &&& below[0] == p
            &&& roots.contains(below.last())
            &&& forall|i: int| 0 <= i < above.len() - 1 ==> (#[trigger] above[i]) < graph.len()
            &&& forall|i: int, j: int|
                #![trigger above[i], above[j]]
                0 <= i < j < above.len() && j < i + 2 ==> graph[above[i] as int].parents.contains(
                    above[j],
                )
            &&& forall|i: int| 0 <= i < below.len() - 1 ==> (#[trigger] below[i]) < graph.len()
            &&& forall|i: int, j: int|
                #![trigger below[i], below[j]]
                0 <= i < j < below.len() && j < i + 2 ==> graph[below[i] as int].parents.contains(
                    below[j],
                )
        }),
{
    let above = law_ancestor_has_path(graph, heads, p);
    assert(graph::descends_from(graph, roots, p));
    let root = choose|root: u32| #[trigger]
        roots.contains(root) && graph::is_ancestor(graph, root, p);
    let below = law_path_to_ancestor(graph, root, p);
    (above, below)
}

/// A commit of a set with a parent among the roots, at whatever place in its list of parents, is a
/// child of the roots.
pub proof fn law_parent_among_roots(
    graph: Seq<IndexedCommit>,
    roots: Set<u32>,
    set: Set<u32>,
    p: u32,
    k: int,
)
    requires
        p < graph.len(),
        set.contains(p),
        0 <= k < graph[p as int].parents.len(),
        roots.contains(graph[p as int].parents[k]),
    ensures
        graph::children_in(graph, roots, set).contains(p),
{
    let root = graph[p as int].parents[k];
    assert(roots.contains(root) && graph::is_parent(graph, p, root));
}

/// A child of the roots is a commit of the set, and has a parent among the roots.
pub proof fn law_child_has_parent_among_roots(
    graph: Seq<IndexedCommit>,
    roots: Set<u32>,
    set: Set<u32>,
    p: u32,
) -> (k: int)
    requires
        graph::children_in(graph, roots, set).contains(p),
    ensures
        p < graph.len(),
        set.contains(p),
        0 <= k < graph[p as int].parents.len(),
        roots.contains(graph[p as int].parents[k]),
{
    let root = choose|root: u32| #[trigger]
        roots.contains(root) && graph::is_parent(graph, p, root);
    let parents = graph[p as int].parents;
    choose|k: int| 0 <= k < parents.len() && parents[k] == root
}

} // verus!
