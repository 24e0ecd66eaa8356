//! The commit graph as a mathematical object: generations, ancestors and descendants.

use vstd::prelude::*;

verus! {

/// What the index records of one commit.
pub struct IndexedCommit {
    pub commit_id: Seq<u8>,
    pub change_id: Seq<u8>,
    /// The positions of the parents.
    pub parents: Seq<u32>,
}

/// Parents come before their children, and no two commits have the same identifier.
pub open spec fn is_graph(graph: Seq<IndexedCommit>) -> bool {
    &&& graph.len() <= u32::MAX
    &&& forall|child: int, i: int|
        #![trigger graph[child].parents[i]]
        0 <= child < graph.len() && 0 <= i < graph[child].parents.len()
            ==> graph[child].parents[i] < child
    &&& forall|p: int, q: int|
        #![trigger graph[p].commit_id, graph[q].commit_id]
        0 <= p < graph.len() && 0 <= q < graph.len() && graph[p].commit_id == graph[q].commit_id
            ==> p == q
}

/// Every position of the set is one of a commit.
pub open spec fn in_graph(graph: Seq<IndexedCommit>, positions: Set<u32>) -> bool {
    forall|p: u32| #[trigger] positions.contains(p) ==> p < graph.len()
}

/// Whether the commit at `parent` is a parent of the one at `child`.
pub open spec fn is_parent(graph: Seq<IndexedCommit>, child: u32, parent: u32) -> bool {
    child < graph.len() && graph[child as int].parents.contains(parent)
}

/// Whether some path of `generation` steps, each to a parent, leads from one of the heads to `p`.
pub open spec fn at_generation(
    graph: Seq<IndexedCommit>,
    heads: Set<u32>,
    generation: nat,
    p: u32,
) -> bool
    decreases generation,
{
    if generation == 0 {
        heads.contains(p)
    } else {
        exists|child: u32|
            at_generation(graph, heads, (generation - 1) as nat, child) && #[trigger] is_parent(
                graph,
                child,
                p,
            )
    }
}

/// The ancestors of the heads, the heads included.
pub open spec fn ancestors(graph: Seq<IndexedCommit>, heads: Set<u32>) -> Set<u32> {
    Set::new(|p: u32| exists|generation: nat| at_generation(graph, heads, generation, p))
}

/// The ancestors that some path of at least `start` and fewer than `end` steps leads to.
pub open spec fn ancestors_within(
    graph: Seq<IndexedCommit>,
    heads: Set<u32>,
    start: nat,
    end: nat,
) -> Set<u32> {
    Set::new(
        |p: u32|
            exists|generation: nat|
                start <= generation < end && at_generation(graph, heads, generation, p),
    )
}

/// Whether `a` is an ancestor of `d`, or `d` itself.
pub open spec fn is_ancestor(graph: Seq<IndexedCommit>, a: u32, d: u32) -> bool {
    ancestors(graph, set![d]).contains(a)
}

/// The parents of the commits of a set.
pub open spec fn parents_of(graph: Seq<IndexedCommit>, children: Set<u32>) -> Set<u32> {
    Set::new(|p: u32| exists|child: u32| children.contains(child) && is_parent(graph, child, p))
}

/// The commits of the set that are no ancestor of another commit of the set.
pub open spec fn heads_of(graph: Seq<IndexedCommit>, set: Set<u32>) -> Set<u32> {
    set.filter(
        |p: u32| forall|q: u32| #[trigger] set.contains(q) && is_ancestor(graph, p, q) ==> p == q,
    )
}

/// The commits of the set that are no descendant of another commit of the set.
pub open spec fn roots_of(graph: Seq<IndexedCommit>, set: Set<u32>) -> Set<u32> {
    set.filter(
        |p: u32| forall|q: u32| #[trigger] set.contains(q) && is_ancestor(graph, q, p) ==> p == q,
    )
}

/// Whether the commit is one of the roots, or descends from one.
pub open spec fn descends_from(graph: Seq<IndexedCommit>, roots: Set<u32>, p: u32) -> bool {
    exists|root: u32| #[trigger] roots.contains(root) && is_ancestor(graph, root, p)
}

/// The ancestors of the heads that descend from a root, or are one.
pub open spec fn dag_range(
    graph: Seq<IndexedCommit>,
    roots: Set<u32>,
    heads: Set<u32>,
) -> Set<u32> {
    ancestors(graph, heads).filter(|p: u32| descends_from(graph, roots, p))
}

/// The commits of the set that have a parent among the roots.
pub open spec fn children_in(
    graph: Seq<IndexedCommit>,
    roots: Set<u32>,
    set: Set<u32>,
) -> Set<u32> {
    set.filter(|p: u32| exists|root: u32| #[trigger] roots.contains(root) && is_parent(graph, p, root))
}

/// The heads are among their ancestors, and so are the parents of each ancestor.
pub proof fn lemma_ancestors_closed(graph: Seq<IndexedCommit>, heads: Set<u32>)
    ensures
        heads.subset_of(ancestors(graph, heads)),
        forall|child: u32, p: u32|
            ancestors(graph, heads).contains(child) && #[trigger] is_parent(graph, child, p)
                ==> ancestors(graph, heads).contains(p),
{
    assert forall|p: u32| heads.contains(p) implies ancestors(graph, heads).contains(p) by {
        assert(at_generation(graph, heads, 0, p));
    }
    assert forall|child: u32, p: u32|
        ancestors(graph, heads).contains(child) && #[trigger] is_parent(
            graph,
            child,
            p,
        ) implies ancestors(graph, heads).contains(p) by {
        let n = choose|n: nat| at_generation(graph, heads, n, child);
        assert(at_generation(graph, heads, n + 1, p));
    }
}

proof fn lemma_generation_in_closed(
    graph: Seq<IndexedCommit>,
    heads: Set<u32>,
    set: Set<u32>,
    n: nat,
    p: u32,
)
    requires
        heads.subset_of(set),
        forall|child: u32, p: u32|
            set.contains(child) && #[trigger] is_parent(graph, child, p) ==> set.contains(p),
        at_generation(graph, heads, n, p),
    ensures
        set.contains(p),
    decreases n,
{
    if n > 0 {
        let child = choose|child: u32|
            at_generation(graph, heads, (n - 1) as nat, child) && #[trigger] is_parent(
                graph,
                child,
                p,
            );
        lemma_generation_in_closed(graph, heads, set, (n - 1) as nat, child);
    }
}

/// The ancestors are the least set that holds the heads and the parents of what it holds.
pub proof fn lemma_ancestors_least(graph: Seq<IndexedCommit>, heads: Set<u32>, set: Set<u32>)
    requires
        heads.subset_of(set),
        forall|child: u32, p: u32|
            set.contains(child) && #[trigger] is_parent(graph, child, p) ==> set.contains(p),
    ensures
        ancestors(graph, heads).subset_of(set),
{
    assert forall|p: u32| ancestors(graph, heads).contains(p) implies set.contains(p) by {
        let n = choose|n: nat| at_generation(graph, heads, n, p);
        lemma_generation_in_closed(graph, heads, set, n, p);
    }
}

/// Each step to a parent goes down by at least one position.
pub proof fn lemma_generation_bound(
    graph: Seq<IndexedCommit>,
    heads: Set<u32>,
    n: nat,
    p: u32,
    bound: int,
)
    requires
        is_graph(graph),
        forall|h: u32| #[trigger] heads.contains(h) ==> h < bound,
        at_generation(graph, heads, n, p),
    ensures
        p + n < bound,
    decreases n,
{
    if n > 0 {
        let child = choose|child: u32|
            at_generation(graph, heads, (n - 1) as nat, child) && #[trigger] is_parent(
                graph,
                child,
                p,
            );
        lemma_generation_bound(graph, heads, (n - 1) as nat, child, bound);
        let i = choose|i: int|
            0 <= i < graph[child as int].parents.len() && graph[child as int].parents[i] == p;
        assert(graph[child as int].parents[i] < child);
    }
}

pub proof fn lemma_ancestors_in_graph(graph: Seq<IndexedCommit>, heads: Set<u32>)
    requires
        is_graph(graph),
        in_graph(graph, heads),
    ensures
        in_graph(graph, ancestors(graph, heads)),
{
    assert forall|p: u32| #[trigger] ancestors(graph, heads).contains(p) implies p < graph.len() by {
        let n = choose|n: nat| at_generation(graph, heads, n, p);
        lemma_generation_bound(graph, heads, n, p, graph.len() as int);
    }
}

/// A parent is before its child.
pub proof fn lemma_parent_below(graph: Seq<IndexedCommit>, child: u32, p: u32)
    requires
        is_graph(graph),
        is_parent(graph, child, p),
    ensures
        p < child,
{
    let parents = graph[child as int].parents;
    let i = choose|i: int| 0 <= i < parents.len() && parents[i] == p;
    assert(graph[child as int].parents[i] < child);
}

proof fn lemma_generation_from_one(
    graph: Seq<IndexedCommit>,
    heads: Set<u32>,
    n: nat,
    p: u32,
) -> (head: u32)
    requires
        at_generation(graph, heads, n, p),
    ensures
        heads.contains(head),
        at_generation(graph, set![head], n, p),
    decreases n,
{
    if n == 0 {
        p
    } else {
        let child = choose|child: u32|
            at_generation(graph, heads, (n - 1) as nat, child) && #[trigger] is_parent(
                graph,
                child,
                p,
            );
        lemma_generation_from_one(graph, heads, (n - 1) as nat, child)
    }
}

proof fn lemma_generation_monotone(
    graph: Seq<IndexedCommit>,
    few: Set<u32>,
    many: Set<u32>,
    n: nat,
    p: u32,
)
    requires
        few.subset_of(many),
        at_generation(graph, few, n, p),
    ensures
        at_generation(graph, many, n, p),
    decreases n,
{
    if n > 0 {
        let child = choose|child: u32|
            at_generation(graph, few, (n - 1) as nat, child) && #[trigger] is_parent(
                graph,
                child,
                p,
            );
        lemma_generation_monotone(graph, few, many, (n - 1) as nat, child);
    }
}

/// An ancestor of a set is an ancestor of one of its commits.
pub proof fn lemma_ancestors_of_one(graph: Seq<IndexedCommit>, heads: Set<u32>, p: u32)
    ensures
        ancestors(graph, heads).contains(p) <==> exists|head: u32| #[trigger]
            heads.contains(head) && is_ancestor(graph, p, head),
{
    if ancestors(graph, heads).contains(p) {
        let n = choose|n: nat| at_generation(graph, heads, n, p);
        let head = lemma_generation_from_one(graph, heads, n, p);
        assert(heads.contains(head) && is_ancestor(graph, p, head));
    }
    if exists|head: u32| #[trigger] heads.contains(head) && is_ancestor(graph, p, head) {
        let head = choose|head: u32| #[trigger] heads.contains(head) && is_ancestor(graph, p, head);
        let n = choose|n: nat| at_generation(graph, set![head], n, p);
        lemma_generation_monotone(graph, set![head], heads, n, p);
    }
}

/// Ancestors of ancestors are ancestors.
pub proof fn lemma_ancestors_transitive(graph: Seq<IndexedCommit>, heads: Set<u32>, p: u32, q: u32)
    requires
        is_ancestor(graph, q, p),
        ancestors(graph, heads).contains(p),
    ensures
        ancestors(graph, heads).contains(q),
{
    lemma_ancestors_closed(graph, heads);
    lemma_ancestors_least(graph, set![p], ancestors(graph, heads));
}

/// An ancestor is the commit itself, or it is below it and an ancestor of one of its parents.
pub proof fn lemma_ancestor_step(graph: Seq<IndexedCommit>, a: u32, d: u32)
    requires
        is_graph(graph),
    ensures
        is_ancestor(graph, a, d) <==> a == d || exists|p: u32| #[trigger]
            is_parent(graph, d, p) && is_ancestor(graph, a, p),
        is_ancestor(graph, a, d) && a != d ==> a < d,
{
    let one = set![d];
    lemma_ancestors_closed(graph, one);
    if is_ancestor(graph, a, d) && a != d {
        let n = choose|n: nat| at_generation(graph, one, n, a);
        lemma_generation_bound(graph, one, n, a, d + 1);
        lemma_generation_shift(graph, one, (n - 1) as nat, a);
        let p = lemma_generation_from_one(graph, parents_of(graph, one), (n - 1) as nat, a);
        assert(is_parent(graph, d, p) && is_ancestor(graph, a, p));
    }
    if exists|p: u32| #[trigger] is_parent(graph, d, p) && is_ancestor(graph, a, p) {
        let p = choose|p: u32| #[trigger] is_parent(graph, d, p) && is_ancestor(graph, a, p);
        lemma_ancestors_transitive(graph, one, p, a);
    }
}

/// To go up one step more from a set is to go up from its parents.
pub proof fn lemma_generation_shift(
    graph: Seq<IndexedCommit>,
    heads: Set<u32>,
    n: nat,
    p: u32,
)
    ensures
        at_generation(graph, heads, n + 1, p) <==> at_generation(
            graph,
            parents_of(graph, heads),
            n,
            p,
        ),
    decreases n,
{
    let parents = parents_of(graph, heads);
    if n == 0 {
        assert(at_generation(graph, heads, 1, p) <==> parents.contains(p)) by {
            if at_generation(graph, heads, 1, p) {
                let child = choose|child: u32|
                    at_generation(graph, heads, 0, child) && #[trigger] is_parent(graph, child, p);
                assert(heads.contains(child));
            }
            if parents.contains(p) {
                let child = choose|child: u32|
                    heads.contains(child) && #[trigger] is_parent(graph, child, p);
                assert(at_generation(graph, heads, 0, child));
            }
        }
    } else {
        let m = (n - 1) as nat;
        if at_generation(graph, heads, n + 1, p) {
            let child = choose|child: u32|
                at_generation(graph, heads, n, child) && #[trigger] is_parent(graph, child, p);
            lemma_generation_shift(graph, heads, m, child);
            assert(at_generation(graph, parents, m, child));
        }
        if at_generation(graph, parents, n, p) {
            let child = choose|child: u32|
                at_generation(graph, parents, m, child) && #[trigger] is_parent(graph, child, p);
            lemma_generation_shift(graph, heads, m, child);
            assert(at_generation(graph, heads, n, child));
        }
    }
}

/// What lies above the parents of a set are the ancestors of its commits other than themselves.
pub proof fn lemma_strict_ancestors(graph: Seq<IndexedCommit>, set: Set<u32>, p: u32)
    requires
        is_graph(graph),
    ensures
        ancestors(graph, parents_of(graph, set)).contains(p) <==> exists|q: u32| #[trigger]
            set.contains(q) && p != q && is_ancestor(graph, p, q),
{
    let direct = parents_of(graph, set);
    lemma_ancestors_of_one(graph, direct, p);
    if ancestors(graph, direct).contains(p) {
        let parent = choose|parent: u32| #[trigger]
            direct.contains(parent) && is_ancestor(graph, p, parent);
        let q = choose|q: u32| set.contains(q) && #[trigger] is_parent(graph, q, parent);
        lemma_ancestor_step(graph, p, q);
        lemma_ancestor_step(graph, p, parent);
        lemma_parent_below(graph, q, parent);
        assert(set.contains(q) && p != q && is_ancestor(graph, p, q));
    }
    if exists|q: u32| #[trigger] set.contains(q) && p != q && is_ancestor(graph, p, q) {
        let q = choose|q: u32| #[trigger] set.contains(q) && p != q && is_ancestor(graph, p, q);
        lemma_ancestor_step(graph, p, q);
        let parent = choose|parent: u32| #[trigger]
            is_parent(graph, q, parent) && is_ancestor(graph, p, parent);
        assert(direct.contains(parent));
    }
}

/// Ancestors at some distances are ancestors, and at all distances they are all ancestors.
pub proof fn lemma_ancestors_within(
    graph: Seq<IndexedCommit>,
    heads: Set<u32>,
    start: nat,
    end: nat,
)
    ensures
        ancestors_within(graph, heads, start, end).subset_of(ancestors(graph, heads)),
        is_graph(graph) && in_graph(graph, heads) && start == 0 && graph.len() <= end
            ==> ancestors_within(graph, heads, start, end) == ancestors(graph, heads),
{
    let some = ancestors_within(graph, heads, start, end);
    let all = ancestors(graph, heads);
    assert forall|p: u32| some.contains(p) implies all.contains(p) by {
        let n = choose|n: nat| start <= n < end && at_generation(graph, heads, n, p);
        assert(at_generation(graph, heads, n, p));
    }
    if is_graph(graph) && in_graph(graph, heads) && start == 0 && graph.len() <= end {
        assert forall|p: u32| all.contains(p) implies some.contains(p) by {
            let n = choose|n: nat| at_generation(graph, heads, n, p);
            lemma_generation_bound(graph, heads, n, p, graph.len() as int);
            assert(start <= n < end && at_generation(graph, heads, n, p));
        }
        assert(some =~= all);
    }
}

/// A visible child of a root is among the descendants of the roots that are visible.
pub proof fn lemma_children_in_dag_range(
    graph: Seq<IndexedCommit>,
    roots: Set<u32>,
    heads: Set<u32>,
)
    requires
        is_graph(graph),
    ensures
        children_in(graph, roots, dag_range(graph, roots, heads)) == children_in(
            graph,
            roots,
            ancestors(graph, heads),
        ),
{
    let all = ancestors(graph, heads);
    let range = dag_range(graph, roots, heads);
    assert forall|p: u32| children_in(graph, roots, all).contains(p) implies range.contains(p) by {
        let root = choose|root: u32| #[trigger] roots.contains(root) && is_parent(graph, p, root);
        lemma_ancestor_step(graph, root, root);
        lemma_ancestor_step(graph, root, p);
        assert(roots.contains(root) && is_ancestor(graph, root, p));
    }
    assert(children_in(graph, roots, range) =~= children_in(graph, roots, all));
}

/// A commit of a set is a root of the set if and only if none of its parents lies between commits
/// of the set.
pub proof fn lemma_roots_by_parents(graph: Seq<IndexedCommit>, set: Set<u32>, p: u32)
    requires
        is_graph(graph),
        set.contains(p),
    ensures
        roots_of(graph, set).contains(p) <==> !exists|parent: u32| #[trigger]
            dag_range(graph, set, set).contains(parent) && is_parent(graph, p, parent),
{
    let range = dag_range(graph, set, set);
    if exists|parent: u32| #[trigger] range.contains(parent) && is_parent(graph, p, parent) {
        let parent = choose|parent: u32| #[trigger]
            range.contains(parent) && is_parent(graph, p, parent);
        let root = choose|root: u32| #[trigger]
            set.contains(root) && is_ancestor(graph, root, parent);
        lemma_ancestor_step(graph, root, p);
        lemma_ancestor_step(graph, root, parent);
        lemma_parent_below(graph, p, parent);
        assert(set.contains(root) && is_ancestor(graph, root, p) && root != p);
    }
    if !roots_of(graph, set).contains(p) {
        let q = choose|q: u32| #[trigger] set.contains(q) && is_ancestor(graph, q, p) && p != q;
        lemma_ancestor_step(graph, q, p);
        let parent = choose|parent: u32| #[trigger]
            is_parent(graph, p, parent) && is_ancestor(graph, q, parent);
        lemma_ancestors_closed(graph, set);
        assert(ancestors(graph, set).contains(parent));
        assert(set.contains(q) && is_ancestor(graph, q, parent));
        assert(range.contains(parent));
    }
}

} // verus!
