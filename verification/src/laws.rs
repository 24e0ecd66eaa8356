//! Laws of the sets that revset expressions stand for.

use crate::expression;
use crate::expression::{RevsetExpression, RevsetFilterPredicate};
use crate::filter;
use crate::graph;
use crate::graph::IndexedCommit;
use crate::index;
use crate::iter;
use crate::object_id::CommitId;
use crate::semantics;
use crate::store::Store;
use core::ops::Range;
use std::rc::Rc;
use vstd::prelude::*;

verus! {

/// All visible commits are the visible heads and their ancestors, at whatever distance.
pub proof fn law_all_is_ancestors_of_visible_heads(
    store: &Store,
    graph: Seq<IndexedCommit>,
    visible_heads: Set<u32>,
    heads: Rc<RevsetExpression>,
    generation: Range<u64>,
)
    requires
        graph::is_graph(graph),
        graph::in_graph(graph, visible_heads),
        *heads is VisibleHeads,
        expression::is_full_range(generation),
    ensures
        semantics::denotation(store, graph, visible_heads, &RevsetExpression::All)
            == semantics::denotation(
            store,
            graph,
            visible_heads,
            &RevsetExpression::Ancestors { heads, generation },
        ),
{
    let ancestors = RevsetExpression::Ancestors { heads, generation };
    law_ancestors_at_all_distances(store, graph, visible_heads, heads, generation);
    assert(semantics::denotation(store, graph, visible_heads, &*heads) == visible_heads);
}

/// Over all distances, the ancestors of a set are all of its ancestors, the set included.
pub proof fn law_ancestors_at_all_distances(
    store: &Store,
    graph: Seq<IndexedCommit>,
    visible_heads: Set<u32>,
    heads: Rc<RevsetExpression>,
    generation: Range<u64>,
)
    requires
        graph::is_graph(graph),
        graph::in_graph(graph, visible_heads),
        expression::is_full_range(generation),
    ensures
        semantics::denotation(
            store,
            graph,
            visible_heads,
            &RevsetExpression::Ancestors { heads, generation },
        ) == graph::ancestors(graph, semantics::denotation(store, graph, visible_heads, &*heads)),
{
    let set = semantics::denotation(store, graph, visible_heads, &*heads);
    semantics::lemma_denotation_in_graph(store, graph, visible_heads, &*heads);
    graph::lemma_ancestors_within(graph, set, 0, u64::MAX as nat);
}

/// A range is made of the ancestors of its heads that are not ancestors of its roots.
pub proof fn law_range_is_difference_of_ancestors(
    store: &Store,
    graph: Seq<IndexedCommit>,
    visible_heads: Set<u32>,
    roots: Rc<RevsetExpression>,
    heads: Rc<RevsetExpression>,
    generation: Range<u64>,
    full: Range<u64>,
)
    requires
        graph::is_graph(graph),
        graph::in_graph(graph, visible_heads),
        expression::is_full_range(full),
    ensures
        semantics::denotation(
            store,
            graph,
            visible_heads,
            &RevsetExpression::Range { roots, heads, generation },
        ) == semantics::denotation(
            store,
            graph,
            visible_heads,
            &RevsetExpression::Ancestors { heads, generation },
        ).difference(
            semantics::denotation(
                store,
                graph,
                visible_heads,
                &RevsetExpression::Ancestors { heads: roots, generation: full },
            ),
        ),
{
    law_ancestors_at_all_distances(store, graph, visible_heads, roots, full);
}

/// What descends from a descendant of the roots descends from them.
proof fn lemma_descends_transitive(
    graph: Seq<IndexedCommit>,
    roots: Set<u32>,
    middle: u32,
    p: u32,
)
    requires
        graph::descends_from(graph, roots, middle),
        graph::is_ancestor(graph, middle, p),
    ensures
        graph::descends_from(graph, roots, p),
{
    let root = choose|root: u32| #[trigger]
        roots.contains(root) && graph::is_ancestor(graph, root, middle);
    graph::lemma_ancestors_transitive(graph, set![p], middle, root);
    assert(roots.contains(root) && graph::is_ancestor(graph, root, p));
}

/// Every commit of a set lies between commits of the set.
proof fn lemma_within_own_range(graph: Seq<IndexedCommit>, set: Set<u32>, p: u32)
    requires
        graph::is_graph(graph),
        set.contains(p),
    ensures
        graph::dag_range(graph, set, set).contains(p),
{
    graph::lemma_ancestors_closed(graph, set);
    graph::lemma_ancestor_step(graph, p, p);
    assert(set.contains(p) && graph::is_ancestor(graph, p, p));
}

/// What lies between what lies between commits of a set lies between them.
proof fn lemma_between_once(graph: Seq<IndexedCommit>, set: Set<u32>, between: Set<u32>, p: u32)
    requires
        graph::is_graph(graph),
        between == graph::dag_range(graph, set, set),
        graph::dag_range(graph, between, between).contains(p),
    ensures
        between.contains(p),
{
    assert(graph::ancestors(graph, between).contains(p));
    assert(graph::descends_from(graph, between, p));
    graph::lemma_ancestors_of_one(graph, between, p);
    let head = choose|head: u32| #[trigger]
        between.contains(head) && graph::is_ancestor(graph, p, head);
    graph::lemma_ancestors_transitive(graph, set, head, p);
    let middle = choose|middle: u32| #[trigger]
        between.contains(middle) && graph::is_ancestor(graph, middle, p);
    lemma_descends_transitive(graph, set, middle, p);
}

/// To connect a set keeps its commits, and to connect it once more adds nothing.
pub proof fn law_connected_once(
    store: &Store,
    graph: Seq<IndexedCommit>,
    visible_heads: Set<u32>,
    set: Rc<RevsetExpression>,
    connected: Rc<RevsetExpression>,
)
    requires
        graph::is_graph(graph),
        *connected == (RevsetExpression::DagRange { roots: set, heads: set }),
    ensures
        semantics::denotation(store, graph, visible_heads, &*set).subset_of(
            semantics::denotation(store, graph, visible_heads, &*connected),
        ),
        semantics::denotation(
            store,
            graph,
            visible_heads,
            &RevsetExpression::DagRange { roots: connected, heads: connected },
        ) == semantics::denotation(store, graph, visible_heads, &*connected),
{
    let inner = semantics::denotation(store, graph, visible_heads, &*set);
    let between = semantics::denotation(store, graph, visible_heads, &*connected);
    let again = semantics::denotation(
        store,
        graph,
        visible_heads,
        &RevsetExpression::DagRange { roots: connected, heads: connected },
    );
    assert forall|p: u32| inner.contains(p) implies between.contains(p) by {
        lemma_within_own_range(graph, inner, p);
    }
    assert forall|p: u32| again.contains(p) == between.contains(p) by {
        if between.contains(p) {
            lemma_within_own_range(graph, between, p);
        }
        if again.contains(p) {
            lemma_between_once(graph, inner, between, p);
        }
    }
    assert(again =~= between);
}

/// Above each commit of a set is a head of the set.
proof fn lemma_head_above(graph: Seq<IndexedCommit>, set: Set<u32>, p: u32) -> (head: u32)
    requires
        graph::is_graph(graph),
        graph::in_graph(graph, set),
        set.contains(p),
    ensures
        graph::heads_of(graph, set).contains(head),
        graph::is_ancestor(graph, p, head),
    decreases graph.len() - p,
{
    graph::lemma_ancestor_step(graph, p, p);
    if graph::heads_of(graph, set).contains(p) {
        p
    } else {
        let q = choose|q: u32| #[trigger] set.contains(q) && graph::is_ancestor(graph, p, q) && p != q;
        graph::lemma_ancestor_step(graph, p, q);
        let head = lemma_head_above(graph, set, q);
        graph::lemma_ancestors_transitive(graph, set![head], q, p);
        head
    }
}

/// Below each commit of a set is a root of the set.
proof fn lemma_root_below(graph: Seq<IndexedCommit>, set: Set<u32>, p: u32) -> (root: u32)
    requires
        graph::is_graph(graph),
        set.contains(p),
    ensures
        graph::roots_of(graph, set).contains(root),
        graph::is_ancestor(graph, root, p),
    decreases p,
{
    graph::lemma_ancestor_step(graph, p, p);
    if graph::roots_of(graph, set).contains(p) {
        p
    } else {
        let q = choose|q: u32| #[trigger] set.contains(q) && graph::is_ancestor(graph, q, p) && p != q;
        graph::lemma_ancestor_step(graph, q, p);
        let root = lemma_root_below(graph, set, q);
        graph::lemma_ancestors_transitive(graph, set![p], q, root);
        root
    }
}

/// The heads of a set are commits of it with the same ancestors, and are their own heads.
pub proof fn law_heads(
    store: &Store,
    graph: Seq<IndexedCommit>,
    visible_heads: Set<u32>,
    set: Rc<RevsetExpression>,
    heads: Rc<RevsetExpression>,
)
    requires
        graph::is_graph(graph),
        graph::in_graph(graph, visible_heads),
        *heads == RevsetExpression::Heads(set),
    ensures
        ({
            let all = semantics::denotation(store, graph, visible_heads, &*set);
            let some = semantics::denotation(store, graph, visible_heads, &*heads);
            &&& some.subset_of(all)
            &&& graph::ancestors(graph, some) == graph::ancestors(graph, all)
            &&& semantics::denotation(store, graph, visible_heads, &RevsetExpression::Heads(heads))
                == some
        }),
{
    let all = semantics::denotation(store, graph, visible_heads, &*set);
    let some = semantics::denotation(store, graph, visible_heads, &*heads);
    semantics::lemma_denotation_in_graph(store, graph, visible_heads, &*set);
    assert(some == graph::heads_of(graph, all));
    assert forall|p: u32| graph::ancestors(graph, all).contains(p) implies graph::ancestors(
        graph,
        some,
    ).contains(p) by {
        graph::lemma_ancestors_of_one(graph, all, p);
        let q = choose|q: u32| #[trigger] all.contains(q) && graph::is_ancestor(graph, p, q);
        let head = lemma_head_above(graph, all, q);
        graph::lemma_ancestors_transitive(graph, set![head], q, p);
        assert(some.contains(head) && graph::is_ancestor(graph, p, head));
        graph::lemma_ancestors_of_one(graph, some, p);
    }
    assert forall|p: u32| graph::ancestors(graph, some).contains(p) implies graph::ancestors(
        graph,
        all,
    ).contains(p) by {
        graph::lemma_ancestors_of_one(graph, some, p);
        let q = choose|q: u32| #[trigger] some.contains(q) && graph::is_ancestor(graph, p, q);
        assert(all.contains(q) && graph::is_ancestor(graph, p, q));
        graph::lemma_ancestors_of_one(graph, all, p);
    }
    assert(graph::ancestors(graph, some) =~= graph::ancestors(graph, all));
    assert(graph::heads_of(graph, some) =~= some);
}

/// The roots of a set are commits of it, each commit of it descends from one, and they are their
/// own roots.
pub proof fn law_roots(
    store: &Store,
    graph: Seq<IndexedCommit>,
    visible_heads: Set<u32>,
    set: Rc<RevsetExpression>,
    roots: Rc<RevsetExpression>,
)
    requires
        graph::is_graph(graph),
        *roots == RevsetExpression::Roots(set),
    ensures
        ({
            let all = semantics::denotation(store, graph, visible_heads, &*set);
            let some = semantics::denotation(store, graph, visible_heads, &*roots);
            &&& some.subset_of(all)
            &&& forall|p: u32| #[trigger]
                all.contains(p) ==> exists|root: u32| #[trigger]
                    some.contains(root) && graph::is_ancestor(graph, root, p)
            &&& semantics::denotation(store, graph, visible_heads, &RevsetExpression::Roots(roots))
                == some
        }),
{
    let all = semantics::denotation(store, graph, visible_heads, &*set);
    let some = semantics::denotation(store, graph, visible_heads, &*roots);
    assert(some == graph::roots_of(graph, all));
    assert forall|p: u32| #[trigger] all.contains(p) implies exists|root: u32| #[trigger]
        some.contains(root) && graph::is_ancestor(graph, root, p) by {
        let root = lemma_root_below(graph, all, p);
        assert(some.contains(root) && graph::is_ancestor(graph, root, p));
    }
    assert(graph::roots_of(graph, some) =~= some);
}

/// The children of a set are visible, and descend from it.
pub proof fn law_children_are_visible_descendants(
    store: &Store,
    graph: Seq<IndexedCommit>,
    visible_heads: Set<u32>,
    roots: Rc<RevsetExpression>,
    heads: Rc<RevsetExpression>,
)
    requires
        graph::is_graph(graph),
        *heads is VisibleHeads,
    ensures
        ({
            let children = semantics::denotation(
                store,
                graph,
                visible_heads,
                &RevsetExpression::Children(roots),
            );
            &&& children.subset_of(
                semantics::denotation(store, graph, visible_heads, &RevsetExpression::All),
            )
            &&& children.subset_of(
                semantics::denotation(
                    store,
                    graph,
                    visible_heads,
                    &RevsetExpression::DagRange { roots, heads },
                ),
            )
        }),
{
    let set = semantics::denotation(store, graph, visible_heads, &*roots);
    assert(semantics::denotation(store, graph, visible_heads, &*heads) == visible_heads);
    graph::lemma_children_in_dag_range(graph, set, visible_heads);
    let range = graph::dag_range(graph, set, visible_heads);
    let all = graph::ancestors(graph, visible_heads);
    assert forall|p: u32| graph::children_in(graph, set, all).contains(p) implies range.contains(
        p,
    ) by {
        assert(graph::children_in(graph, set, range).contains(p));
    }
}

/// What a set has in common with all visible commits is the set itself if and only if nothing of
/// it is hidden.
pub proof fn law_intersection_with_all(
    store: &Store,
    graph: Seq<IndexedCommit>,
    visible_heads: Set<u32>,
    all: Rc<RevsetExpression>,
    set: Rc<RevsetExpression>,
)
    requires
        *all is All,
    ensures
        semantics::denotation(
            store,
            graph,
            visible_heads,
            &RevsetExpression::Intersection(all, set),
        ) == semantics::denotation(store, graph, visible_heads, &*set)
            <==> semantics::denotation(store, graph, visible_heads, &*set).subset_of(
            graph::ancestors(graph, visible_heads),
        ),
{
    let some = semantics::denotation(store, graph, visible_heads, &*set);
    let visible = graph::ancestors(graph, visible_heads);
    assert(semantics::denotation(store, graph, visible_heads, &*all) == visible);
    if visible.intersect(some) == some {
        assert forall|p: u32| some.contains(p) implies visible.contains(p) by {
            assert(visible.intersect(some).contains(p));
        }
    }
    if some.subset_of(visible) {
        assert(visible.intersect(some) =~= some);
    }
}

/// A complement is what is left of all visible commits, and the complement of a complement is the
/// visible part of a set.
pub proof fn law_complement(
    store: &Store,
    graph: Seq<IndexedCommit>,
    visible_heads: Set<u32>,
    all: Rc<RevsetExpression>,
    set: Rc<RevsetExpression>,
    complement: Rc<RevsetExpression>,
)
    requires
        *all is All,
        *complement == RevsetExpression::NotIn(set),
    ensures
        semantics::denotation(store, graph, visible_heads, &*complement) == semantics::denotation(
            store,
            graph,
            visible_heads,
            &RevsetExpression::Difference(all, set),
        ),
        semantics::denotation(store, graph, visible_heads, &RevsetExpression::NotIn(complement))
            == semantics::denotation(
            store,
            graph,
            visible_heads,
            &RevsetExpression::Intersection(all, set),
        ),
{
    let some = semantics::denotation(store, graph, visible_heads, &*set);
    let visible = graph::ancestors(graph, visible_heads);
    assert(semantics::denotation(store, graph, visible_heads, &*all) == visible);
    assert(semantics::denotation(store, graph, visible_heads, &*complement) == visible.difference(
        some,
    ));
    assert(visible.difference(visible.difference(some)) =~= visible.intersect(some));
}

/// It does not matter which set of a union or of an intersection comes first, and a difference is
/// what the intersection leaves.
pub proof fn law_set_operations(
    store: &Store,
    graph: Seq<IndexedCommit>,
    visible_heads: Set<u32>,
    set1: Rc<RevsetExpression>,
    set2: Rc<RevsetExpression>,
    common: Rc<RevsetExpression>,
)
    requires
        *common == RevsetExpression::Intersection(set1, set2),
    ensures
        semantics::denotation(store, graph, visible_heads, &RevsetExpression::Union(set1, set2))
            == semantics::denotation(
            store,
            graph,
            visible_heads,
            &RevsetExpression::Union(set2, set1),
        ),
        semantics::denotation(store, graph, visible_heads, &*common) == semantics::denotation(
            store,
            graph,
            visible_heads,
            &RevsetExpression::Intersection(set2, set1),
        ),
        semantics::denotation(
            store,
            graph,
            visible_heads,
            &RevsetExpression::Difference(set1, set2),
        ) == semantics::denotation(
            store,
            graph,
            visible_heads,
            &RevsetExpression::Difference(set1, common),
        ),
{
    let first = semantics::denotation(store, graph, visible_heads, &*set1);
    let second = semantics::denotation(store, graph, visible_heads, &*set2);
    assert(semantics::denotation(store, graph, visible_heads, &*common) == first.intersect(second));
    assert(first.union(second) =~= second.union(first));
    assert(first.intersect(second) =~= second.intersect(first));
    assert(first.difference(second) =~= first.difference(first.intersect(second)));
}

/// The marks for sets that may not exist and for filters stand for the set that they mark.
pub proof fn law_marks_keep_the_set(
    store: &Store,
    graph: Seq<IndexedCommit>,
    visible_heads: Set<u32>,
    set: Rc<RevsetExpression>,
)
    ensures
        semantics::denotation(store, graph, visible_heads, &RevsetExpression::Present(set))
            == semantics::denotation(store, graph, visible_heads, &*set),
        semantics::denotation(store, graph, visible_heads, &RevsetExpression::AsFilter(set))
            == semantics::denotation(store, graph, visible_heads, &*set),
{
}

/// What a condition holds of is visible.
pub proof fn law_filter_is_visible(
    store: &Store,
    graph: Seq<IndexedCommit>,
    visible_heads: Set<u32>,
    condition: RevsetFilterPredicate,
)
    ensures
        semantics::denotation(
            store,
            graph,
            visible_heads,
            &RevsetExpression::Filter(condition),
        ).subset_of(semantics::denotation(store, graph, visible_heads, &RevsetExpression::All)),
{
}

/// The earliest commit of a set.
proof fn lemma_earliest(store: &Store, graph: Seq<IndexedCommit>, set: Set<u32>) -> (earliest: u32)
    requires
        set.finite(),
        set.len() > 0,
    ensures
        set.contains(earliest),
        forall|p: u32| #[trigger]
            set.contains(p) && p != earliest ==> semantics::is_later(store, graph, p, earliest),
    decreases set.len(),
{
    let some = set.choose();
    if set.len() == 1 {
        assert(set.remove(some) =~= Set::empty());
        assert forall|p: u32| #[trigger] set.contains(p) implies p == some by {
            if p != some {
                assert(set.remove(some).contains(p));
            }
        }
        some
    } else {
        let other = lemma_earliest(store, graph, set.remove(some));
        let earliest = if semantics::is_later(store, graph, some, other) {
            other
        } else {
            some
        };
        assert forall|p: u32| #[trigger] set.contains(p) && p != earliest implies semantics::is_later(
            store,
            graph,
            p,
            earliest,
        ) by {
            if p != some {
                assert(set.remove(some).contains(p));
            }
        }
        earliest
    }
}

/// Of the latest commits of a set there are as many as are asked for, or all where the set has
/// fewer.
pub proof fn law_number_of_latest(
    store: &Store,
    graph: Seq<IndexedCommit>,
    set: Set<u32>,
    count: nat,
)
    ensures
        semantics::latest(store, graph, set, count).subset_of(set),
        semantics::latest(store, graph, set, count).len() == if count < set.len() {
            count
        } else {
            set.len()
        },
    decreases set.len(),
{
    iter::lemma_positions_finite(set);
    let latest = semantics::latest(store, graph, set, count);
    iter::lemma_positions_finite(latest);
    if set.len() == 0 {
        assert(set =~= Set::empty());
        assert(latest =~= Set::empty());
    } else {
        let earliest = lemma_earliest(store, graph, set);
        let rest = set.remove(earliest);
        law_number_of_latest(store, graph, rest, count);
        let among_rest = semantics::latest(store, graph, rest, count);
        iter::lemma_positions_finite(among_rest);
        assert(semantics::later_than(store, graph, set, earliest) =~= rest);
        assert forall|p: u32| rest.contains(p) implies #[trigger] semantics::later_than(
            store,
            graph,
            set,
            p,
        ) == semantics::later_than(store, graph, rest, p) by {
            assert(semantics::later_than(store, graph, set, p) =~= semantics::later_than(
                store,
                graph,
                rest,
                p,
            ));
        }
        if rest.len() < count {
            assert(latest =~= among_rest.insert(earliest));
        } else {
            assert(latest =~= among_rest);
        }
    }
}

/// Each of the latest commits of a set has a later time than each other commit of the set, in
/// milliseconds since the epoch, or the same time and a higher position.
pub proof fn law_latest_are_later(
    store: &Store,
    graph: Seq<IndexedCommit>,
    set: Set<u32>,
    count: nat,
    p: u32,
    q: u32,
)
    requires
        semantics::latest(store, graph, set, count).contains(p),
        set.contains(q),
        !semantics::latest(store, graph, set, count).contains(q),
    ensures
        ({
            let time_p = store.commit(graph[p as int].commit_id).committer.timestamp.timestamp.0;
            let time_q = store.commit(graph[q as int].commit_id).committer.timestamp.timestamp.0;
            time_p > time_q || (time_p == time_q && p > q)
        }),
{
    let later_p = semantics::later_than(store, graph, set, p);
    let later_q = semantics::later_than(store, graph, set, q);
    iter::lemma_positions_finite(later_p);
    iter::lemma_positions_finite(later_q);
    if !semantics::is_later(store, graph, p, q) {
        assert forall|r: u32| later_q.contains(r) implies later_p.contains(r) by {}
        vstd::set_lib::lemma_len_subset(later_q, later_p);
    }
}

/// A commit that is among the latest is so too if more are asked for.
pub proof fn law_more_latest(
    store: &Store,
    graph: Seq<IndexedCommit>,
    set: Set<u32>,
    fewer: nat,
    more: nat,
)
    requires
        fewer <= more,
    ensures
        semantics::latest(store, graph, set, fewer).subset_of(
            semantics::latest(store, graph, set, more),
        ),
{
}

/// All names in the expression have been resolved to commits, and these are in the index.
pub open spec fn is_resolved(graph: Seq<IndexedCommit>, expression: &RevsetExpression) -> bool
    decreases expression,
{
    match expression {
        RevsetExpression::Symbol(_)
        | RevsetExpression::Branches(_)
        | RevsetExpression::RemoteBranches { .. }
        | RevsetExpression::Tags
        | RevsetExpression::GitRefs
        | RevsetExpression::GitHead => false,
        RevsetExpression::Empty
        | RevsetExpression::All
        | RevsetExpression::VisibleHeads
        | RevsetExpression::Filter(_) => true,
        RevsetExpression::Commits(commit_ids) => index::are_indexed(graph, commit_ids@),
        RevsetExpression::Children(inner)
        | RevsetExpression::Ancestors { heads: inner, .. }
        | RevsetExpression::Heads(inner)
        | RevsetExpression::Roots(inner)
        | RevsetExpression::Latest { candidates: inner, .. }
        | RevsetExpression::AsFilter(inner)
        | RevsetExpression::Present(inner)
        | RevsetExpression::NotIn(inner) => is_resolved(graph, &**inner),
        RevsetExpression::Range { roots: inner1, heads: inner2, .. }
        | RevsetExpression::DagRange { roots: inner1, heads: inner2 }
        | RevsetExpression::Union(inner1, inner2)
        | RevsetExpression::Intersection(inner1, inner2)
        | RevsetExpression::Difference(inner1, inner2) => is_resolved(graph, &**inner1)
            && is_resolved(graph, &**inner2),
    }
}

/// The expression asks what is stored of commits.
pub open spec fn reads_store(expression: &RevsetExpression) -> bool
    decreases expression,
{
    match expression {
        RevsetExpression::Filter(condition) => filter::reads_store(*condition),
        RevsetExpression::Latest { candidates, count } => *count > 0 || reads_store(&**candidates),
        RevsetExpression::Children(inner)
        | RevsetExpression::Ancestors { heads: inner, .. }
        | RevsetExpression::Heads(inner)
        | RevsetExpression::Roots(inner)
        | RevsetExpression::AsFilter(inner)
        | RevsetExpression::Present(inner)
        | RevsetExpression::NotIn(inner) => reads_store(&**inner),
        RevsetExpression::Range { roots: inner1, heads: inner2, .. }
        | RevsetExpression::DagRange { roots: inner1, heads: inner2 }
        | RevsetExpression::Union(inner1, inner2)
        | RevsetExpression::Intersection(inner1, inner2)
        | RevsetExpression::Difference(inner1, inner2) => reads_store(&**inner1) || reads_store(
            &**inner2,
        ),
        _ => false,
    }
}

/// An expression whose names have been resolved can be evaluated, and its set can be gone through,
/// where the visible heads are in the index and, if the expression asks what is stored of commits,
/// the commits of the index are stored.
pub proof fn law_resolved_expressions_can_be_evaluated(
    store: &Store,
    graph: Seq<IndexedCommit>,
    visible_heads: Set<u32>,
    expression: &RevsetExpression,
)
    requires
        graph::is_graph(graph),
        graph::in_graph(graph, visible_heads),
        is_resolved(graph, expression),
        reads_store(expression) ==> forall|p: int|
            0 <= p < graph.len() ==> store.has_commit((#[trigger] graph[p]).commit_id),
    ensures
        semantics::is_evaluable(store, graph, visible_heads, true, expression),
        semantics::is_listable(store, graph, visible_heads, expression),
    decreases expression,
{
    graph::lemma_ancestors_in_graph(graph, visible_heads);
    match expression {
        RevsetExpression::Latest { candidates, count } => {
            law_resolved_expressions_can_be_evaluated(store, graph, visible_heads, &**candidates);
            semantics::lemma_denotation_in_graph(store, graph, visible_heads, &**candidates);
        },
        RevsetExpression::Children(inner)
        | RevsetExpression::Ancestors { heads: inner, .. }
        | RevsetExpression::Heads(inner)
        | RevsetExpression::Roots(inner)
        | RevsetExpression::AsFilter(inner)
        | RevsetExpression::Present(inner)
        | RevsetExpression::NotIn(inner) => {
            law_resolved_expressions_can_be_evaluated(store, graph, visible_heads, &**inner);
        },
        RevsetExpression::Range { roots: inner1, heads: inner2, .. }
        | RevsetExpression::DagRange { roots: inner1, heads: inner2 }
        | RevsetExpression::Union(inner1, inner2)
        | RevsetExpression::Intersection(inner1, inner2)
        | RevsetExpression::Difference(inner1, inner2) => {
            law_resolved_expressions_can_be_evaluated(store, graph, visible_heads, &**inner1);
            law_resolved_expressions_can_be_evaluated(store, graph, visible_heads, &**inner2);
            semantics::lemma_denotation_in_graph(store, graph, visible_heads, &**inner1);
            assert forall|p: u32| #[trigger]
                semantics::denotation(store, graph, visible_heads, &**inner1).contains(
                    p,
                ) implies semantics::can_be_asked(store, graph, &**inner2, p) by {
                lemma_can_be_asked(store, graph, &**inner2, p);
            }
        },
        _ => {},
    }
}

/// What can be evaluated stays so in whatever it is put, where the visible heads and the commits
/// are in the index and the sets can be gone through. That goes for the latest of a set where its
/// commits are stored.
pub proof fn law_compositions_can_be_evaluated(
    store: &Store,
    graph: Seq<IndexedCommit>,
    visible_heads: Set<u32>,
    commit_ids: Vec<CommitId>,
    condition: RevsetFilterPredicate,
    generation: Range<u64>,
    count: usize,
    first: Rc<RevsetExpression>,
    second: Rc<RevsetExpression>,
)
    requires
        forall|i: int|
            0 <= i < commit_ids@.len() ==> index::is_indexed(graph, (#[trigger] commit_ids@[i])@),
        semantics::is_evaluable(store, graph, visible_heads, true, &*first),
        semantics::is_listable(store, graph, visible_heads, &*first),
        semantics::is_evaluable(store, graph, visible_heads, true, &*second),
        semantics::is_listable(store, graph, visible_heads, &*second),
        forall|p: u32| #[trigger]
            semantics::denotation(store, graph, visible_heads, &*first).contains(p)
                ==> store.has_commit(graph[p as int].commit_id),
    ensures
        forall|expression: RevsetExpression|
            {
                ||| expression == RevsetExpression::Empty
                ||| expression == RevsetExpression::All
                ||| expression == RevsetExpression::VisibleHeads
                ||| expression == RevsetExpression::Commits(commit_ids)
                ||| expression == RevsetExpression::Filter(condition)
                ||| expression == RevsetExpression::Children(first)
                ||| expression == (RevsetExpression::Ancestors { heads: first, generation })
                ||| expression == (RevsetExpression::Range {
                    roots: first,
                    heads: second,
                    generation,
                })
                ||| expression == (RevsetExpression::DagRange { roots: first, heads: second })
                ||| expression == RevsetExpression::Heads(first)
                ||| expression == RevsetExpression::Roots(first)
                ||| expression == (RevsetExpression::Latest { candidates: first, count })
                ||| expression == RevsetExpression::AsFilter(first)
                ||| expression == RevsetExpression::Present(first)
                ||| expression == RevsetExpression::NotIn(first)
                ||| expression == RevsetExpression::Union(first, second)
                ||| expression == RevsetExpression::Intersection(first, second)
                ||| expression == RevsetExpression::Difference(first, second)
            } ==> #[trigger] semantics::is_evaluable(
                store,
                graph,
                visible_heads,
                true,
                &expression,
            ),
{
}

proof fn lemma_can_be_asked(
    store: &Store,
    graph: Seq<IndexedCommit>,
    expression: &RevsetExpression,
    p: u32,
)
    requires
        p < graph.len(),
        reads_store(expression) ==> forall|q: int|
            0 <= q < graph.len() ==> store.has_commit((#[trigger] graph[q]).commit_id),
    ensures
        semantics::can_be_asked(store, graph, expression, p),
    decreases expression,
{
    match expression {
        RevsetExpression::AsFilter(inner)
        | RevsetExpression::Present(inner)
        | RevsetExpression::NotIn(inner) => {
            lemma_can_be_asked(store, graph, &**inner, p);
        },
        RevsetExpression::Union(inner1, inner2)
        | RevsetExpression::Intersection(inner1, inner2)
        | RevsetExpression::Difference(inner1, inner2) => {
            lemma_can_be_asked(store, graph, &**inner1, p);
            lemma_can_be_asked(store, graph, &**inner2, p);
        },
        _ => {},
    }
}

} // verus!
