//! The sets of commits that revset expressions stand for.

use crate::expression::RevsetExpression;
use crate::filter;
use crate::graph;
use crate::graph::IndexedCommit;
use crate::index;
use crate::store::Store;
use vstd::prelude::*;

verus! {

/// The time at which the commit was committed.
pub open spec fn commit_time(store: &Store, graph: Seq<IndexedCommit>, p: u32) -> i64 {
    store.commit(graph[p as int].commit_id).committer.timestamp.timestamp.0
}

/// Whether `p` is later than `q`: by the time, and by the position for want of a difference.
pub open spec fn is_later(store: &Store, graph: Seq<IndexedCommit>, p: u32, q: u32) -> bool {
    ||| commit_time(store, graph, p) > commit_time(store, graph, q)
    ||| commit_time(store, graph, p) == commit_time(store, graph, q) && p > q
}

/// The commits of the set that are later than `p`.
pub open spec fn later_than(
    store: &Store,
    graph: Seq<IndexedCommit>,
    set: Set<u32>,
    p: u32,
) -> Set<u32> {
    set.filter(|q: u32| is_later(store, graph, q, p))
}

/// The commits of the set that fewer than `count` others are later than.
pub open spec fn latest(
    store: &Store,
    graph: Seq<IndexedCommit>,
    set: Set<u32>,
    count: nat,
) -> Set<u32> {
    set.filter(|p: u32| later_than(store, graph, set, p).len() < count)
}

/// The positions of the commits that the expression stands for, where `visible_heads` are those
/// of the visible heads.
pub open spec fn denotation(
    store: &Store,
    graph: Seq<IndexedCommit>,
    visible_heads: Set<u32>,
    expression: &RevsetExpression,
) -> Set<u32>
    decreases expression,
{
    let all = graph::ancestors(graph, visible_heads);
    match expression {
        RevsetExpression::Empty => Set::empty(),
        RevsetExpression::All => all,
        RevsetExpression::Commits(commit_ids) => index::positions_of(graph, commit_ids@),
        RevsetExpression::Children(roots) => graph::children_in(
            graph,
            denotation(store, graph, visible_heads, &**roots),
            all,
        ),
        RevsetExpression::Ancestors { heads, generation } => graph::ancestors_within(
            graph,
            denotation(store, graph, visible_heads, &**heads),
            generation.start as nat,
            generation.end as nat,
        ),
        RevsetExpression::Range { roots, heads, generation } => graph::ancestors_within(
            graph,
            denotation(store, graph, visible_heads, &**heads),
            generation.start as nat,
            generation.end as nat,
        ).difference(
            graph::ancestors(graph, denotation(store, graph, visible_heads, &**roots)),
        ),
        RevsetExpression::DagRange { roots, heads } => graph::dag_range(
            graph,
            denotation(store, graph, visible_heads, &**roots),
            denotation(store, graph, visible_heads, &**heads),
        ),
        RevsetExpression::VisibleHeads => visible_heads,
        RevsetExpression::Heads(candidates) => graph::heads_of(
            graph,
            denotation(store, graph, visible_heads, &**candidates),
        ),
        RevsetExpression::Roots(candidates) => graph::roots_of(
            graph,
            denotation(store, graph, visible_heads, &**candidates),
        ),
        RevsetExpression::Latest { candidates, count } => latest(
            store,
            graph,
            denotation(store, graph, visible_heads, &**candidates),
            *count as nat,
        ),
        RevsetExpression::Filter(condition) => all.filter(
            |p: u32| filter::filter_holds(store, *condition, graph[p as int]),
        ),
        RevsetExpression::AsFilter(candidates) => denotation(
            store,
            graph,
            visible_heads,
            &**candidates,
        ),
        RevsetExpression::Present(candidates) => denotation(
            store,
            graph,
            visible_heads,
            &**candidates,
        ),
        RevsetExpression::NotIn(complement) => all.difference(
            denotation(store, graph, visible_heads, &**complement),
        ),
        RevsetExpression::Union(expression1, expression2) => denotation(
            store,
            graph,
            visible_heads,
            &**expression1,
        ).union(denotation(store, graph, visible_heads, &**expression2)),
        RevsetExpression::Intersection(expression1, expression2) => denotation(
            store,
            graph,
            visible_heads,
            &**expression1,
        ).intersect(denotation(store, graph, visible_heads, &**expression2)),
        RevsetExpression::Difference(expression1, expression2) => denotation(
            store,
            graph,
            visible_heads,
            &**expression1,
        ).difference(denotation(store, graph, visible_heads, &**expression2)),
        RevsetExpression::Symbol(_)
        | RevsetExpression::Branches(_)
        | RevsetExpression::RemoteBranches { .. }
        | RevsetExpression::Tags
        | RevsetExpression::GitRefs
        | RevsetExpression::GitHead => Set::empty(),
    }
}

/// The commits at the positions are stored.
pub open spec fn are_stored(store: &Store, graph: Seq<IndexedCommit>, set: Set<u32>) -> bool {
    forall|p: u32| #[trigger] set.contains(p) ==> store.has_commit(graph[p as int].commit_id)
}

/// Whether it can be asked of the commit at `p` if it is in the set: where that depends on what is
/// stored of it, it is stored.
pub open spec fn can_be_asked(
    store: &Store,
    graph: Seq<IndexedCommit>,
    expression: &RevsetExpression,
    p: u32,
) -> bool
    decreases expression,
{
    match expression {
        RevsetExpression::Filter(condition) => filter::reads_store(*condition) ==> store.has_commit(
            graph[p as int].commit_id,
        ),
        RevsetExpression::AsFilter(candidates) => can_be_asked(store, graph, &**candidates, p),
        RevsetExpression::Present(candidates) => can_be_asked(store, graph, &**candidates, p),
        RevsetExpression::NotIn(complement) => can_be_asked(store, graph, &**complement, p),
        RevsetExpression::Union(expression1, expression2)
        | RevsetExpression::Intersection(expression1, expression2)
        | RevsetExpression::Difference(expression1, expression2) => can_be_asked(
            store,
            graph,
            &**expression1,
            p,
        ) && can_be_asked(store, graph, &**expression2, p),
        _ => true,
    }
}

/// Of what it can be asked if it is in a set, it can be asked if it is in a part that the set is
/// composed of, and of everything if it is in a set of ancestors.
pub proof fn lemma_asked_of_part(
    store: &Store,
    graph: Seq<IndexedCommit>,
    expression: &RevsetExpression,
    part: &RevsetExpression,
)
    requires
        match expression {
            RevsetExpression::AsFilter(inner)
            | RevsetExpression::Present(inner)
            | RevsetExpression::NotIn(inner) => **inner == *part,
            RevsetExpression::Union(expression1, expression2)
            | RevsetExpression::Intersection(expression1, expression2)
            | RevsetExpression::Difference(expression1, expression2) => **expression1 == *part
                || **expression2 == *part,
            _ => false,
        } || part is All || part is Ancestors || part is Range,
    ensures
        forall|p: u32| #[trigger]
            can_be_asked(store, graph, expression, p) ==> can_be_asked(store, graph, part, p),
{
    assert forall|p: u32| #[trigger]
        can_be_asked(store, graph, expression, p) implies can_be_asked(store, graph, part, p) by {}
}

/// Whether the set that the expression stands for can be iterated over: where it depends on what is
/// stored of commits whether they are in the set, these are stored.
pub open spec fn is_listable(
    store: &Store,
    graph: Seq<IndexedCommit>,
    visible_heads: Set<u32>,
    expression: &RevsetExpression,
) -> bool
    decreases expression,
{
    match expression {
        RevsetExpression::Filter(condition) => filter::reads_store(*condition) ==> are_stored(
            store,
            graph,
            graph::ancestors(graph, visible_heads),
        ),
        RevsetExpression::AsFilter(inner)
        | RevsetExpression::Present(inner)
        | RevsetExpression::NotIn(inner) => is_listable(store, graph, visible_heads, &**inner),
        RevsetExpression::Union(expression1, expression2)
        | RevsetExpression::Difference(expression1, expression2) => {
            &&& is_listable(store, graph, visible_heads, &**expression1)
            &&& is_listable(store, graph, visible_heads, &**expression2)
        },
        RevsetExpression::Intersection(expression1, expression2) => {
            &&& is_listable(store, graph, visible_heads, &**expression1)
            &&& forall|p: u32| #[trigger]
                denotation(store, graph, visible_heads, &**expression1).contains(p)
                    ==> can_be_asked(store, graph, &**expression2, p)
        },
        _ => true,
    }
}

/// Whether the expression can be evaluated: all names in it have been resolved to commits, these
/// are in the index, where it asks for what is visible the visible heads are in the index too, and
/// sets that have to be gone through can be.
pub open spec fn is_evaluable(
    store: &Store,
    graph: Seq<IndexedCommit>,
    visible_heads: Set<u32>,
    heads_indexed: bool,
    expression: &RevsetExpression,
) -> bool
    decreases expression,
{
    match expression {
        RevsetExpression::Symbol(_)
        | RevsetExpression::Branches(_)
        | RevsetExpression::RemoteBranches { .. }
        | RevsetExpression::Tags
        | RevsetExpression::GitRefs
        | RevsetExpression::GitHead => false,
        RevsetExpression::Empty => true,
        RevsetExpression::All
        | RevsetExpression::VisibleHeads
        | RevsetExpression::Filter(_) => heads_indexed,
        RevsetExpression::Commits(commit_ids) => index::are_indexed(graph, commit_ids@),
        RevsetExpression::Children(roots) => {
            &&& heads_indexed
            &&& is_evaluable(store, graph, visible_heads, heads_indexed, &**roots)
            &&& is_listable(store, graph, visible_heads, &**roots)
        },
        RevsetExpression::Ancestors { heads: inner, .. }
        | RevsetExpression::Heads(inner)
        | RevsetExpression::Roots(inner) => {
            &&& is_evaluable(store, graph, visible_heads, heads_indexed, &**inner)
            &&& is_listable(store, graph, visible_heads, &**inner)
        },
        RevsetExpression::Range { roots, heads, .. }
        | RevsetExpression::DagRange { roots, heads } => {
            &&& is_evaluable(store, graph, visible_heads, heads_indexed, &**roots)
            &&& is_listable(store, graph, visible_heads, &**roots)
            &&& is_evaluable(store, graph, visible_heads, heads_indexed, &**heads)
            &&& is_listable(store, graph, visible_heads, &**heads)
        },
        RevsetExpression::Latest { candidates, count } => {
            &&& is_evaluable(store, graph, visible_heads, heads_indexed, &**candidates)
            &&& *count > 0 ==> {
                &&& is_listable(store, graph, visible_heads, &**candidates)
                &&& are_stored(
                    store,
                    graph,
                    denotation(store, graph, visible_heads, &**candidates),
                )
            }
        },
        RevsetExpression::AsFilter(inner) | RevsetExpression::Present(inner) => is_evaluable(
            store,
            graph,
            visible_heads,
            heads_indexed,
            &**inner,
        ),
        RevsetExpression::NotIn(complement) => {
            &&& heads_indexed
            &&& is_evaluable(store, graph, visible_heads, heads_indexed, &**complement)
        },
        RevsetExpression::Union(expression1, expression2)
        | RevsetExpression::Intersection(expression1, expression2)
        | RevsetExpression::Difference(expression1, expression2) => {
            &&& is_evaluable(store, graph, visible_heads, heads_indexed, &**expression1)
            &&& is_evaluable(store, graph, visible_heads, heads_indexed, &**expression2)
        },
    }
}

/// The number of steps of the evaluation, at most.
pub open spec fn weight(expression: &RevsetExpression) -> nat
    decreases expression,
{
    match expression {
        RevsetExpression::Empty => 1,
        RevsetExpression::VisibleHeads => 1,
        RevsetExpression::Commits(_) => 1,
        RevsetExpression::All => 5,
        RevsetExpression::Ancestors { heads, .. } => weight(&**heads) + 3,
        RevsetExpression::Range { roots, heads, .. } => weight(&**roots) + weight(&**heads) + 1,
        RevsetExpression::DagRange { roots, heads } => weight(&**roots) + weight(&**heads) + 4,
        RevsetExpression::Children(roots) => weight(&**roots) + 6,
        RevsetExpression::Heads(candidates) => weight(&**candidates) + 1,
        RevsetExpression::Roots(candidates) => 2 * weight(&**candidates) + 5,
        RevsetExpression::Latest { candidates, .. } => weight(&**candidates) + 1,
        RevsetExpression::Filter(_) => 6,
        RevsetExpression::AsFilter(candidates) => weight(&**candidates) + 1,
        RevsetExpression::Present(candidates) => weight(&**candidates) + 1,
        RevsetExpression::NotIn(complement) => weight(&**complement) + 6,
        RevsetExpression::Union(expression1, expression2) => weight(&**expression1) + weight(
            &**expression2,
        ) + 1,
        RevsetExpression::Intersection(expression1, expression2) => weight(&**expression1) + weight(
            &**expression2,
        ) + 1,
        RevsetExpression::Difference(expression1, expression2) => weight(&**expression1) + weight(
            &**expression2,
        ) + 1,
        RevsetExpression::Symbol(_)
        | RevsetExpression::Branches(_)
        | RevsetExpression::RemoteBranches { .. }
        | RevsetExpression::Tags
        | RevsetExpression::GitRefs
        | RevsetExpression::GitHead => 1,
    }
}

/// Every set that an expression stands for is one of positions of the graph.
pub proof fn lemma_denotation_in_graph(
    store: &Store,
    graph: Seq<IndexedCommit>,
    visible_heads: Set<u32>,
    expression: &RevsetExpression,
)
    requires
        graph::is_graph(graph),
        graph::in_graph(graph, visible_heads),
    ensures
        graph::in_graph(graph, denotation(store, graph, visible_heads, expression)),
    decreases expression,
{
    graph::lemma_ancestors_in_graph(graph, visible_heads);
    match expression {
        RevsetExpression::Ancestors { heads, generation } => {
            lemma_denotation_in_graph(store, graph, visible_heads, &**heads);
            graph::lemma_ancestors_within(
                graph,
                denotation(store, graph, visible_heads, &**heads),
                generation.start as nat,
                generation.end as nat,
            );
            graph::lemma_ancestors_in_graph(graph, denotation(store, graph, visible_heads, &**heads));
        },
        RevsetExpression::Range { roots, heads, generation } => {
            lemma_denotation_in_graph(store, graph, visible_heads, &**heads);
            graph::lemma_ancestors_within(
                graph,
                denotation(store, graph, visible_heads, &**heads),
                generation.start as nat,
                generation.end as nat,
            );
            graph::lemma_ancestors_in_graph(graph, denotation(store, graph, visible_heads, &**heads));
        },
        RevsetExpression::DagRange { roots, heads } => {
            lemma_denotation_in_graph(store, graph, visible_heads, &**heads);
            graph::lemma_ancestors_in_graph(graph, denotation(store, graph, visible_heads, &**heads));
        },
        RevsetExpression::Heads(inner)
        | RevsetExpression::Roots(inner)
        | RevsetExpression::AsFilter(inner)
        | RevsetExpression::Present(inner) => {
            lemma_denotation_in_graph(store, graph, visible_heads, &**inner);
        },
        RevsetExpression::Latest { candidates, count } => {
            lemma_denotation_in_graph(store, graph, visible_heads, &**candidates);
        },
        RevsetExpression::Union(expression1, expression2)
        | RevsetExpression::Intersection(expression1, expression2)
        | RevsetExpression::Difference(expression1, expression2) => {
            lemma_denotation_in_graph(store, graph, visible_heads, &**expression1);
            lemma_denotation_in_graph(store, graph, visible_heads, &**expression2);
        },
        _ => {},
    }
}

} // verus!
