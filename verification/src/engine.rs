//! The evaluation of revset expressions.

use crate::expression;
use crate::expression::{
    RevsetError, RevsetExpression, GENERATION_RANGE_FULL_END, GENERATION_RANGE_FULL_START,
};
use crate::filter;
use crate::filter::PurePredicateFn;
use crate::graph;
use crate::index;
use crate::index::{CompositeIndex, IndexEntry};
use crate::iter;
use crate::object_id::CommitId;
use crate::revset;
use crate::revset::{
    ChildrenRevset, DifferenceRevset, EagerRevset, FilterPredicate, FilterRevset, InternalRevset,
    RevWalkRevset, UnionRevset,
};
use crate::semantics;
use crate::store::Store;
use core::ops::Range;
use vstd::prelude::*;

verus! {

/// A set of commits with the conditions of revset expressions as filters.
pub type EvaluatedRevset<'index> = InternalRevset<'index, PurePredicateFn<'index>>;

/// The set holds just the commits of the index at the positions.
pub open spec fn is_set_of<'index>(
    set: EvaluatedRevset<'index>,
    index: &'index CompositeIndex,
    positions: Set<u32>,
) -> bool {
    &&& set.wf()
    &&& set.is_over(index)
    &&& set.entries().dom() == positions
}

/// Whether the predicate of the set can be asked about the commit of the index at `p`.
pub open spec fn answers_at<'index>(
    set: EvaluatedRevset<'index>,
    index: &'index CompositeIndex,
    p: u32,
) -> bool {
    set.predicate_model().is_defined(index::entry_at(index, p))
}

/// What an expression is evaluated against.
pub struct EvaluationContext<'index, 'heads> {
    pub store: &'index Store,
    pub composite_index: &'index CompositeIndex,
    pub visible_heads: &'heads [CommitId],
}

impl<'index, 'heads> EvaluationContext<'index, 'heads> {
    /// Whether the visible heads are commits of the index.
    pub open spec fn heads_indexed(&self) -> bool {
        index::are_indexed(self.composite_index@, self.visible_heads@)
    }

    /// The positions of the visible heads.
    pub open spec fn visible_positions(&self) -> Set<u32> {
        index::positions_of(self.composite_index@, self.visible_heads@)
    }

    /// The positions of the commits that the expression stands for.
    pub open spec fn denotation(&self, expression: &RevsetExpression) -> Set<u32> {
        semantics::denotation(
            self.store,
            self.composite_index@,
            self.visible_positions(),
            expression,
        )
    }

    /// Whether the expression can be evaluated.
    pub open spec fn can_evaluate(&self, expression: &RevsetExpression) -> bool {
        semantics::is_evaluable(
            self.store,
            self.composite_index@,
            self.visible_positions(),
            self.heads_indexed(),
            expression,
        )
    }

    /// Whether the set that the expression stands for can be iterated over.
    pub open spec fn can_list(&self, expression: &RevsetExpression) -> bool {
        semantics::is_listable(
            self.store,
            self.composite_index@,
            self.visible_positions(),
            expression,
        )
    }
}

/// Replaces a set that does not exist by the empty set. Other errors stay.
pub fn present<'index>(result: Result<EvaluatedRevset<'index>, RevsetError>) -> (present: Result<
    EvaluatedRevset<'index>,
    RevsetError,
>)
    ensures
        result is Ok ==> present == result,
        result matches Err(RevsetError::NoSuchRevision(_)) ==> present matches Ok(set) && set.wf()
            && set.entries() == Map::<u32, IndexEntry<'index>>::empty(),
        result matches Err(error) && !(error is NoSuchRevision) ==> present == result,
{
    match result {
        Ok(set) => Ok(set),
        Err(RevsetError::NoSuchRevision(_)) => Ok(InternalRevset::Eager(EagerRevset::empty())),
        Err(RevsetError::AmbiguousIdPrefix(prefix)) => Err(RevsetError::AmbiguousIdPrefix(prefix)),
        Err(RevsetError::StoreError(error)) => Err(RevsetError::StoreError(error)),
    }
}

impl<'index, 'heads> EvaluationContext<'index, 'heads> {
    /// The ancestors of the heads at a distance in the range that are not ancestors of the roots.
    fn range_revset(
        &self,
        root_set: &EvaluatedRevset<'index>,
        head_set: &EvaluatedRevset<'index>,
        generation: &Range<u64>,
    ) -> (set: EvaluatedRevset<'index>)
        requires
            self.composite_index.wf(),
            root_set.wf(),
            root_set.is_over(self.composite_index),
            root_set.is_iterable(),
            head_set.wf(),
            head_set.is_over(self.composite_index),
            head_set.is_iterable(),
        ensures
            set is RevWalk,
            is_set_of(
                set,
                self.composite_index,
                graph::ancestors_within(
                    self.composite_index@,
                    head_set.entries().dom(),
                    generation.start as nat,
                    generation.end as nat,
                ).difference(
                    graph::ancestors(self.composite_index@, root_set.entries().dom()),
                ),
            ),
    {
        let root_ids = self.commit_ids(root_set);
        let head_ids = self.commit_ids(head_set);
        let walk = self.composite_index.walk_revs(head_ids.as_slice(), root_ids.as_slice());
        let ghost graph = self.composite_index@;
        let ghost heads = head_set.entries().dom();
        let walk = if generation.start == GENERATION_RANGE_FULL_START && generation.end
            == GENERATION_RANGE_FULL_END {
            proof {
                graph::lemma_ancestors_within(
                    graph,
                    heads,
                    generation.start as nat,
                    generation.end as nat,
                );
            }
            walk
        } else {
            walk.filter_by_generation(generation.start..generation.end)
        };
        let set: EvaluatedRevset<'index> = InternalRevset::RevWalk(RevWalkRevset { walk });
        assert(set.entries().dom() =~= walk@);
        set
    }

    /// The expression for the ancestors of a set stands for all of them.
    proof fn lemma_ancestors_of(&self, heads: &RevsetExpression, expression: &RevsetExpression)
        requires
            self.composite_index.wf(),
            expression matches RevsetExpression::Ancestors { heads: inner, generation } && *inner
                == *heads && expression::is_full_range(*generation),
        ensures
            self.denotation(expression) == graph::ancestors(
                self.composite_index@,
                self.denotation(heads),
            ),
            self.can_evaluate(expression) == (self.can_evaluate(heads) && self.can_list(heads)),
            semantics::weight(expression) == semantics::weight(heads) + 3,
    {
        let graph = self.composite_index@;
        semantics::lemma_denotation_in_graph(self.store, graph, self.visible_positions(), heads);
        graph::lemma_ancestors_within(graph, self.denotation(heads), 0, u64::MAX as nat);
    }

    /// The expression for the descendants of a set stands for the visible ones.
    proof fn lemma_descendants_of(&self, roots: &RevsetExpression, expression: &RevsetExpression)
        requires
            expression matches RevsetExpression::DagRange { roots: inner, heads } && *inner == *roots
                && **heads is VisibleHeads,
        ensures
            self.denotation(expression) == graph::dag_range(
                self.composite_index@,
                self.denotation(roots),
                self.visible_positions(),
            ),
            self.can_evaluate(expression) == (self.heads_indexed() && self.can_evaluate(roots)
                && self.can_list(roots)),
            semantics::weight(expression) == semantics::weight(roots) + 5,
    {
        if let RevsetExpression::DagRange { roots: _, heads } = expression {
            assert(self.denotation(&**heads) == self.visible_positions());
            assert(self.can_evaluate(&**heads) == self.heads_indexed());
            assert(semantics::weight(&**heads) == 1);
        }
    }

    /// The expression for a connected set stands for the set and what lies between.
    proof fn lemma_connected_of(
        &self,
        candidates: &RevsetExpression,
        expression: &RevsetExpression,
    )
        requires
            expression matches RevsetExpression::DagRange { roots, heads } && *roots == *candidates
                && *heads == *candidates,
        ensures
            self.denotation(expression) == graph::dag_range(
                self.composite_index@,
                self.denotation(candidates),
                self.denotation(candidates),
            ),
            self.can_evaluate(expression) == (self.can_evaluate(candidates) && self.can_list(
                candidates,
            )),
            semantics::weight(expression) == 2 * semantics::weight(candidates) + 4,
    {
    }

    /// Without roots, a range is made of the ancestors of its heads.
    proof fn lemma_range_from_none(
        &self,
        heads: &RevsetExpression,
        generation: Range<u64>,
        expression: &RevsetExpression,
    )
        requires
            expression matches RevsetExpression::Range {
                roots,
                heads: inner,
                generation: distances,
            } && **roots is Empty && **inner == *heads && *distances == generation,
        ensures
            self.denotation(expression) == graph::ancestors_within(
                self.composite_index@,
                self.denotation(heads),
                generation.start as nat,
                generation.end as nat,
            ),
            self.can_evaluate(expression) == (self.can_evaluate(heads) && self.can_list(heads)),
            semantics::weight(expression) == semantics::weight(heads) + 2,
    {
        if let RevsetExpression::Range { roots, .. } = expression {
            let graph = self.composite_index@;
            let nothing = Set::<u32>::empty();
            assert(self.denotation(&**roots) == nothing);
            assert(self.can_evaluate(&**roots));
            assert(semantics::weight(&**roots) == 1);
            graph::lemma_ancestors_least(graph, nothing, nothing);
            assert(graph::ancestors(graph, nothing) =~= nothing);
            assert(self.denotation(expression) =~= graph::ancestors_within(
                graph,
                self.denotation(heads),
                generation.start as nat,
                generation.end as nat,
            ));
        }
    }

    /// The candidates of a set over the index that have a parent among the roots.
    proof fn lemma_children(&self, set: ChildrenRevset<'index, PurePredicateFn<'index>>)
        requires
            set.root_set.wf(),
            set.candidate_set.wf(),
            set.candidate_set.is_over(self.composite_index),
            graph::in_graph(self.composite_index@, set.candidate_set.entries().dom()),
        ensures
            set.wf(),
            set.entries().dom() == graph::children_in(
                self.composite_index@,
                set.root_set.entries().dom(),
                set.candidate_set.entries().dom(),
            ),
    {
        let graph = self.composite_index@;
        let roots = set.root_set.entries().dom();
        let candidates = set.candidate_set.entries();
        revset::lemma_entries_over_index(*set.candidate_set, self.composite_index);
        assert forall|p: u32| #[trigger] set.entries().dom().contains(p) <==> graph::children_in(
            graph,
            roots,
            candidates.dom(),
        ).contains(p) by {
            if candidates.dom().contains(p) {
                assert(candidates[p] == index::entry_at(self.composite_index, p));
                if iter::has_parent_in(candidates[p], roots) {
                    let root = choose|root: u32| #[trigger]
                        roots.contains(root) && candidates[p].commit().parents.contains(root);
                    assert(roots.contains(root) && graph::is_parent(graph, p, root));
                }
            }
        }
        assert(set.entries().dom() =~= graph::children_in(graph, roots, candidates.dom()));
    }

    /// The candidates that a predicate matches.
    proof fn lemma_filter(
        &self,
        set: FilterRevset<'index, PurePredicateFn<'index>>,
        wanted: Set<u32>,
    )
        requires
            set.candidates.wf(),
            set.candidates.is_over(self.composite_index),
            set.predicate.wf(),
            set.predicate.is_over(self.composite_index),
            set.candidates.is_askable(),
            set.predicate.is_askable(),
            forall|p: u32| #[trigger]
                wanted.contains(p) <==> set.candidates.entries().dom().contains(p)
                    && set.predicate.predicate_model().outcome(
                    index::entry_at(self.composite_index, p),
                ) is Match,
        ensures
            is_set_of(InternalRevset::Filter(set), self.composite_index, wanted),
            InternalRevset::Filter(set).is_askable(),
            set.candidates.is_iterable() && (forall|p: u32| #[trigger]
                set.candidates.entries().dom().contains(p)
                    ==> set.predicate.predicate_model().is_defined(
                    index::entry_at(self.composite_index, p),
                )) ==> InternalRevset::Filter(set).is_iterable(),
            forall|p: u32|
                answers_at(*set.candidates, self.composite_index, p)
                    && set.predicate.predicate_model().is_defined(
                    index::entry_at(self.composite_index, p),
                ) ==> #[trigger] answers_at(InternalRevset::Filter(set), self.composite_index, p),
    {
        revset::lemma_entries_over_index(*set.candidates, self.composite_index);
        assert forall|p: u32| #[trigger] set.entries().dom().contains(p) <==> wanted.contains(p) by {
            assert(set.candidates.entries().dom().contains(p) ==> set.candidates.entries()[p]
                == index::entry_at(self.composite_index, p));
        }
        assert(set.entries().dom() =~= wanted);
    }

    /// The commits of either set.
    proof fn lemma_union(&self, set: UnionRevset<'index, PurePredicateFn<'index>>)
        requires
            set.set1.wf(),
            set.set1.is_over(self.composite_index),
            set.set2.wf(),
            set.set2.is_over(self.composite_index),
        ensures
            is_set_of(
                InternalRevset::Union(set),
                self.composite_index,
                set.set1.entries().dom().union(set.set2.entries().dom()),
            ),
            set.set1.is_askable() && set.set2.is_askable() ==> InternalRevset::Union(
                set,
            ).is_askable(),
            set.set1.is_iterable() && set.set2.is_iterable() ==> InternalRevset::Union(
                set,
            ).is_iterable(),
            forall|p: u32|
                answers_at(*set.set1, self.composite_index, p) && answers_at(
                    *set.set2,
                    self.composite_index,
                    p,
                ) ==> #[trigger] answers_at(InternalRevset::Union(set), self.composite_index, p),
    {
        assert(set.entries().dom() =~= set.set1.entries().dom().union(set.set2.entries().dom()));
    }

    /// The commits of the first set that are not in the second.
    proof fn lemma_difference(&self, set: DifferenceRevset<'index, PurePredicateFn<'index>>)
        requires
            set.set1.wf(),
            set.set1.is_over(self.composite_index),
            set.set2.wf(),
            set.set2.is_over(self.composite_index),
        ensures
            is_set_of(
                InternalRevset::Difference(set),
                self.composite_index,
                set.set1.entries().dom().difference(set.set2.entries().dom()),
            ),
            set.set1.is_askable() && set.set2.is_askable() ==> InternalRevset::Difference(
                set,
            ).is_askable(),
            set.set1.is_iterable() && set.set2.is_iterable() ==> InternalRevset::Difference(
                set,
            ).is_iterable(),
            forall|p: u32|
                answers_at(*set.set1, self.composite_index, p) && answers_at(
                    *set.set2,
                    self.composite_index,
                    p,
                ) ==> #[trigger] answers_at(
                    InternalRevset::Difference(set),
                    self.composite_index,
                    p,
                ),
    {
        assert(set.entries().dom() =~= set.set1.entries().dom().difference(
            set.set2.entries().dom(),
        ));
    }

    /// The commits that the expression stands for.
    #[verifier::rlimit(60)]
    pub fn evaluate(&self, expression: &RevsetExpression) -> (result: Result<
        EvaluatedRevset<'index>,
        RevsetError,
    >)
        requires
            self.composite_index.wf(),
            self.can_evaluate(expression),
        ensures
            result matches Ok(set) && {
                &&& is_set_of(set, self.composite_index, self.denotation(expression))
                &&& set.is_askable()
                &&& self.can_list(expression) ==> set.is_iterable()
                &&& forall|p: u32| #[trigger]
                    semantics::can_be_asked(self.store, self.composite_index@, expression, p)
                        ==> answers_at(set, self.composite_index, p)
            },
        decreases semantics::weight(expression),
    {
        let ghost graph = self.composite_index@;
        match expression {
            RevsetExpression::Symbol(_)
            | RevsetExpression::Branches(_)
            | RevsetExpression::RemoteBranches { .. }
            | RevsetExpression::Tags
            | RevsetExpression::GitRefs
            | RevsetExpression::GitHead => {
                // Names have to be resolved before.
                vstd::pervasive::unreached()
            },
            RevsetExpression::Empty => Ok(InternalRevset::Eager(EagerRevset::empty())),
            RevsetExpression::All => {
                // Since `all()` does not include hidden commits, some of the logical
                // transformation rules may subtly change the evaluated set. For example,
                // `all() & x` is not `x` if `x` is hidden.
                let heads = RevsetExpression::visible_heads();
                let all = heads.ancestors();
                proof {
                    self.lemma_ancestors_of(&*heads, &*all);
                    semantics::lemma_asked_of_part(self.store, graph, expression, &*all);
                }
                self.evaluate(&*all)
            },
            RevsetExpression::Commits(commit_ids) => {
                Ok(self.revset_for_commit_ids(commit_ids.as_slice()))
            },
            RevsetExpression::Children(roots) => {
                let root_set = self.evaluate(&**roots)?;
                let candidates = roots.descendants();
                proof {
                    self.lemma_descendants_of(&**roots, &*candidates);
                    graph::lemma_children_in_dag_range(
                        graph,
                        root_set.entries().dom(),
                        self.visible_positions(),
                    );
                }
                let candidate_set = self.evaluate(&*candidates)?;
                let set = ChildrenRevset {
                    root_set: Box::new(root_set),
                    candidate_set: Box::new(candidate_set),
                };
                proof {
                    semantics::lemma_denotation_in_graph(
                        self.store,
                        graph,
                        self.visible_positions(),
                        &*candidates,
                    );
                    self.lemma_children(set);
                }
                Ok(InternalRevset::Children(set))
            },
            RevsetExpression::Ancestors { heads, generation } => {
                let range = RevsetExpression::Range {
                    roots: RevsetExpression::none(),
                    heads: heads.clone(),
                    generation: generation.start..generation.end,
                };
                proof {
                    self.lemma_range_from_none(&**heads, *generation, &range);
                    semantics::lemma_asked_of_part(self.store, graph, expression, &range);
                }
                self.evaluate(&range)
            },
            RevsetExpression::Range { roots, heads, generation } => {
                let root_set = self.evaluate(&**roots)?;
                let head_set = self.evaluate(&**heads)?;
                Ok(self.range_revset(&root_set, &head_set, generation))
            },
            RevsetExpression::DagRange { roots, heads } => {
                let root_set = self.evaluate(&**roots)?;
                let candidates = heads.ancestors();
                proof {
                    self.lemma_ancestors_of(&**heads, &*candidates);
                    graph::lemma_ancestors_closed(graph, self.denotation(&**heads));
                }
                let candidate_set = self.evaluate(&*candidates)?;
                let set = self.dag_range_revset(&root_set, &candidate_set);
                assert(set.entries().dom() =~= graph::dag_range(
                    graph,
                    self.denotation(&**roots),
                    self.denotation(&**heads),
                ));
                Ok(set)
            },
            RevsetExpression::VisibleHeads => Ok(self.revset_for_commit_ids(self.visible_heads)),
            RevsetExpression::Heads(candidates) => {
                let candidate_set = self.evaluate(&**candidates)?;
                let candidate_ids = self.commit_ids(&candidate_set);
                let head_ids = self.composite_index.heads(candidate_ids.as_slice());
                Ok(self.revset_for_commit_ids(head_ids.as_slice()))
            },
            RevsetExpression::Roots(candidates) => {
                let connected = candidates.connected();
                proof {
                    self.lemma_connected_of(&**candidates, &*connected);
                }
                let connected_set = self.evaluate(&*connected)?;
                let candidate_set = self.evaluate(&**candidates)?;
                Ok(self.roots_revset(&candidate_set, &connected_set))
            },
            RevsetExpression::Latest { candidates, count } => {
                let candidate_set = self.evaluate(&**candidates)?;
                Ok(self.take_latest_revset(&candidate_set, *count))
            },
            RevsetExpression::Filter(condition) => {
                let candidates = self.evaluate(&RevsetExpression::All)?;
                let test = filter::build_predicate_fn(self.store, condition);
                let set = FilterRevset {
                    candidates: Box::new(candidates),
                    predicate: FilterPredicate::Pure(test),
                };
                proof {
                    semantics::lemma_asked_of_part(
                        self.store,
                        graph,
                        expression,
                        &RevsetExpression::All,
                    );
                    self.lemma_filter(set, self.denotation(expression));
                }
                Ok(InternalRevset::Filter(set))
            },
            RevsetExpression::AsFilter(candidates) => {
                proof {
                    semantics::lemma_asked_of_part(self.store, graph, expression, &**candidates);
                }
                self.evaluate(&**candidates)
            },
            RevsetExpression::Present(candidates) => {
                proof {
                    semantics::lemma_asked_of_part(self.store, graph, expression, &**candidates);
                }
                present(self.evaluate(&**candidates))
            },
            RevsetExpression::NotIn(complement) => {
                let set1 = self.evaluate(&RevsetExpression::All)?;
                let set2 = self.evaluate(&**complement)?;
                let set = DifferenceRevset { set1: Box::new(set1), set2: Box::new(set2) };
                proof {
                    self.lemma_difference(set);
                    semantics::lemma_asked_of_part(
                        self.store,
                        graph,
                        expression,
                        &RevsetExpression::All,
                    );
                    semantics::lemma_asked_of_part(self.store, graph, expression, &**complement);
                }
                Ok(InternalRevset::Difference(set))
            },
            RevsetExpression::Union(expression1, expression2) => {
                let set1 = self.evaluate(&**expression1)?;
                let set2 = self.evaluate(&**expression2)?;
                let set = UnionRevset { set1: Box::new(set1), set2: Box::new(set2) };
                proof {
                    self.lemma_union(set);
                    semantics::lemma_asked_of_part(self.store, graph, expression, &**expression1);
                    semantics::lemma_asked_of_part(self.store, graph, expression, &**expression2);
                }
                Ok(InternalRevset::Union(set))
            },
            RevsetExpression::Intersection(expression1, expression2) => {
                let candidates = self.evaluate(&**expression1)?;
                let predicate = self.evaluate(&**expression2)?;
                let set = FilterRevset {
                    candidates: Box::new(candidates),
                    predicate: FilterPredicate::Revset(Box::new(predicate)),
                };
                proof {
                    assert forall|p: u32| #[trigger]
                        self.denotation(expression).contains(p)
                            <==> candidates.entries().dom().contains(p) && predicate.predicate_model().outcome(
                            index::entry_at(self.composite_index, p),
                        ) is Match by {
                        revset::law_predicate_is_membership(predicate, self.composite_index, p);
                    }
                    if self.can_list(expression) {
                        assert forall|p: u32| #[trigger]
                            candidates.entries().dom().contains(
                                p,
                            ) implies predicate.predicate_model().is_defined(
                            index::entry_at(self.composite_index, p),
                        ) by {
                            assert(self.denotation(&**expression1).contains(p));
                            assert(semantics::can_be_asked(self.store, graph, &**expression2, p));
                            assert(answers_at(predicate, self.composite_index, p));
                        }
                    }
                    self.lemma_filter(set, self.denotation(expression));
                    semantics::lemma_asked_of_part(self.store, graph, expression, &**expression1);
                    semantics::lemma_asked_of_part(self.store, graph, expression, &**expression2);
                }
                Ok(InternalRevset::Filter(set))
            },
            RevsetExpression::Difference(expression1, expression2) => {
                let set1 = self.evaluate(&**expression1)?;
                let set2 = self.evaluate(&**expression2)?;
                let set = DifferenceRevset { set1: Box::new(set1), set2: Box::new(set2) };
                proof {
                    self.lemma_difference(set);
                    semantics::lemma_asked_of_part(self.store, graph, expression, &**expression1);
                    semantics::lemma_asked_of_part(self.store, graph, expression, &**expression2);
                }
                Ok(InternalRevset::Difference(set))
            },
        }
    }
}

} // verus!
