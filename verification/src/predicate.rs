//! Predicates that are asked about entries in descending order of position.

use crate::index::IndexEntry;
use vstd::prelude::*;

verus! {

/// What a predicate says of an entry.
#[derive(Debug, Clone, Copy, PartialEq, Eq, Structural)]
pub enum PredicateMatch {
    /// The predicate matches the entry.
    Match,
    /// The predicate does not match the entry, but may match later entries
    /// (with lower IndexPosition).
    NotThisOne,
    /// The predicate does not match the entry, and will not match any later
    /// entries.
    NeverAgain,
}

/// What a predicate that looks at one entry only says of it.
pub open spec fn match_if(b: bool) -> PredicateMatch {
    if b {
        PredicateMatch::Match
    } else {
        PredicateMatch::NotThisOne
    }
}

/// What holds of an entry by both predicates.
pub open spec fn match_both(first: PredicateMatch, second: PredicateMatch) -> PredicateMatch {
    if first is Match && second is Match {
        PredicateMatch::Match
    } else if first is NeverAgain || second is NeverAgain {
        PredicateMatch::NeverAgain
    } else {
        PredicateMatch::NotThisOne
    }
}

/// What holds of an entry by one predicate or the other.
pub open spec fn match_either(first: PredicateMatch, second: PredicateMatch) -> PredicateMatch {
    if first is Match || second is Match {
        PredicateMatch::Match
    } else if first is NeverAgain && second is NeverAgain {
        PredicateMatch::NeverAgain
    } else {
        PredicateMatch::NotThisOne
    }
}

/// What holds of an entry by the first predicate and not by the second.
pub open spec fn match_without(first: PredicateMatch, second: PredicateMatch) -> PredicateMatch {
    if first is NeverAgain {
        PredicateMatch::NeverAgain
    } else if first is Match && !(second is Match) {
        PredicateMatch::Match
    } else {
        PredicateMatch::NotThisOne
    }
}

impl PredicateMatch {
    /// A match if and only if `b` holds.
    pub fn from_boolean(b: bool) -> (result: Self)
        ensures
            result == match_if(b),
    {
        if b {
            PredicateMatch::Match
        } else {
            PredicateMatch::NotThisOne
        }
    }

    /// What holds of an entry by both predicates.
    pub fn and(self, other: PredicateMatch) -> (result: PredicateMatch)
        ensures
            result == match_both(self, other),
    {
        match (self, other) {
            (PredicateMatch::Match, PredicateMatch::Match) => PredicateMatch::Match,
            (PredicateMatch::NeverAgain, _) => PredicateMatch::NeverAgain,
            (_, PredicateMatch::NeverAgain) => PredicateMatch::NeverAgain,
            _ => PredicateMatch::NotThisOne,
        }
    }

    /// What holds of an entry by one predicate or the other.
    pub fn or(self, other: PredicateMatch) -> (result: PredicateMatch)
        ensures
            result == match_either(self, other),
    {
        match (self, other) {
            (PredicateMatch::NeverAgain, PredicateMatch::NeverAgain) => PredicateMatch::NeverAgain,
            (PredicateMatch::Match, _) => PredicateMatch::Match,
            (_, PredicateMatch::Match) => PredicateMatch::Match,
            _ => PredicateMatch::NotThisOne,
        }
    }

    /// What holds of an entry by the first predicate and not by the second.
    pub fn and_not(self, other: PredicateMatch) -> (result: PredicateMatch)
        ensures
            result == match_without(self, other),
    {
        match (self, other) {
            (PredicateMatch::NeverAgain, _) => PredicateMatch::NeverAgain,
            (_, PredicateMatch::Match) => PredicateMatch::NotThisOne,
            (PredicateMatch::Match, _) => PredicateMatch::Match,
            _ => PredicateMatch::NotThisOne,
        }
    }
}

/// Which of two predicates comes first matters neither where both nor where one of them has to
/// match, and to combine more than two of them it does not matter which are combined first.
pub proof fn law_both_and_either(
    first: PredicateMatch,
    second: PredicateMatch,
    third: PredicateMatch,
)
    ensures
        match_both(first, second) == match_both(second, first),
        match_either(first, second) == match_either(second, first),
        match_both(match_both(first, second), third) == match_both(
            first,
            match_both(second, third),
        ),
        match_either(match_either(first, second), third) == match_either(
            first,
            match_either(second, third),
        ),
{
}

/// A predicate on entries that has no state.
pub trait PurePredicate<'index> {
    /// Whether the predicate can be asked about the entry.
    spec fn is_defined_at(&self, entry: IndexEntry<'index>) -> bool;

    /// Whether the predicate holds of the entry.
    spec fn accepts(&self, entry: IndexEntry<'index>) -> bool;

    /// Whether the predicate holds of the entry.
    fn test(&self, entry: &IndexEntry<'index>) -> (result: PredicateMatch)
        requires
            entry.wf(),
            self.is_defined_at(*entry),
        ensures
            result == match_if(self.accepts(*entry)),
    ;
}

/// The state of a predicate that is asked about entries in descending order.
pub enum PredicateModel<P> {
    /// Holds at these positions, of which those that have been passed are gone.
    Members(Set<u32>),
    /// Holds of the entries that a predicate without state accepts.
    Pure(P),
    /// Holds of what both hold of.
    And(Box<PredicateModel<P>>, Box<PredicateModel<P>>),
    /// Holds of what either holds of.
    Or(Box<PredicateModel<P>>, Box<PredicateModel<P>>),
    /// Holds of what the first holds of and the second does not.
    AndNot(Box<PredicateModel<P>>, Box<PredicateModel<P>>),
}

/// Whether a position of the set is below `p`.
pub open spec fn has_below(set: Set<u32>, p: u32) -> bool {
    exists|q: u32| #[trigger] set.contains(q) && q < p
}

impl<'index, P: PurePredicate<'index>> PredicateModel<P> {
    /// Whether the predicate can be asked about the entry.
    pub open spec fn is_defined(self, entry: IndexEntry<'index>) -> bool
        decreases self,
    {
        match self {
            PredicateModel::Members(_) => true,
            PredicateModel::Pure(test) => test.is_defined_at(entry),
            PredicateModel::And(first, second) => first.is_defined(entry) && second.is_defined(
                entry,
            ),
            PredicateModel::Or(first, second) => first.is_defined(entry) && second.is_defined(
                entry,
            ),
            PredicateModel::AndNot(first, second) => first.is_defined(entry) && second.is_defined(
                entry,
            ),
        }
    }

    /// What the predicate says of the entry.
    pub open spec fn outcome(self, entry: IndexEntry<'index>) -> PredicateMatch
        decreases self,
    {
        match self {
            PredicateModel::Members(set) => if set.contains(entry.pos.0) {
                PredicateMatch::Match
            } else if has_below(set, entry.pos.0) {
                PredicateMatch::NotThisOne
            } else {
                PredicateMatch::NeverAgain
            },
            PredicateModel::Pure(test) => match_if(test.accepts(entry)),
            PredicateModel::And(first, second) => match_both(
                first.outcome(entry),
                second.outcome(entry),
            ),
            PredicateModel::Or(first, second) => match_either(
                first.outcome(entry),
                second.outcome(entry),
            ),
            PredicateModel::AndNot(first, second) => match_without(
                first.outcome(entry),
                second.outcome(entry),
            ),
        }
    }

    /// The predicate after it has been asked about an entry at `p`.
    pub open spec fn advance(self, p: u32) -> PredicateModel<P>
        decreases self,
    {
        match self {
            PredicateModel::Members(set) => PredicateModel::Members(set.filter(|q: u32| q < p)),
            PredicateModel::Pure(test) => PredicateModel::Pure(test),
            PredicateModel::And(first, second) => PredicateModel::And(
                Box::new(first.advance(p)),
                Box::new(second.advance(p)),
            ),
            PredicateModel::Or(first, second) => PredicateModel::Or(
                Box::new(first.advance(p)),
                Box::new(second.advance(p)),
            ),
            PredicateModel::AndNot(first, second) => PredicateModel::AndNot(
                Box::new(first.advance(p)),
                Box::new(second.advance(p)),
            ),
        }
    }

    /// Whether the entry is in the set that the predicate stands for.
    pub open spec fn selects(self, entry: IndexEntry<'index>) -> bool
        decreases self,
    {
        match self {
            PredicateModel::Members(set) => set.contains(entry.pos.0),
            PredicateModel::Pure(test) => test.accepts(entry),
            PredicateModel::And(first, second) => first.selects(entry) && second.selects(entry),
            PredicateModel::Or(first, second) => first.selects(entry) || second.selects(entry),
            PredicateModel::AndNot(first, second) => first.selects(entry) && !second.selects(entry),
        }
    }
}

/// A predicate matches an entry if and only if the entry is in the set that it stands for.
pub proof fn law_match_is_membership<'index, P: PurePredicate<'index>>(
    model: PredicateModel<P>,
    entry: IndexEntry<'index>,
)
    ensures
        model.outcome(entry) is Match <==> model.selects(entry),
    decreases model,
{
    match model {
        PredicateModel::And(first, second)
        | PredicateModel::Or(first, second)
        | PredicateModel::AndNot(first, second) => {
            law_match_is_membership(*first, entry);
            law_match_is_membership(*second, entry);
        },
        _ => {},
    }
}

/// Once a predicate has said that it will not match again, it matches neither the entry that it
/// was asked about nor any with a lower position.
pub proof fn law_never_again<'index, P: PurePredicate<'index>>(
    model: PredicateModel<P>,
    entry: IndexEntry<'index>,
    later: IndexEntry<'index>,
)
    requires
        model.outcome(entry) is NeverAgain,
        later.pos.0 <= entry.pos.0,
    ensures
        !(model.outcome(later) is Match),
        !(model.advance(entry.pos.0).outcome(later) is Match),
    decreases model,
{
    match model {
        PredicateModel::And(first, second) => {
            if first.outcome(entry) is NeverAgain {
                law_never_again(*first, entry, later);
            } else {
                law_never_again(*second, entry, later);
            }
        },
        PredicateModel::Or(first, second) => {
            law_never_again(*first, entry, later);
            law_never_again(*second, entry, later);
        },
        PredicateModel::AndNot(first, second) => {
            law_never_again(*first, entry, later);
        },
        PredicateModel::Members(set) => {
            if set.contains(later.pos.0) {
                assert(has_below(set, entry.pos.0) || set.contains(entry.pos.0));
            }
        },
        _ => {},
    }
}

/// To ask a predicate about an entry changes nothing of what it says of lower positions: entries
/// in between can be skipped.
pub proof fn law_entries_can_be_skipped<'index, P: PurePredicate<'index>>(
    model: PredicateModel<P>,
    p: u32,
    later: IndexEntry<'index>,
)
    requires
        later.pos.0 < p,
    ensures
        model.advance(p).outcome(later) == model.outcome(later),
        model.advance(p).is_defined(later) == model.is_defined(later),
    decreases model,
{
    match model {
        PredicateModel::And(first, second)
        | PredicateModel::Or(first, second)
        | PredicateModel::AndNot(first, second) => {
            law_entries_can_be_skipped(*first, p, later);
            law_entries_can_be_skipped(*second, p, later);
        },
        PredicateModel::Members(set) => {
            let rest = set.filter(|q: u32| q < p);
            if has_below(set, later.pos.0) {
                let q = choose|q: u32| #[trigger] set.contains(q) && q < later.pos.0;
                assert(rest.contains(q));
            }
            if has_below(rest, later.pos.0) {
                let q = choose|q: u32| #[trigger] rest.contains(q) && q < later.pos.0;
                assert(set.contains(q));
            }
        },
        _ => {},
    }
}

/// A predicate that is asked about an entry and then about another at the same position or a lower
/// one is left as if it had been asked about the second alone.
pub proof fn law_asked_further_down<'index, P: PurePredicate<'index>>(
    model: PredicateModel<P>,
    p: u32,
    q: u32,
)
    requires
        q <= p,
    ensures
        model.advance(p).advance(q) == model.advance(q),
    decreases model,
{
    match model {
        PredicateModel::And(first, second)
        | PredicateModel::Or(first, second)
        | PredicateModel::AndNot(first, second) => {
            law_asked_further_down(*first, p, q);
            law_asked_further_down(*second, p, q);
        },
        PredicateModel::Members(set) => {
            let upper = set.filter(|r: u32| r < p);
            assert(model.advance(p) == PredicateModel::<P>::Members(upper));
            assert(upper.filter(|r: u32| r < q) =~= set.filter(|r: u32| r < q));
        },
        _ => {},
    }
}

} // verus!
