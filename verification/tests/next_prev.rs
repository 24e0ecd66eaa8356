//! The sets that decide where moving to a child or to a parent leads.

use revset_engine::expression::RevsetExpression;
use revset_engine::index::CompositeIndex;
use revset_engine::object_id::{ChangeId, CommitId};
use revset_engine::revset_impl::evaluate;
use revset_engine::store::Store;
use std::rc::Rc;

/// An index of commits with the given parents; the commits without children are the visible heads.
struct History {
    index: CompositeIndex,
    ids: Vec<CommitId>,
    heads: Vec<CommitId>,
    store: Store,
}

fn history(parents: &[&[usize]]) -> History {
    let mut index = CompositeIndex::full(1, 1);
    let mut ids: Vec<CommitId> = vec![];
    for (i, parents) in parents.iter().enumerate() {
        let id = CommitId::new(vec![i as u8]);
        let parent_ids: Vec<CommitId> = parents.iter().map(|p| ids[*p].clone()).collect();
        index.add_commit_data(id.clone(), ChangeId::new(vec![i as u8]), &parent_ids);
        ids.push(id);
    }
    let heads = (0..ids.len())
        .filter(|i| !parents.iter().any(|of| of.contains(i)))
        .map(|i| ids[i].clone())
        .collect();
    History {
        index,
        ids,
        heads,
        store: Store::new(vec![]),
    }
}

impl History {
    fn positions(&self, expression: &RevsetExpression) -> Vec<usize> {
        let set = evaluate(expression, &self.store, &self.index, &self.heads).unwrap();
        let mut iter = set.iter();
        let mut positions = vec![];
        while let Some(id) = iter.next() {
            positions.push(self.ids.iter().position(|other| *other == id).unwrap());
        }
        positions
    }

    fn at(&self, position: usize) -> Rc<RevsetExpression> {
        Rc::new(RevsetExpression::Commits(vec![self.ids[position].clone()]))
    }

    /// The visible children.
    fn next(&self, position: usize) -> Vec<usize> {
        self.positions(&RevsetExpression::Children(self.at(position)))
    }

    /// The ancestors at the number of steps, other than the root of the history.
    fn prev(&self, position: usize, steps: u64) -> Vec<usize> {
        let ancestors = Rc::new(RevsetExpression::Ancestors {
            heads: self.at(position),
            generation: steps..steps + 1,
        });
        let root = Rc::new(RevsetExpression::Roots(Rc::new(RevsetExpression::All)));
        self.positions(&RevsetExpression::Difference(ancestors, root))
    }
}

/// Where to move: to the only target, or else the move fails.
fn target(targets: Vec<usize>) -> Result<usize, String> {
    match targets.as_slice() {
        [only] => Ok(*only),
        [] => Err("no target".to_string()),
        _ => Err(format!("ambiguous targets: {targets:?}")),
    }
}

#[test]
fn test_prev_multiple_without_root() {
    let history = history(&[&[], &[0], &[1], &[2], &[3]]);
    assert_eq!(target(history.prev(4, 2)), Ok(2));
    assert_eq!(target(history.prev(4, 3)), Ok(1));
    assert_eq!(target(history.prev(4, 4)), Err("no target".to_string()));
}

#[test]
fn test_next_fails_on_branching_children() {
    let history = history(&[&[], &[0], &[1], &[1]]);
    assert_eq!(
        target(history.next(1)),
        Err("ambiguous targets: [3, 2]".to_string())
    );
}

#[test]
fn test_prev_fails_on_multiple_parents() {
    let history = history(&[&[], &[0], &[0], &[1, 2]]);
    assert_eq!(
        target(history.prev(3, 1)),
        Err("ambiguous targets: [2, 1]".to_string())
    );
}

#[test]
fn test_prev_onto_root_fails() {
    let history = history(&[&[], &[0]]);
    assert_eq!(target(history.prev(1, 1)), Err("no target".to_string()));
    // There is nothing before the root.
    assert_eq!(target(history.prev(0, 1)), Err("no target".to_string()));
}

#[test]
fn test_prev_editing() {
    let history = history(&[&[], &[0], &[1]]);
    assert_eq!(target(history.prev(2, 1)), Ok(1));
    assert_eq!(target(history.prev(2, 0)), Ok(2));
}

#[test]
fn test_next_editing() {
    let history = history(&[&[], &[0], &[1]]);
    assert_eq!(target(history.next(1)), Ok(2));
    assert_eq!(target(history.next(2)), Err("no target".to_string()));
}
