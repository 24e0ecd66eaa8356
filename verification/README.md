# revset_engine

Evaluates revset expressions: descriptions of sets of commits, such as "the ancestors of these
heads that touch this file". Everything under `src/` is verified with Verus.

## What a set is

The index (`index`) holds the commits of a repository, each at a position after those of its
parents. Its view is a sequence of what is recorded of each commit, and `graph` defines ancestors,
heads, roots and ranges over such sequences as sets of positions. `semantics` gives each expression
(`expression`) the set of positions that it stands for.

## How a set is computed

`engine` evaluates an expression to a set that is put together from others (`revset`) or has its
entries listed (`eager`, `latest_revset`). Such a set
can be iterated over in descending order of position, and it can be asked about entries in that
order (`iter`, `predicate`). The contract of the evaluation says that what comes out is the set that
the expression stands for. `revset_impl` is the front: `evaluate`, and what can be done with an
evaluated set.

## Lookups by prefix

`id_index` finds entries by a prefix of their identifier and knows how long a prefix has to be to
stand for one identifier only. `change_id_index` does so for the changes of a set.

## The rest

- `walk`: walks from commits to their ancestors.
- `filter`, `matchers`, `store`: conditions on single commits, and what they read.
- `latest`, `sort`: the latest of a number of commits, and sorting.
- `laws`: laws of the sets that expressions stand for. Other laws stand beside what they are about,
  under names that start with `law_`.

Two functions are trusted: `itertools::chain`, called in `id_index`, and `str::contains`, called in
`filter`.
