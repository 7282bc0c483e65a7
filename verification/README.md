# covertree

A cover tree for nearest-neighbour search over points of a metric space,
verified with Verus.

- `src/point.rs`: the `Point` trait (an integer-valued metric, with the metric
  laws as a proof obligation of each implementation) and its implementations
  for `i32` and `i64`; `DEFAULT_SPAN_FACTOR`.
- `src/span.rs`: cover distances `span_factor^level`, saturated at `u64::MAX`,
  and the bounds on levels that they give.
- `src/simple.rs`: the nodes (`Cover`) and the tree (`CoverTree`). The tree is
  specified as the multiset of its points; every node keeps an upper bound on
  the distance to the points below it, which the search uses to skip subtrees.
- `src/laws.rs`: identities over the multiset view that combine the
  contracts of several operations (what a removal after an insertion gives
  back, what a search after an insertion finds, ...).

Insertion keeps the covering condition (each child within its parent's cover
distance, each point below a node within twice that distance), also when it
promotes a leaf from deep below the root. Each node's cached distance is the
exact maximum distance to the points below it, or absent.
