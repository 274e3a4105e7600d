# expression_explorer

A term-rewriting workbench: expressions, patterns and actions live in flat
postfix arenas inside a `Pool`; rulesets written as text
(`name { rule: pattern => action ... }`) are parsed into the pool; rules are
matched anywhere inside an expression and applied, and every rewrite is
recorded in a graph over expressions and over equivalence groups of equal
expressions, which can then be searched and analysed.

The library in `src/` is verified with Verus: the public functions state
what they return and how they change the pool. The breadth-first search is
stated as a run of search steps, each of which takes the next state, queues
the states its recorded rewrites and its rule applications lead to, and
reports the paths it finds; on pools without rules that run is given
directly as a function of the pool.

- `ast`, `idx`, `pool`, `children`: the node types, typed indices, the pool
  with its interning tables, and walking a node's children in an arena.
- `display`: the text of expressions, patterns, actions and rules.
- `parser`: a recognizer for the expression, pattern, action and ruleset
  grammars over characters, and the replay of its events into the pool.
- `captures`, `rules`, `equality`: pattern matching with bindings, finding
  every match in an expression, building a rule's replacement (with integer
  computations) and splicing it into a copy of the expression.
- `graph`, `traversal`, `chains`: the rewrite graph and equivalence groups;
  paths, reachability, cycles, strongly connected components; rule
  application chains and their blacklist.
- `explore`: a bounded breadth-first search over rewrites.
- `checks`: runtime tests of what matching and rule application need.
- `metrics`, `search`: expression depth and size, node kind names, and the
  edit distance between texts.
- `laws`: properties relating several operations, proved once.

`app/` holds the parts that run around the library: the search engine whose
strategies rank paths by floating-point costs and draw random moves, and
closure-driven graph walks. `tests/` exercises the library from outside.
