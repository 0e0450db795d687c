# relational

A relational query engine with differential dataflow semantics, verified with Verus.

- `collection`, `change`, `tuple`: multisets of tuples, signed changes, and the tuple values the
  engine stores.
- `operators`: the relational operators on collections (map, filter, join, distinct, difference,
  aggregates) and the incremental state of a group sum.
- `dataflow`: the dataflow graph and its evaluation order.
- `database`: the database: inputs, derived relations, feedback loops run to a fixpoint,
  interrupts, and push/pop checkpoints that undo input changes. What a commit leaves is stated
  as a run of the fixpoint (`fixpoint_from`): the rounds it passes through, each firing the
  first loop not at rest, and exactly when it stops at rest, at an interrupt or at the
  iteration limit, and when a multiplicity did not fit in `i64`.
- `database2`: the pull-based engine pieces: feedback variables that emit each tuple once and
  undo a checkpoint level, and relations that stream changes (map, max, min).
- `cdcl`: a CDCL SAT solver whose propagation is a dataflow program on the database.
- `checkpoint`: the checkpoint stack.
- `pb_check`: the checks a pseudo-boolean constraint passes before it is handed to a solver.
- `proof_log`: rewriting a pseudo-boolean proof log so that it concludes from the external
  literals (the highest constraint id it defines, its conclusion lines, the new ending).

`app/` holds two small driver programs that replay edit sequences and print the relations.
