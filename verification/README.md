# sql_planner

Identifier allocation for queries, verified with Verus.

- `src/interpreter.rs`: ranges of identifiers, the pool of an interpreter and
  the interpreter's term-by-term state machine (`InterpreterModel`).
- `src/predictor.rs`: the statistics of the last terms, the decaying maximum,
  the `MakeAction` rule interface and the predictor.
- `src/strategy.rs`: the rules that turn a prediction into a number of
  identifiers to hold.
- `src/simulation.rs`: the shared sequence, workload generators and the
  simulator that drives several interpreters (`SimulatorModel`), with the
  proof that no identifier is handed out twice.
- `src/text.rs`: decimal text of integers, for the text forms of `Inertion`
  and `DebugState`.

Every executable function states in its contract the abstract state it
leaves; the `*_fits` predicates state exactly when the integer arithmetic
stays within range.
