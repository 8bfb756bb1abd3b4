# caelum

A model checker for `.lum` specifications of finite transition systems,
written in Verus: the library's functions carry contracts that Verus proves.

## Layout

- `src/syntax`: the lexer, the grammar of `.lum` files over tokens, the
  recursive-descent parser (proved to return a tree its input spells in the
  grammar) and the printer (proved to print the exact text of its spec).
- `src/loader`: import resolution behind a `ModuleResolver`, cycle detection
  and merging.
- `src/sema`: type checking (`Ok` exactly for well-typed files) and
  elaboration of the surface syntax (quantifiers, `unchanged`, parameterised
  transitions, indexed variables) into the core syntax.
- `src/model`: values, states, the evaluator and the reachable state graph.
- `src/checker`: the explicit-state LTL checker over the graph (its
  counterexample paths proved shortest), with laws about its verdicts, and
  the text of the human-readable report.
- `src/bmc`: bounded model checking: the symbolic encoding, its unrolling
  over a bound, three SAT backends (varisat, CaDiCaL, Z3), and the proof
  that a counterexample found with varisat or CaDiCaL is a run of the system
  that violates the property.
- `src/diagnostics.rs`: errors, their text and exit codes.
- `app/`: the command line (`parse`, `fmt`, `check`), file-system module
  resolution, printing the human report, and the JSON report.
- `tests/`: the test suite.
